use crate::ball::Direction;
use crate::cells::Cell;
use crate::engine::{
    defers, doomed, leader, leads, lemma_some_cell_leads, mover, phase, resolve, room, run, settle,
    source, step_of, Motion, Tick,
};
use crate::lanes::{fences, lane, lemma_lanes, pos};
use crate::store::{tile_at, Grid};
use crate::tiles::Tile;
use vstd::prelude::*;

verus! {

/// Whether `to` and `from` pair the balls before with the balls after, one
/// to one: `to` sends each cell that held a ball to the cell where that ball
/// is afterwards, which is the same cell or its neighbour in the direction,
/// the ball keeps its state, and `from` leads back from every ball afterwards.
#[verifier::opaque]
pub open spec fn pairs(
    before: Map<Cell, bool>,
    after: Map<Cell, bool>,
    dir: Direction,
    to: Map<Cell, Cell>,
    from: Map<Cell, Cell>,
) -> bool {
    &&& forall|b: Cell|
        #[trigger] before.contains_key(b) ==> after.contains_key(to[b]) && from[to[b]] == b
            && after[to[b]] == before[b] && (to[b] == b || step_of(b, dir) == Some(to[b]))
    &&& forall|a: Cell|
        #[trigger] after.contains_key(a) ==> before.contains_key(from[a]) && to[from[a]] == a
}

/// What a pairing says of one ball before.
pub proof fn lemma_pairs_onward(
    before: Map<Cell, bool>,
    after: Map<Cell, bool>,
    dir: Direction,
    to: Map<Cell, Cell>,
    from: Map<Cell, Cell>,
    b: Cell,
)
    requires
        pairs(before, after, dir, to, from),
        before.contains_key(b),
    ensures
        after.contains_key(to[b]),
        from[to[b]] == b,
        after[to[b]] == before[b],
        to[b] == b || step_of(b, dir) == Some(to[b]),
{
    reveal(pairs);
}

/// What a pairing says of one ball after.
pub proof fn lemma_pairs_back(
    before: Map<Cell, bool>,
    after: Map<Cell, bool>,
    dir: Direction,
    to: Map<Cell, Cell>,
    from: Map<Cell, Cell>,
    a: Cell,
)
    requires
        pairs(before, after, dir, to, from),
        after.contains_key(a),
    ensures
        before.contains_key(from[a]),
        to[from[a]] == a,
{
    reveal(pairs);
}

proof fn lemma_pairs_made(
    before: Map<Cell, bool>,
    after: Map<Cell, bool>,
    dir: Direction,
    to: Map<Cell, Cell>,
    from: Map<Cell, Cell>,
)
    requires
        forall|b: Cell|
            #[trigger] before.contains_key(b) ==> after.contains_key(to[b]) && from[to[b]] == b
                && after[to[b]] == before[b] && (to[b] == b || step_of(b, dir) == Some(to[b])),
        forall|a: Cell|
            #[trigger] after.contains_key(a) ==> before.contains_key(from[a]) && to[from[a]] == a,
    ensures
        pairs(before, after, dir, to, from),
{
    reveal(pairs);
}

/// The pairing that leaves every ball where it is.
pub open spec fn stay() -> Map<Cell, Cell> {
    Map::total(|c: Cell| c)
}

/// One pairing after another.
pub open spec fn then(first: Map<Cell, Cell>, second: Map<Cell, Cell>) -> Map<Cell, Cell> {
    Map::total(|c: Cell| second[first[c]])
}

/// Two pairings in a row make one, if no ball moves in both.
proof fn lemma_pairs_then(
    before: Map<Cell, bool>,
    mid: Map<Cell, bool>,
    after: Map<Cell, bool>,
    dir: Direction,
    to: Map<Cell, Cell>,
    from: Map<Cell, Cell>,
    mv: Map<Cell, Cell>,
    vm: Map<Cell, Cell>,
)
    requires
        pairs(before, mid, dir, to, from),
        pairs(mid, after, dir, mv, vm),
        forall|b: Cell| #![trigger to[b]] before.contains_key(b) && mv[to[b]] != to[b] ==> to[b] == b,
    ensures
        pairs(before, after, dir, then(to, mv), then(vm, from)),
{
    let to2 = then(to, mv);
    let from2 = then(vm, from);
    assert forall|b: Cell| #[trigger] before.contains_key(b) implies after.contains_key(to2[b])
        && from2[to2[b]] == b && after[to2[b]] == before[b] && (to2[b] == b || step_of(b, dir)
        == Some(to2[b])) by {
        lemma_pairs_onward(before, mid, dir, to, from, b);
        lemma_pairs_onward(mid, after, dir, mv, vm, to[b]);
    }
    assert forall|a: Cell| #[trigger] after.contains_key(a) implies before.contains_key(from2[a])
        && to2[from2[a]] == a by {
        lemma_pairs_back(mid, after, dir, mv, vm, a);
        lemma_pairs_back(before, mid, dir, to, from, vm[a]);
    }
    lemma_pairs_made(before, after, dir, to2, from2);
}

/// One attempt moves one ball at most, by one cell, onto a free cell.
proof fn lemma_settle_pairs(grid: Grid, dir: Direction, m: Motion, c: Cell) -> (r: (
    Map<Cell, Cell>,
    Map<Cell, Cell>,
))
    ensures
        pairs(m.balls, settle(grid, dir, m, c).balls, dir, r.0, r.1),
        forall|x: Cell| #![trigger r.0[x]] r.0[x] != x ==> x == c,
{
    let after = settle(grid, dir, m, c).balls;
    if after == m.balls {
        lemma_pairs_made(m.balls, after, dir, stay(), stay());
        (stay(), stay())
    } else {
        let n = step_of(c, dir)->0;
        let to = stay().insert(c, n);
        let from = stay().insert(n, c);
        lemma_pairs_made(m.balls, after, dir, to, from);
        (to, from)
    }
}

/// Whether every cell from the one after `c` up to `x` is a hold tile.
#[verifier::opaque]
pub open spec fn hold_run(grid: Grid, dir: Direction, c: Cell, x: Cell) -> bool {
    &&& lane(x, dir) == lane(c, dir)
    &&& pos(x, dir) > pos(c, dir)
    &&& forall|s: Cell|
        lane(s, dir) == lane(c, dir) && pos(c, dir) < pos(s, dir) <= pos(x, dir) ==> #[trigger] tile_at(
            grid,
            s,
        ) == Tile::Hold
}

proof fn lemma_hold_run_grows(grid: Grid, dir: Direction, c: Cell, n: Cell, x: Cell)
    requires
        step_of(c, dir) == Some(n),
        tile_at(grid, n) == Tile::Hold,
        x == n || hold_run(grid, dir, n, x),
    ensures
        hold_run(grid, dir, c, x),
{
    reveal(hold_run);
    lemma_lanes(c, n, dir);
    assert forall|s: Cell|
        lane(s, dir) == lane(c, dir) && pos(c, dir) < pos(s, dir) <= pos(x, dir) implies #[trigger] tile_at(
        grid,
        s,
    ) == Tile::Hold by {
        lemma_lanes(s, n, dir);
    }
}

proof fn lemma_hold_run_holds(grid: Grid, dir: Direction, c: Cell, x: Cell, s: Cell)
    requires
        hold_run(grid, dir, c, x),
    ensures
        lane(x, dir) == lane(c, dir),
        pos(x, dir) > pos(c, dir),
        lane(s, dir) == lane(c, dir) && pos(c, dir) < pos(s, dir) <= pos(x, dir) ==> tile_at(grid, s)
            == Tile::Hold,
{
    reveal(hold_run);
}

/// Resolving a ball moves each ball by one cell at most and keeps its state,
/// and moves only the ball itself and balls on the hold tiles ahead of it.
pub proof fn lemma_resolve_pairs(grid: Grid, dir: Direction, m: Motion, c: Cell) -> (r: (
    Map<Cell, Cell>,
    Map<Cell, Cell>,
))
    ensures
        pairs(m.balls, resolve(grid, dir, m, c).balls, dir, r.0, r.1),
        forall|x: Cell| #![trigger r.0[x]] r.0[x] != x ==> x == c || hold_run(grid, dir, c, x),
    decreases room(c, dir),
{
    if defers(grid, dir, m, c) {
        let n = step_of(c, dir)->0;
        lemma_lanes(c, n, dir);
        let (to1, from1) = lemma_resolve_pairs(grid, dir, m, n);
        let m1 = resolve(grid, dir, m, n);
        assert(to1[c] == c) by {
            if to1[c] != c {
                if c != n {
                    lemma_hold_run_holds(grid, dir, n, c, c);
                }
            }
        }
        let (to2, from2) = lemma_settle_pairs(grid, dir, m1, c);
        let after = settle(grid, dir, m1, c).balls;
        assert forall|b: Cell| #![trigger to1[b]] m.balls.contains_key(b) && to2[to1[b]] != to1[b]
            implies to1[b] == b by {
            lemma_pairs_onward(m.balls, m1.balls, dir, to1, from1, b);
            lemma_pairs_onward(m.balls, m1.balls, dir, to1, from1, c);
        }
        lemma_pairs_then(m.balls, m1.balls, after, dir, to1, from1, to2, from2);
        let to = then(to1, to2);
        assert forall|x: Cell| #![trigger to[x]] to[x] != x implies x == c || hold_run(
            grid,
            dir,
            c,
            x,
        ) by {
            if x != c {
                if to1[x] != x {
                    lemma_hold_run_grows(grid, dir, c, n, x);
                } else {
                    assert(to2[x] != x);
                }
            }
        }
        (to, then(from2, from1))
    } else {
        lemma_settle_pairs(grid, dir, m, c)
    }
}

/// Whether the cell `x` is out of reach of the balls still to be resolved.
#[verifier::opaque]
pub open spec fn fenced(grid: Grid, dir: Direction, todo: Set<Cell>, x: Cell) -> bool {
    exists|s: Cell| fences(grid, dir, todo, x, s)
}

proof fn lemma_fenced_still(grid: Grid, dir: Direction, todo: Set<Cell>, c: Cell, x: Cell)
    requires
        fenced(grid, dir, todo, x),
    ensures
        fenced(grid, dir, todo.remove(c), x),
{
    reveal(fenced);
    let s = choose|s: Cell| fences(grid, dir, todo, x, s);
    assert(fences(grid, dir, todo.remove(c), x, s));
}

proof fn lemma_fenced_by_leader(grid: Grid, dir: Direction, todo: Set<Cell>, c: Cell, x: Cell)
    requires
        leads(todo, dir, c),
        tile_at(grid, c) != Tile::Hold,
        lane(x, dir) == lane(c, dir),
        pos(x, dir) > pos(c, dir),
    ensures
        fenced(grid, dir, todo.remove(c), x),
{
    reveal(fenced);
    let rest = todo.remove(c);
    assert forall|d: Cell|
        #[trigger] rest.contains(d) && lane(d, dir) == lane(x, dir) && pos(d, dir) < pos(x, dir)
        implies pos(d, dir) < pos(c, dir) by {
        assert(todo.contains(d));
        lemma_lanes(d, c, dir);
    }
    assert(fences(grid, dir, rest, x, c));
}

proof fn lemma_fenced_from(grid: Grid, dir: Direction, todo: Set<Cell>, c: Cell, x: Cell)
    requires
        fenced(grid, dir, todo, x),
        todo.contains(c),
    ensures
        !hold_run(grid, dir, c, x),
{
    reveal(fenced);
    if hold_run(grid, dir, c, x) {
        let s = choose|s: Cell| fences(grid, dir, todo, x, s);
        lemma_hold_run_holds(grid, dir, c, x, s);
    }
}

/// Resolving a work list keeps the pairing: every ball ends on its cell or on
/// the next, and no two on one cell. While the list is resolved, a ball that
/// has moved stays out of reach of the balls still to be resolved, and those
/// have not moved and stand on no hold tile.
pub proof fn lemma_run_pairs(
    grid: Grid,
    dir: Direction,
    start: Map<Cell, bool>,
    m: Motion,
    todo: Set<Cell>,
    to: Map<Cell, Cell>,
    from: Map<Cell, Cell>,
) -> (r: (Map<Cell, Cell>, Map<Cell, Cell>))
    requires
        pairs(start, m.balls, dir, to, from),
        forall|b: Cell| #![trigger to[b]] start.contains_key(b) && to[b] != b ==> fenced(grid, dir, todo, to[b]),
        forall|c: Cell|
            #[trigger] todo.contains(c) ==> start.contains_key(c) && to[c] == c && tile_at(grid, c)
                != Tile::Hold,
    ensures
        pairs(start, run(grid, dir, m, todo).balls, dir, r.0, r.1),
    decreases todo.len(),
{
    let c = leader(todo, dir);
    if todo.finite() && todo.contains(c) {
        lemma_some_cell_leads(todo, dir);
        let rest = todo.remove(c);
        let after = resolve(grid, dir, m, c);
        let (mv, vm) = lemma_resolve_pairs(grid, dir, m, c);
        let to2 = then(to, mv);
        let from2 = then(vm, from);
        assert forall|b: Cell| #![trigger to[b]] start.contains_key(b) && mv[to[b]] != to[b] implies to[b]
            == b by {
            let x = to[b];
            if x == c {
                lemma_pairs_onward(start, m.balls, dir, to, from, b);
                lemma_pairs_onward(start, m.balls, dir, to, from, c);
            } else if to[b] != b {
                lemma_fenced_from(grid, dir, todo, c, x);
            }
        }
        lemma_pairs_then(start, m.balls, after.balls, dir, to, from, mv, vm);
        assert forall|b: Cell| #![trigger to2[b]] start.contains_key(b) && to2[b] != b implies fenced(
            grid,
            dir,
            rest,
            to2[b],
        ) by {
            if mv[to[b]] != to[b] {
                assert(to[b] == b);
                lemma_pairs_onward(start, after.balls, dir, to2, from2, b);
                lemma_lanes(b, to2[b], dir);
                if b != c {
                    lemma_hold_run_holds(grid, dir, c, b, b);
                }
                lemma_fenced_by_leader(grid, dir, todo, c, to2[b]);
            } else {
                lemma_fenced_still(grid, dir, todo, c, to[b]);
            }
        }
        assert forall|d: Cell| #[trigger] rest.contains(d) implies start.contains_key(d) && to2[d] == d
            && tile_at(grid, d) != Tile::Hold by {
            assert(todo.contains(d));
            if mv[d] != d {
                lemma_hold_run_holds(grid, dir, c, d, d);
            }
        }
        lemma_run_pairs(grid, dir, start, after, rest, to2, from2)
    } else {
        (to, from)
    }
}

/// Where a direction finds no ball on a destroy tile and none to copy, the
/// balls before and after it are paired one to one: every ball is on its
/// cell or on the next cell in the direction, in its state; no two balls
/// have landed on one cell, and none is lost or overwritten.
pub proof fn law_balls_pair_off(grid: Grid, dir: Direction, t: Tick)
    requires
        forall|c: Cell| !#[trigger] doomed(grid, t, c),
        forall|c: Cell| !#[trigger] source(grid, dir, t, c),
    ensures
        exists|to: Map<Cell, Cell>, from: Map<Cell, Cell>|
            pairs(t.balls, phase(grid, dir, t).balls, dir, to, from),
{
    let start = Motion {
        balls: t.balls.remove_keys(Set::new(|c: Cell| doomed(grid, t, c))),
        settled: t.settled,
        failed: Set::empty(),
    };
    let go = Set::new(|c: Cell| mover(grid, dir, t, c));
    assert(start.balls =~= t.balls);
    lemma_pairs_made(t.balls, start.balls, dir, stay(), stay());
    let (to, from) = lemma_run_pairs(grid, dir, t.balls, start, go, stay(), stay());
    let end = run(grid, dir, start, go);
    assert(phase(grid, dir, t).balls =~= end.balls);
}

/// What a pairing gives: as many balls after as before, where there are
/// finitely many.
pub proof fn lemma_pairs_count(
    before: Map<Cell, bool>,
    after: Map<Cell, bool>,
    dir: Direction,
    to: Map<Cell, Cell>,
    from: Map<Cell, Cell>,
)
    requires
        pairs(before, after, dir, to, from),
        before.dom().finite(),
    ensures
        after.dom().finite(),
        after.dom().len() == before.dom().len(),
{
    let f = |b: Cell| to[b];
    assert(vstd::relations::injective_on(f, before.dom())) by {
        assert forall|b1: Cell, b2: Cell|
            before.dom().contains(b1) && before.dom().contains(b2) && #[trigger] f(b1) == #[trigger] f(
                b2,
            ) implies b1 == b2 by {
            lemma_pairs_onward(before, after, dir, to, from, b1);
            lemma_pairs_onward(before, after, dir, to, from, b2);
        }
    }
    assert forall|a: Cell| before.dom().map(f).contains(a) == after.dom().contains(a) by {
        if after.dom().contains(a) {
            lemma_pairs_back(before, after, dir, to, from, a);
            assert(before.dom().contains(from[a]) && f(from[a]) == a);
        }
        if before.dom().map(f).contains(a) {
            let b = choose|b: Cell| before.dom().contains(b) && a == f(b);
            lemma_pairs_onward(before, after, dir, to, from, b);
        }
    }
    assert(before.dom().map(f) =~= after.dom());
    vstd::set_lib::lemma_map_size(before.dom(), after.dom(), f);
}

} // verus!
