use crate::ball::Direction;
use crate::cells::Cell;
use crate::chunk::{chunk_of, local_of};
use crate::engine::{
    defers, doomed, leader, leads, lemma_leader, mover, passes, phase, resolve, room, run, settle,
    source, step_of, tick, tick_end, Motion, Tick,
};
use crate::store::{home_of, tile_at, Grid};
use crate::tiles::{default_tile, Tile};
use vstd::prelude::*;

verus! {

/// A world coordinate is its chunk coordinate times the chunk size plus its
/// place in the chunk, the place is never negative and below the chunk size,
/// and no other pair of numbers has these two properties. This holds of
/// every chunk size, and of negative coordinates too.
pub proof fn law_coordinates_split(w: int, s: int, c: int, l: int)
    requires
        s > 0,
    ensures
        (w / s) * s + w % s == w,
        0 <= w % s < s,
        c * s + l == w && 0 <= l < s ==> c == w / s && l == w % s,
        chunk_of(w) == w / 32 && local_of(w) == w % 32,
{
    vstd::arithmetic::div_mod::lemma_fundamental_div_mod(w, s);
    vstd::arithmetic::div_mod::lemma_mod_bound(w, s);
    assert(s * (w / s) == (w / s) * s) by (nonlinear_arith);
    if c * s + l == w && 0 <= l < s {
        assert(s * c == c * s) by (nonlinear_arith);
        vstd::arithmetic::div_mod::lemma_fundamental_div_mod_converse(w, s, c, l);
    }
}

/// A cell whose chunk does not exist reads as the default tile.
pub proof fn law_unwritten_reads_default(grid: Grid, c: Cell)
    requires
        !grid.contains_key(home_of(c)),
    ensures
        tile_at(grid, c) == default_tile(),
{
}

/// A cell holds one ball at most: a ball placed on a cell that holds one
/// takes its place, so that placing never raises the number of balls by more
/// than one, and not at all on an occupied cell; and no other cell is touched.
pub proof fn law_one_ball_per_cell(balls: Map<Cell, bool>, c: Cell, first: bool, second: bool, d: Cell)
    requires
        balls.dom().finite(),
    ensures
        balls.insert(c, first).insert(c, second) == balls.insert(c, second),
        balls.insert(c, first).dom().len() == balls.dom().len() + if balls.contains_key(c) {
            0int
        } else {
            1int
        },
        d != c ==> balls.insert(c, first).contains_key(d) == balls.contains_key(d),
        d != c && balls.contains_key(d) ==> balls.insert(c, first)[d] == balls[d],
{
    assert(balls.insert(c, first).insert(c, second) =~= balls.insert(c, second));
    assert(balls.insert(c, first).dom() =~= balls.dom().insert(c));
}

/// Every ball on a destroy tile is one that has moved during this tick.
pub open spec fn destroyers_clear(grid: Grid, balls: Map<Cell, bool>, settled: Set<Cell>) -> bool {
    forall|c: Cell| #[trigger]
        balls.contains_key(c) && tile_at(grid, c) == Tile::Destroy ==> settled.contains(c)
}

/// What every attempt to move a ball keeps: the number of balls, the cells
/// already settled, and that a ball on a destroy tile has moved there.
pub open spec fn kept(grid: Grid, before: Motion, after: Motion) -> bool {
    &&& after.balls.dom().finite()
    &&& after.balls.dom().len() == before.balls.dom().len()
    &&& before.settled.subset_of(after.settled)
    &&& destroyers_clear(grid, before.balls, before.settled) ==> destroyers_clear(
        grid,
        after.balls,
        after.settled,
    )
}

proof fn lemma_settle_keeps(grid: Grid, dir: Direction, m: Motion, p: Cell)
    requires
        m.balls.dom().finite(),
    ensures
        kept(grid, m, settle(grid, dir, m, p)),
{
    let after = settle(grid, dir, m, p);
    if m.balls.contains_key(p) && step_of(p, dir) is Some {
        let n = step_of(p, dir)->0;
        if !m.balls.contains_key(n) && tile_at(grid, n) != Tile::Block {
            assert(after.balls.dom() =~= m.balls.dom().remove(p).insert(n));
        }
    }
}

proof fn lemma_resolve_keeps(grid: Grid, dir: Direction, m: Motion, p: Cell)
    requires
        m.balls.dom().finite(),
    ensures
        kept(grid, m, resolve(grid, dir, m, p)),
    decreases room(p, dir),
{
    if defers(grid, dir, m, p) {
        let n = step_of(p, dir)->0;
        lemma_resolve_keeps(grid, dir, m, n);
        lemma_settle_keeps(grid, dir, resolve(grid, dir, m, n), p);
    } else {
        lemma_settle_keeps(grid, dir, m, p);
    }
}

proof fn lemma_run_keeps(grid: Grid, dir: Direction, m: Motion, todo: Set<Cell>)
    requires
        m.balls.dom().finite(),
    ensures
        kept(grid, m, run(grid, dir, m, todo)),
    decreases todo.len(),
{
    let p = leader(todo, dir);
    if todo.finite() && todo.contains(p) {
        lemma_resolve_keeps(grid, dir, m, p);
        lemma_run_keeps(grid, dir, resolve(grid, dir, m, p), todo.remove(p));
    }
}

/// Moving balls neither makes nor loses a ball: however the balls of a work
/// list are resolved, as many balls are there afterwards as before, so no two
/// balls have ended on one cell.
pub proof fn law_moves_keep_every_ball(grid: Grid, dir: Direction, m: Motion, todo: Set<Cell>)
    requires
        m.balls.dom().finite(),
    ensures
        run(grid, dir, m, todo).balls.dom().finite(),
        run(grid, dir, m, todo).balls.dom().len() == m.balls.dom().len(),
{
    lemma_run_keeps(grid, dir, m, todo);
}

/// After a direction has been worked through, whatever the direction, a ball
/// is on a destroy tile only if it moved there during this tick: a ball that
/// a direction finds on a destroy tile, not having moved, is gone.
pub proof fn law_destroy_clears(grid: Grid, dir: Direction, t: Tick, c: Cell)
    requires
        t.balls.dom().finite(),
        tile_at(grid, c) == Tile::Destroy,
        phase(grid, dir, t).balls.contains_key(c),
    ensures
        phase(grid, dir, t).settled.contains(c),
{
    let start = Motion {
        balls: t.balls.remove_keys(Set::new(|c: Cell| doomed(grid, t, c))),
        settled: t.settled,
        failed: Set::empty(),
    };
    assert(start.balls.dom().subset_of(t.balls.dom()));
    vstd::set_lib::lemma_len_subset(start.balls.dom(), t.balls.dom());
    assert(destroyers_clear(grid, start.balls, start.settled)) by {
        assert forall|d: Cell| #[trigger]
            start.balls.contains_key(d) && tile_at(grid, d) == Tile::Destroy implies start.settled.contains(
            d,
        ) by {
            if !t.settled.contains(d) {
                assert(doomed(grid, t, d));
            }
        }
    }
    lemma_run_keeps(grid, dir, start, Set::new(|c: Cell| mover(grid, dir, t, c)));
    assert(!source(grid, dir, t, c));
}

/// After a whole tick a ball is on a destroy tile only if it moved there
/// during the tick: a ball that rests on a destroy tile when a tick begins
/// is gone when it ends, unless another ball has taken its place.
pub proof fn law_destroy_clears_in_a_tick(grid: Grid, balls: Map<Cell, bool>, c: Cell)
    requires
        balls.dom().finite(),
        tile_at(grid, c) == Tile::Destroy,
        tick(grid, balls).contains_key(c),
    ensures
        tick_end(grid, balls).settled.contains(c),
{
    let t0 = Tick { balls, settled: Set::empty(), spent: Set::empty() };
    lemma_phase_finite(grid, Direction::Up, t0);
    let t1 = phase(grid, Direction::Up, t0);
    lemma_phase_finite(grid, Direction::Right, t1);
    let t2 = phase(grid, Direction::Right, t1);
    lemma_phase_finite(grid, Direction::Left, t2);
    let t3 = phase(grid, Direction::Left, t2);
    law_destroy_clears(grid, Direction::Down, t3, c);
}

/// A ball alone in the world that rests on a destroy tile is gone after one
/// tick, whatever its state, and the world is empty.
pub proof fn law_lone_ball_destroyed(grid: Grid, c: Cell, on: bool)
    requires
        tile_at(grid, c) == Tile::Destroy,
    ensures
        tick(grid, Map::<Cell, bool>::empty().insert(c, on)) == Map::<Cell, bool>::empty(),
{
    let t0 = Tick {
        balls: Map::<Cell, bool>::empty().insert(c, on),
        settled: Set::empty(),
        spent: Set::empty(),
    };
    let done = Tick { balls: Map::<Cell, bool>::empty(), settled: Set::empty(), spent: Set::empty() };
    let dir = Direction::Up;
    let none = Set::new(|d: Cell| mover(grid, dir, t0, d));
    let start = Motion {
        balls: t0.balls.remove_keys(Set::new(|d: Cell| doomed(grid, t0, d))),
        settled: t0.settled,
        failed: Set::empty(),
    };
    assert(doomed(grid, t0, c));
    assert(start.balls =~= Map::<Cell, bool>::empty());
    assert(!none.contains(leader(none, dir)));
    assert(run(grid, dir, start, none) == start);
    let after = phase(grid, dir, t0);
    assert(after.balls =~= done.balls);
    assert(after.spent =~= done.spent);
    assert(after == done);
    assert forall|d: Direction| #[trigger] phase(grid, d, done) == done by {
        lemma_idle_phase(grid, d, done);
    }
}

/// A direction leaves finitely many balls where it found finitely many, and
/// so does a whole tick.
pub proof fn law_balls_stay_finite(grid: Grid, dir: Direction, t: Tick)
    requires
        t.balls.dom().finite(),
    ensures
        phase(grid, dir, t).balls.dom().finite(),
        tick(grid, t.balls).dom().finite(),
{
    lemma_phase_finite(grid, dir, t);
    let t0 = Tick { balls: t.balls, settled: Set::empty(), spent: Set::empty() };
    lemma_phase_finite(grid, Direction::Up, t0);
    let t1 = phase(grid, Direction::Up, t0);
    lemma_phase_finite(grid, Direction::Right, t1);
    let t2 = phase(grid, Direction::Right, t1);
    lemma_phase_finite(grid, Direction::Left, t2);
    let t3 = phase(grid, Direction::Left, t2);
    lemma_phase_finite(grid, Direction::Down, t3);
}

proof fn lemma_phase_finite(grid: Grid, dir: Direction, t: Tick)
    requires
        t.balls.dom().finite(),
    ensures
        phase(grid, dir, t).balls.dom().finite(),
{
    let start = Motion {
        balls: t.balls.remove_keys(Set::new(|c: Cell| doomed(grid, t, c))),
        settled: t.settled,
        failed: Set::empty(),
    };
    assert(start.balls.dom().subset_of(t.balls.dom()));
    vstd::set_lib::lemma_len_subset(start.balls.dom(), t.balls.dom());
    let go = Set::new(|c: Cell| mover(grid, dir, t, c));
    lemma_run_keeps(grid, dir, start, go);
    let end = run(grid, dir, start, go);
    let both = end.balls.dom().union(t.balls.dom());
    vstd::set_lib::lemma_set_union_finite_iff(end.balls.dom(), t.balls.dom());
    assert(phase(grid, dir, t).balls.dom().subset_of(both));
    vstd::set_lib::lemma_len_subset(phase(grid, dir, t).balls.dom(), both);
}

/// A filter never sends a ball that is on and a ball that is off the same
/// way: each goes one way only, and the two ways are opposite.
pub proof fn law_filter_sorts(t: Tile, dir: Direction)
    requires
        t == Tile::FilterR || t == Tile::FilterL || t == Tile::FilterU || t == Tile::FilterD,
    ensures
        !(passes(t, dir, true) && passes(t, dir, false)),
        passes(t, dir, true) <==> passes(t, opposite(dir), false),
        passes(t, dir, true) <==> heading(t, true) == Some(dir),
        passes(t, dir, false) <==> heading(t, false) == Some(dir),
{
}

/// The direction that faces a direction.
pub open spec fn opposite(dir: Direction) -> Direction {
    match dir {
        Direction::Up => Direction::Down,
        Direction::Down => Direction::Up,
        Direction::Left => Direction::Right,
        Direction::Right => Direction::Left,
    }
}

/// The one way in which a mover or a filter sends a ball in the given state.
pub open spec fn heading(t: Tile, on: bool) -> Option<Direction> {
    match t {
        Tile::Up => Some(Direction::Up),
        Tile::Down => Some(Direction::Down),
        Tile::Left => Some(Direction::Left),
        Tile::Right => Some(Direction::Right),
        Tile::FilterR => Some(if on { Direction::Left } else { Direction::Right }),
        Tile::FilterL => Some(if on { Direction::Right } else { Direction::Left }),
        Tile::FilterU => Some(if on { Direction::Down } else { Direction::Up }),
        Tile::FilterD => Some(if on { Direction::Up } else { Direction::Down }),
        _ => None,
    }
}

/// A duplicator makes one copy in a tick: once a direction has found a ball
/// on it and scheduled the copy, no later direction of the tick finds a ball
/// to copy there.
pub proof fn law_copy_once(grid: Grid, dir: Direction, later: Direction, t: Tick, c: Cell)
    requires
        source(grid, dir, t, c),
    ensures
        phase(grid, dir, t).spent.contains(c),
        !source(grid, later, phase(grid, dir, t), c),
        phase(grid, dir, t).balls.contains_key(c),
        phase(grid, dir, t).balls[c] == t.balls[c],
{
}

/// A direction in which no ball is to move, to leave or to be copied changes
/// nothing.
pub proof fn lemma_idle_phase(grid: Grid, dir: Direction, t: Tick)
    requires
        forall|c: Cell| !#[trigger] mover(grid, dir, t, c),
        forall|c: Cell| !#[trigger] doomed(grid, t, c),
        forall|c: Cell| !#[trigger] source(grid, dir, t, c),
    ensures
        phase(grid, dir, t) == t,
{
    let none = Set::new(|c: Cell| mover(grid, dir, t, c));
    let start = Motion {
        balls: t.balls.remove_keys(Set::new(|c: Cell| doomed(grid, t, c))),
        settled: t.settled,
        failed: Set::empty(),
    };
    assert(!none.contains(leader(none, dir)));
    assert(run(grid, dir, start, none) == start);
    assert(start.balls =~= t.balls);
    let after = phase(grid, dir, t);
    assert(after.balls =~= t.balls);
    assert(after.spent =~= t.spent);
}

/// A direction in which one ball only is to move, and none to leave: with a
/// free neighbour that is no block tile the ball moves there, the neighbour
/// becomes settled, and if the ball sat on a duplicator that had not made its
/// copy, the copy is there in its place.
pub proof fn lemma_single_mover_phase(grid: Grid, dir: Direction, t: Tick, c: Cell, n: Cell)
    requires
        forall|d: Cell| #[trigger] mover(grid, dir, t, d) <==> d == c,
        forall|d: Cell| !#[trigger] doomed(grid, t, d),
        step_of(c, dir) == Some(n),
        !t.balls.contains_key(n),
        tile_at(grid, n) != Tile::Block,
    ensures
        phase(grid, dir, t).settled == t.settled.insert(n),
        source(grid, dir, t, c) ==> phase(grid, dir, t).balls == t.balls.insert(n, t.balls[c])
            && phase(grid, dir, t).spent == t.spent.insert(c),
        !source(grid, dir, t, c) ==> phase(grid, dir, t).balls == t.balls.remove(c).insert(
            n,
            t.balls[c],
        ) && phase(grid, dir, t).spent == t.spent,
{
    let go = Set::new(|d: Cell| mover(grid, dir, t, d));
    let start = Motion {
        balls: t.balls.remove_keys(Set::new(|d: Cell| doomed(grid, t, d))),
        settled: t.settled,
        failed: Set::empty(),
    };
    assert(mover(grid, dir, t, c));
    assert(start.balls =~= t.balls);
    assert(go =~= Set::<Cell>::empty().insert(c));
    assert(leads(go, dir, c));
    lemma_leader(go, dir, c);
    let rest = go.remove(c);
    assert(rest =~= Set::<Cell>::empty());
    let moved = resolve(grid, dir, start, c);
    assert(!defers(grid, dir, start, c));
    assert(moved == settle(grid, dir, start, c));
    assert(!rest.contains(leader(rest, dir)));
    assert(run(grid, dir, moved, rest) == moved);
    assert(run(grid, dir, start, go) == moved);
    let after = phase(grid, dir, t);
    assert forall|d: Cell| #[trigger] source(grid, dir, t, d) implies d == c by {
        assert(mover(grid, dir, t, d));
    }
    if source(grid, dir, t, c) {
        assert(after.balls =~= t.balls.insert(n, t.balls[c]));
        assert(after.spent =~= t.spent.insert(c));
    } else {
        assert(after.balls =~= t.balls.remove(c).insert(n, t.balls[c]));
        assert(after.spent =~= t.spent);
    }
}

/// A ball alone in the world, on a mover or a filter, with a neighbour ahead
/// that is no block tile, is on that neighbour after one tick, in the same
/// state, and nothing else holds a ball.
pub proof fn law_lone_ball_moves_one_cell(grid: Grid, c: Cell, on: bool, dir: Direction, n: Cell)
    requires
        heading(tile_at(grid, c), on) == Some(dir),
        step_of(c, dir) == Some(n),
        tile_at(grid, n) != Tile::Block,
    ensures
        tick(grid, Map::<Cell, bool>::empty().insert(c, on)) == Map::<Cell, bool>::empty().insert(n, on),
{
    let t0 = Tick {
        balls: Map::<Cell, bool>::empty().insert(c, on),
        settled: Set::empty(),
        spent: Set::empty(),
    };
    let done = Tick {
        balls: Map::<Cell, bool>::empty().insert(n, on),
        settled: Set::<Cell>::empty().insert(n),
        spent: Set::empty(),
    };
    let tile = tile_at(grid, c);
    assert forall|d: Direction| d != dir implies #[trigger] phase(grid, d, t0) == t0 by {
        assert(!passes(tile, d, on));
        lemma_idle_phase(grid, d, t0);
    }
    assert forall|d: Direction| #[trigger] phase(grid, d, done) == done by {
        lemma_idle_phase(grid, d, done);
    }
    assert forall|d: Cell| #[trigger] mover(grid, dir, t0, d) <==> d == c by {}
    lemma_single_mover_phase(grid, dir, t0, c, n);
    assert(t0.balls.remove(c).insert(n, on) =~= done.balls);
    assert(phase(grid, dir, t0) == done);
}

/// A ball alone in the world on a duplicator, with neighbours on both sides
/// along the duplicator's axis that are no block tiles, is on both
/// neighbours after one tick, in its state, and nowhere else: the tick has
/// made exactly one new ball. `first` is the direction of the axis that a
/// tick works through first.
pub proof fn law_duplicator_copies_once(grid: Grid, c: Cell, on: bool, first: Direction, a: Cell, b: Cell)
    requires
        (tile_at(grid, c) == Tile::DuplicateH && first == Direction::Right) || (tile_at(grid, c)
            == Tile::DuplicateV && first == Direction::Up),
        step_of(c, first) == Some(a),
        step_of(c, opposite(first)) == Some(b),
        tile_at(grid, a) != Tile::Block,
        tile_at(grid, b) != Tile::Block,
    ensures
        a != b,
        tick(grid, Map::<Cell, bool>::empty().insert(c, on)) == Map::<Cell, bool>::empty().insert(
            a,
            on,
        ).insert(b, on),
{
    let second = opposite(first);
    let t0 = Tick {
        balls: Map::<Cell, bool>::empty().insert(c, on),
        settled: Set::empty(),
        spent: Set::empty(),
    };
    let t1 = Tick {
        balls: Map::<Cell, bool>::empty().insert(c, on).insert(a, on),
        settled: Set::<Cell>::empty().insert(a),
        spent: Set::<Cell>::empty().insert(c),
    };
    let t2 = Tick {
        balls: Map::<Cell, bool>::empty().insert(a, on).insert(b, on),
        settled: Set::<Cell>::empty().insert(a).insert(b),
        spent: Set::<Cell>::empty().insert(c),
    };
    let tile = tile_at(grid, c);
    assert forall|d: Direction| d != first && d != second implies #[trigger] phase(grid, d, t0) == t0 by {
        assert(!passes(tile, d, on));
        lemma_idle_phase(grid, d, t0);
    }
    assert forall|d: Direction| d != first && d != second implies #[trigger] phase(grid, d, t1) == t1 by {
        assert(!passes(tile, d, on));
        lemma_idle_phase(grid, d, t1);
    }
    assert forall|d: Direction| #[trigger] phase(grid, d, t2) == t2 by {
        lemma_idle_phase(grid, d, t2);
    }
    assert forall|d: Cell| #[trigger] mover(grid, first, t0, d) <==> d == c by {}
    assert(source(grid, first, t0, c));
    lemma_single_mover_phase(grid, first, t0, c, a);
    assert(phase(grid, first, t0).spent =~= t1.spent);
    assert(phase(grid, first, t0) == t1);
    assert forall|d: Cell| #[trigger] mover(grid, second, t1, d) <==> d == c by {}
    assert(!source(grid, second, t1, c));
    lemma_single_mover_phase(grid, second, t1, c, b);
    assert(t1.balls.remove(c).insert(b, on) =~= t2.balls);
    assert(t1.settled.insert(b) =~= t2.settled);
    assert(phase(grid, second, t1) == t2);
}

/// A ball that waits for the ball on a hold tile ahead of it, which in turn
/// has a free neighbour that is no block tile: both move one cell on, each
/// in its state, and no ball is lost.
pub proof fn law_hold_passes_on(grid: Grid, dir: Direction, m: Motion, p: Cell, h: Cell, k: Cell)
    requires
        m.balls.contains_key(p),
        step_of(p, dir) == Some(h),
        m.balls.contains_key(h),
        tile_at(grid, h) == Tile::Hold,
        !m.failed.contains(h),
        step_of(h, dir) == Some(k),
        !m.balls.contains_key(k),
        tile_at(grid, k) != Tile::Block,
    ensures
        resolve(grid, dir, m, p).balls == m.balls.remove(p).insert(k, m.balls[h]).insert(
            h,
            m.balls[p],
        ),
        resolve(grid, dir, m, p).settled == m.settled.insert(k).insert(h),
        resolve(grid, dir, m, p).failed == m.failed,
{
    assert(defers(grid, dir, m, p));
    assert(!defers(grid, dir, m, h));
    let mid = resolve(grid, dir, m, h);
    assert(mid == settle(grid, dir, m, h));
    let end = settle(grid, dir, mid, p);
    assert(resolve(grid, dir, m, p) == end);
    assert(end.balls =~= m.balls.remove(p).insert(k, m.balls[h]).insert(h, m.balls[p]));
}

/// The balls after a number of ticks.
pub open spec fn ticks(grid: Grid, balls: Map<Cell, bool>, count: nat) -> Map<Cell, bool>
    decreases count,
{
    if count == 0 {
        balls
    } else {
        ticks(grid, tick(grid, balls), (count - 1) as nat)
    }
}

/// The cell that lies `k` cells to the right of a cell.
pub open spec fn right_of(c: Cell, k: int) -> Cell {
    ((c.0 + k) as i32, c.1)
}

/// A ball alone in the world on a row of right tiles moves one cell to the
/// right in every tick: after `count` ticks over `count` right tiles it is
/// `count` cells further right, in the same state, and still alone.
pub proof fn law_straight_line(grid: Grid, c: Cell, on: bool, count: nat)
    requires
        c.0 + count <= i32::MAX,
        forall|k: int| 0 <= k < count ==> tile_at(grid, #[trigger] right_of(c, k)) == Tile::Right,
        tile_at(grid, right_of(c, count as int)) != Tile::Block,
    ensures
        ticks(grid, Map::<Cell, bool>::empty().insert(c, on), count) == Map::<Cell, bool>::empty().insert(
            right_of(c, count as int),
            on,
        ),
    decreases count,
{
    if count > 0 {
        let n = right_of(c, 1);
        assert(right_of(c, 0) == c);
        assert(tile_at(grid, right_of(c, 0)) == Tile::Right);
        if count > 1 {
            assert(tile_at(grid, right_of(c, 1)) == Tile::Right);
        }
        law_lone_ball_moves_one_cell(grid, c, on, Direction::Right, n);
        assert forall|k: int| 0 <= k < count - 1 implies tile_at(grid, #[trigger] right_of(n, k))
            == Tile::Right by {
            assert(right_of(n, k) == right_of(c, k + 1));
        }
        assert(right_of(n, count - 1) == right_of(c, count as int));
        law_straight_line(grid, n, on, (count - 1) as nat);
    }
}

} // verus!
