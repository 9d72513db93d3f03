use crate::ball::Direction;
use crate::cells::Cell;
use crate::engine::{
    defers, doomed, leader, lemma_some_cell_leads, mover, phase, rank, resolve, room, run, source,
    step_of, Motion, Tick,
};
use crate::store::{tile_at, Grid};
use crate::tiles::Tile;
use vstd::prelude::*;

verus! {

/// How far along a direction a cell lies.
pub open spec fn pos(c: Cell, dir: Direction) -> int {
    match dir {
        Direction::Up => c.1 as int,
        Direction::Down => -(c.1 as int),
        Direction::Left => -(c.0 as int),
        Direction::Right => c.0 as int,
    }
}

/// The line along a direction on which a cell lies.
pub open spec fn lane(c: Cell, dir: Direction) -> int {
    match dir {
        Direction::Up => c.0 as int,
        Direction::Down => c.0 as int,
        Direction::Left => c.1 as int,
        Direction::Right => c.1 as int,
    }
}

/// The cell from which a step in the direction leads to `f`, if there is one.
pub open spec fn back_of(f: Cell, dir: Direction) -> Option<Cell> {
    match dir {
        Direction::Up => step_of(f, Direction::Down),
        Direction::Down => step_of(f, Direction::Up),
        Direction::Left => step_of(f, Direction::Right),
        Direction::Right => step_of(f, Direction::Left),
    }
}

/// Whether a ball is at a cell, and whether the cell is settled.
pub open spec fn marks(m: Motion, d: Cell) -> (bool, bool) {
    (m.balls.contains_key(d), m.settled.contains(d))
}

/// Lane and place fix a cell; a step goes one place on in the same lane; the
/// order of a direction goes by place first; and `back_of` undoes a step.
pub proof fn lemma_lanes(a: Cell, b: Cell, dir: Direction)
    ensures
        lane(a, dir) == lane(b, dir) && pos(a, dir) == pos(b, dir) ==> a == b,
        step_of(a, dir) == Some(b) ==> lane(b, dir) == lane(a, dir) && pos(b, dir) == pos(a, dir) + 1,
        step_of(a, dir) == Some(b) <==> back_of(b, dir) == Some(a),
        lane(a, dir) == lane(b, dir) && rank(a, dir) <= rank(b, dir) ==> pos(a, dir) <= pos(b, dir),
{
}

/// Resolving a ball changes nothing on other lanes, nor behind the ball.
pub proof fn lemma_resolve_keeps_behind(grid: Grid, dir: Direction, m: Motion, c: Cell, d: Cell)
    requires
        lane(d, dir) != lane(c, dir) || pos(d, dir) < pos(c, dir),
    ensures
        marks(resolve(grid, dir, m, c), d) == marks(m, d),
    decreases room(c, dir),
{
    if step_of(c, dir) is Some {
        let n = step_of(c, dir)->0;
        lemma_lanes(c, n, dir);
        if defers(grid, dir, m, c) {
            lemma_resolve_keeps_behind(grid, dir, m, n, d);
        }
    }
}

/// Resolving a ball changes nothing beyond a cell ahead of it whose tile is no
/// hold tile: no ball waits for that cell's ball.
pub proof fn lemma_resolve_stops_at(grid: Grid, dir: Direction, m: Motion, c: Cell, s: Cell, d: Cell)
    requires
        lane(s, dir) == lane(c, dir),
        pos(c, dir) < pos(s, dir),
        tile_at(grid, s) != Tile::Hold,
        lane(d, dir) == lane(s, dir),
        pos(d, dir) > pos(s, dir),
    ensures
        marks(resolve(grid, dir, m, c), d) == marks(m, d),
    decreases room(c, dir),
{
    if step_of(c, dir) is Some {
        let n = step_of(c, dir)->0;
        lemma_lanes(c, n, dir);
        lemma_lanes(n, s, dir);
        if defers(grid, dir, m, c) {
            lemma_resolve_stops_at(grid, dir, m, n, s, d);
        }
    }
}

/// Resolving a ball puts no ball on a free cell behind which no ball stands.
pub proof fn lemma_resolve_fills_from_behind(grid: Grid, dir: Direction, m: Motion, c: Cell, f: Cell)
    requires
        !m.balls.contains_key(f),
        back_of(f, dir) matches Some(e) ==> !m.balls.contains_key(e),
    ensures
        marks(resolve(grid, dir, m, c), f) == marks(m, f),
    decreases room(c, dir),
{
    if step_of(c, dir) is Some {
        let n = step_of(c, dir)->0;
        lemma_lanes(c, n, dir);
        lemma_lanes(c, f, dir);
        if defers(grid, dir, m, c) {
            lemma_resolve_fills_from_behind(grid, dir, m, n, f);
        }
    }
}

/// Whether the cell `e` is out of reach of every ball still to be resolved:
/// if it holds a ball, a cell that is no hold tile lies behind it, and every
/// ball of its lane that is still to be resolved lies behind that cell.
pub open spec fn guarded(grid: Grid, dir: Direction, m: Motion, todo: Set<Cell>, e: Cell) -> bool {
    m.balls.contains_key(e) ==> exists|s: Cell|
        fences(grid, dir, todo, e, s)
}

/// Whether `s` shields `e` from the balls of `todo`.
pub open spec fn fences(grid: Grid, dir: Direction, todo: Set<Cell>, e: Cell, s: Cell) -> bool {
    &&& lane(s, dir) == lane(e, dir)
    &&& pos(s, dir) < pos(e, dir)
    &&& tile_at(grid, s) != Tile::Hold
    &&& forall|c: Cell|
        #[trigger] todo.contains(c) && lane(c, dir) == lane(e, dir) && pos(c, dir) < pos(e, dir)
            ==> pos(c, dir) < pos(s, dir)
}

/// Resolving a work list of balls that stand on no hold tile puts no ball on
/// a free cell `f` whose neighbour behind, `e`, is out of their reach.
pub proof fn lemma_run_fills_from_behind(
    grid: Grid,
    dir: Direction,
    m: Motion,
    todo: Set<Cell>,
    e: Cell,
    f: Cell,
)
    requires
        step_of(e, dir) == Some(f),
        !m.balls.contains_key(f),
        guarded(grid, dir, m, todo, e),
        !todo.contains(e),
        forall|c: Cell| #[trigger] todo.contains(c) ==> tile_at(grid, c) != Tile::Hold,
    ensures
        marks(run(grid, dir, m, todo), f) == marks(m, f),
    decreases todo.len(),
{
    let c = leader(todo, dir);
    if todo.finite() && todo.contains(c) {
        let after = resolve(grid, dir, m, c);
        let rest = todo.remove(c);
        lemma_lanes(e, f, dir);
        lemma_lanes(c, e, dir);
        lemma_lanes(c, f, dir);
        if !m.balls.contains_key(c) {
            assert(after == m);
            if m.balls.contains_key(e) {
                let s = choose|s: Cell| fences(grid, dir, todo, e, s);
                assert(fences(grid, dir, rest, e, s));
            }
        } else if !m.balls.contains_key(e) {
            lemma_resolve_fills_from_behind(grid, dir, m, c, f);
            if after.balls.contains_key(e) {
                if lane(e, dir) != lane(c, dir) || pos(e, dir) < pos(c, dir) {
                    lemma_resolve_keeps_behind(grid, dir, m, c, e);
                }
                lemma_some_cell_leads(todo, dir);
                assert forall|b: Cell|
                    #[trigger] rest.contains(b) && lane(b, dir) == lane(e, dir) && pos(b, dir) < pos(
                        e,
                        dir,
                    ) implies pos(b, dir) < pos(c, dir) by {
                    assert(todo.contains(b));
                    lemma_lanes(b, c, dir);
                }
                assert(fences(grid, dir, rest, e, c));
            }
        } else {
            let s = choose|s: Cell| fences(grid, dir, todo, e, s);
            assert(fences(grid, dir, rest, e, s));
            if lane(c, dir) != lane(e, dir) {
                lemma_resolve_keeps_behind(grid, dir, m, c, e);
                lemma_resolve_keeps_behind(grid, dir, m, c, f);
            } else if pos(c, dir) < pos(e, dir) {
                assert(pos(c, dir) < pos(s, dir));
                lemma_resolve_stops_at(grid, dir, m, c, s, e);
                lemma_resolve_stops_at(grid, dir, m, c, s, f);
            } else {
                lemma_resolve_keeps_behind(grid, dir, m, c, e);
                lemma_resolve_keeps_behind(grid, dir, m, c, f);
            }
        }
        lemma_run_fills_from_behind(grid, dir, after, rest, e, f);
    }
}

/// Resolving a work list puts no ball on a free cell that no step leads to.
pub proof fn lemma_run_fills_no_first_cell(grid: Grid, dir: Direction, m: Motion, todo: Set<Cell>, f: Cell)
    requires
        back_of(f, dir) is None,
        !m.balls.contains_key(f),
    ensures
        marks(run(grid, dir, m, todo), f) == marks(m, f),
    decreases todo.len(),
{
    let c = leader(todo, dir);
    if todo.finite() && todo.contains(c) {
        lemma_resolve_fills_from_behind(grid, dir, m, c, f);
        lemma_run_fills_no_first_cell(grid, dir, resolve(grid, dir, m, c), todo.remove(c), f);
    }
}

/// No ball comes from nowhere: a cell that holds no ball when a direction is
/// begun, or only one that a destroy tile takes, and behind which no ball
/// stands, holds no ball when the direction is done, and is no more settled
/// than it was.
pub proof fn law_no_ball_from_nowhere(grid: Grid, dir: Direction, t: Tick, f: Cell)
    requires
        !t.balls.contains_key(f) || doomed(grid, t, f),
        back_of(f, dir) matches Some(e) ==> !t.balls.contains_key(e),
    ensures
        !phase(grid, dir, t).balls.contains_key(f),
        phase(grid, dir, t).settled.contains(f) == t.settled.contains(f),
{
    let start = Motion {
        balls: t.balls.remove_keys(Set::new(|c: Cell| doomed(grid, t, c))),
        settled: t.settled,
        failed: Set::empty(),
    };
    let go = Set::new(|c: Cell| mover(grid, dir, t, c));
    assert(!start.balls.contains_key(f));
    assert(!source(grid, dir, t, f));
    match back_of(f, dir) {
        Some(e) => {
            lemma_lanes(e, f, dir);
            assert(!start.balls.contains_key(e));
            lemma_run_fills_from_behind(grid, dir, start, go, e, f);
        },
        None => {
            lemma_run_fills_no_first_cell(grid, dir, start, go, f);
        },
    }
}

/// A ball that a direction finds on a destroy tile, not having moved in this
/// tick, leaves its cell empty if no ball stands behind it, whatever the
/// direction. It is taken away, not moved on: the cell ahead of it, if it
/// held no ball, holds none afterwards and is no more settled than before.
pub proof fn law_destroy_empties_the_cell(grid: Grid, dir: Direction, t: Tick, p: Cell)
    requires
        doomed(grid, t, p),
        back_of(p, dir) matches Some(e) ==> !t.balls.contains_key(e),
    ensures
        !phase(grid, dir, t).balls.contains_key(p),
        phase(grid, dir, t).settled.contains(p) == t.settled.contains(p),
        step_of(p, dir) matches Some(n) ==> (!t.balls.contains_key(n) ==> !phase(
            grid,
            dir,
            t,
        ).balls.contains_key(n) && phase(grid, dir, t).settled.contains(n) == t.settled.contains(n)),
{
    law_no_ball_from_nowhere(grid, dir, t, p);
    match step_of(p, dir) {
        Some(n) => {
            lemma_lanes(p, n, dir);
            if !t.balls.contains_key(n) {
                let start = Motion {
                    balls: t.balls.remove_keys(Set::new(|c: Cell| doomed(grid, t, c))),
                    settled: t.settled,
                    failed: Set::empty(),
                };
                let go = Set::new(|c: Cell| mover(grid, dir, t, c));
                assert(!start.balls.contains_key(p));
                assert(!source(grid, dir, t, n));
                lemma_run_fills_from_behind(grid, dir, start, go, p, n);
            }
        },
        None => {},
    }
}

} // verus!
