use crate::ball::Direction;
use crate::cells::Cell;
use crate::store::{tile_at, Grid};
use crate::tiles::Tile;
use vstd::prelude::*;

verus! {

/// The balls while one direction is being worked through: where they are,
/// which cells a ball has moved into during this tick, and which balls on a
/// hold tile have been found stuck.
pub struct Motion {
    pub balls: Map<Cell, bool>,
    pub settled: Set<Cell>,
    pub failed: Set<Cell>,
}

/// The balls between two directions of one tick: where they are, which cells
/// a ball has moved into, and which duplicators have made their copy.
pub struct Tick {
    pub balls: Map<Cell, bool>,
    pub settled: Set<Cell>,
    pub spent: Set<Cell>,
}

/// The neighbour of a cell in a direction; the last cell of the world has
/// none.
pub open spec fn step_of(c: Cell, dir: Direction) -> Option<Cell> {
    match dir {
        Direction::Up => if c.1 < i32::MAX {
            Some((c.0, (c.1 + 1) as i32))
        } else {
            None
        },
        Direction::Down => if c.1 > i32::MIN {
            Some((c.0, (c.1 - 1) as i32))
        } else {
            None
        },
        Direction::Left => if c.0 > i32::MIN {
            Some(((c.0 - 1) as i32, c.1))
        } else {
            None
        },
        Direction::Right => if c.0 < i32::MAX {
            Some(((c.0 + 1) as i32, c.1))
        } else {
            None
        },
    }
}

/// How many cells lie ahead of a cell in a direction.
pub open spec fn room(c: Cell, dir: Direction) -> nat {
    match dir {
        Direction::Up => (i32::MAX - c.1) as nat,
        Direction::Down => (c.1 - i32::MIN) as nat,
        Direction::Left => (c.0 - i32::MIN) as nat,
        Direction::Right => (i32::MAX - c.0) as nat,
    }
}

/// Whether a ball in the given state, on the given tile, is sent off in the
/// given direction. A mover sends every ball its own way. A filter sends a
/// ball that is off the way it is named after and a ball that is on the
/// opposite way. A duplicator sends every ball both ways along its axis.
pub open spec fn passes(t: Tile, dir: Direction, on: bool) -> bool {
    match t {
        Tile::Up => dir == Direction::Up,
        Tile::Down => dir == Direction::Down,
        Tile::Left => dir == Direction::Left,
        Tile::Right => dir == Direction::Right,
        Tile::FilterR => (dir == Direction::Right && !on) || (dir == Direction::Left && on),
        Tile::FilterL => (dir == Direction::Left && !on) || (dir == Direction::Right && on),
        Tile::FilterU => (dir == Direction::Up && !on) || (dir == Direction::Down && on),
        Tile::FilterD => (dir == Direction::Down && !on) || (dir == Direction::Up && on),
        Tile::DuplicateH => dir == Direction::Left || dir == Direction::Right,
        Tile::DuplicateV => dir == Direction::Up || dir == Direction::Down,
        Tile::Hold => false,
        Tile::Block => false,
        Tile::Destroy => false,
        Tile::Empty => false,
    }
}

/// Whether the tile is a duplicator whose axis holds the direction.
pub open spec fn copies(t: Tile, dir: Direction) -> bool {
    match t {
        Tile::DuplicateH => dir == Direction::Left || dir == Direction::Right,
        Tile::DuplicateV => dir == Direction::Up || dir == Direction::Down,
        _ => false,
    }
}

/// A ball that has not moved in this tick and that its tile sends off in the
/// direction.
pub open spec fn mover(grid: Grid, dir: Direction, t: Tick, c: Cell) -> bool {
    t.balls.contains_key(c) && !t.settled.contains(c) && passes(tile_at(grid, c), dir, t.balls[c])
}

/// A ball that has not moved in this tick and sits on a destroy tile.
pub open spec fn doomed(grid: Grid, t: Tick, c: Cell) -> bool {
    t.balls.contains_key(c) && !t.settled.contains(c) && tile_at(grid, c) == Tile::Destroy
}

/// A ball that has not moved in this tick and sits on a duplicator along the
/// direction that has not made its copy yet.
pub open spec fn source(grid: Grid, dir: Direction, t: Tick, c: Cell) -> bool {
    t.balls.contains_key(c) && !t.settled.contains(c) && copies(tile_at(grid, c), dir)
        && !t.spent.contains(c)
}

/// The place of a cell in the order of a direction: further along the
/// direction is greater; among cells equally far along, the other coordinate
/// decides.
pub open spec fn rank(c: Cell, dir: Direction) -> int {
    match dir {
        Direction::Up => c.1 * 0x1_0000_0000 + c.0,
        Direction::Down => -c.1 * 0x1_0000_0000 + c.0,
        Direction::Left => -c.0 * 0x1_0000_0000 + c.1,
        Direction::Right => c.0 * 0x1_0000_0000 + c.1,
    }
}

/// One attempt to move the ball at `p`. Into a free neighbour that is no
/// block tile it moves, and the neighbour counts as settled. Before an
/// occupied neighbour it stays, and is recorded as stuck if it sits on a hold
/// tile. Where there is no ball, or no neighbour, nothing changes.
pub open spec fn settle(grid: Grid, dir: Direction, m: Motion, p: Cell) -> Motion {
    if !m.balls.contains_key(p) {
        m
    } else {
        match step_of(p, dir) {
            None => m,
            Some(n) => if !m.balls.contains_key(n) {
                if tile_at(grid, n) == Tile::Block {
                    m
                } else {
                    Motion {
                        balls: m.balls.remove(p).insert(n, m.balls[p]),
                        settled: m.settled.insert(n),
                        failed: m.failed,
                    }
                }
            } else if tile_at(grid, p) == Tile::Hold {
                Motion { balls: m.balls, settled: m.settled, failed: m.failed.insert(p) }
            } else {
                m
            },
        }
    }
}

/// Whether the ball at `p` waits for its neighbour: the neighbour is an
/// occupied hold tile whose ball has not been found stuck.
pub open spec fn defers(grid: Grid, dir: Direction, m: Motion, p: Cell) -> bool {
    m.balls.contains_key(p) && match step_of(p, dir) {
        None => false,
        Some(n) => m.balls.contains_key(n) && tile_at(grid, n) == Tile::Hold && !m.failed.contains(
            n,
        ),
    }
}

/// Resolving the ball at `p`: a ball that waits for its neighbour has the
/// neighbour resolved first and is then attempted once; any other ball is
/// attempted at once.
pub open spec fn resolve(grid: Grid, dir: Direction, m: Motion, p: Cell) -> Motion
    decreases room(p, dir),
{
    if defers(grid, dir, m, p) {
        settle(grid, dir, resolve(grid, dir, m, step_of(p, dir)->0), p)
    } else {
        settle(grid, dir, m, p)
    }
}

/// Whether `p` is the cell of `todo` that is furthest along the direction.
pub open spec fn leads(todo: Set<Cell>, dir: Direction, p: Cell) -> bool {
    todo.contains(p) && forall|q: Cell| todo.contains(q) ==> rank(q, dir) <= rank(p, dir)
}

/// The cell of `todo` that is furthest along the direction.
pub open spec fn leader(todo: Set<Cell>, dir: Direction) -> Cell {
    choose|p: Cell| leads(todo, dir, p)
}

/// Resolving every cell of `todo`, the leader first.
pub open spec fn run(grid: Grid, dir: Direction, m: Motion, todo: Set<Cell>) -> Motion
    decreases todo.len(),
{
    let p = leader(todo, dir);
    if todo.finite() && todo.contains(p) {
        run(grid, dir, resolve(grid, dir, m, p), todo.remove(p))
    } else {
        m
    }
}

/// One direction of a tick. Balls on destroy tiles leave; the movers are
/// resolved, the leader first; then every duplicator that had a ball and had
/// not made its copy holds a ball in the state that its ball had, and has
/// made its copy. Balls that moved earlier in the tick take no part.
pub open spec fn phase(grid: Grid, dir: Direction, t: Tick) -> Tick {
    let start = Motion {
        balls: t.balls.remove_keys(Set::new(|c: Cell| doomed(grid, t, c))),
        settled: t.settled,
        failed: Set::empty(),
    };
    let end = run(grid, dir, start, Set::new(|c: Cell| mover(grid, dir, t, c)));
    Tick {
        balls: Map::new(
            |c: Cell| source(grid, dir, t, c) || end.balls.contains_key(c),
            |c: Cell|
                if source(grid, dir, t, c) {
                    t.balls[c]
                } else {
                    end.balls[c]
                },
        ),
        settled: end.settled,
        spent: Set::new(|c: Cell| t.spent.contains(c) || source(grid, dir, t, c)),
    }
}

/// The state at the end of a whole tick: the four directions in their fixed
/// order, starting with nothing settled and no duplicator spent.
pub open spec fn tick_end(grid: Grid, balls: Map<Cell, bool>) -> Tick {
    let t0 = Tick { balls, settled: Set::empty(), spent: Set::empty() };
    let t1 = phase(grid, Direction::Up, t0);
    let t2 = phase(grid, Direction::Right, t1);
    let t3 = phase(grid, Direction::Left, t2);
    phase(grid, Direction::Down, t3)
}

/// The balls after a whole tick. What was settled and spent during the tick
/// is forgotten with its end.
pub open spec fn tick(grid: Grid, balls: Map<Cell, bool>) -> Map<Cell, bool> {
    tick_end(grid, balls).balls
}

/// Whether a list of cells is sorted so that the cell furthest along the
/// direction comes last.
pub open spec fn ascending(s: Seq<Cell>, dir: Direction) -> bool {
    forall|i: int, j: int| 0 <= i < j < s.len() ==> rank(s[i], dir) <= rank(s[j], dir)
}

/// No two cells have the same place in the order of a direction.
pub proof fn lemma_rank_injective(a: Cell, b: Cell, dir: Direction)
    requires
        rank(a, dir) == rank(b, dir),
    ensures
        a == b,
{
}

/// A finite set of cells that is not empty has a cell that leads.
pub proof fn lemma_some_cell_leads(todo: Set<Cell>, dir: Direction)
    requires
        todo.finite(),
        todo.len() > 0,
    ensures
        leads(todo, dir, leader(todo, dir)),
    decreases todo.len(),
{
    let x = todo.choose();
    let rest = todo.remove(x);
    if rest.len() == 0 {
        assert forall|q: Cell| todo.contains(q) implies q == x by {
            if q != x {
                assert(rest.contains(q));
            }
        }
        assert(leads(todo, dir, x));
    } else {
        lemma_some_cell_leads(rest, dir);
        let y = leader(rest, dir);
        let best = if rank(x, dir) > rank(y, dir) {
            x
        } else {
            y
        };
        assert forall|q: Cell| todo.contains(q) implies rank(q, dir) <= rank(best, dir) by {
            if q != x {
                assert(rest.contains(q));
            }
        }
        assert(leads(todo, dir, best));
    }
}

/// A cell that leads is the leader.
pub proof fn lemma_leader(todo: Set<Cell>, dir: Direction, p: Cell)
    requires
        leads(todo, dir, p),
    ensures
        leader(todo, dir) == p,
{
    let l = leader(todo, dir);
    assert(leads(todo, dir, l));
    lemma_rank_injective(l, p, dir);
}

/// The last cell of a sorted list without repetitions leads its cells, and
/// the cells before it are the rest.
pub proof fn lemma_last_leads(work: Seq<Cell>, dir: Direction)
    requires
        work.len() > 0,
        work.no_duplicates(),
        ascending(work, dir),
    ensures
        work.to_set().finite(),
        leads(work.to_set(), dir, work.last()),
        work.drop_last().to_set() == work.to_set().remove(work.last()),
        work.drop_last().no_duplicates(),
        ascending(work.drop_last(), dir),
{
    let todo = work.to_set();
    let p = work.last();
    let rest = work.drop_last();
    vstd::seq_lib::seq_to_set_is_finite(work);
    assert(work[work.len() - 1] == p);
    assert(todo.contains(p));
    assert forall|q: Cell| todo.contains(q) implies rank(q, dir) <= rank(p, dir) by {
        let i = choose|i: int| 0 <= i < work.len() && work[i] == q;
        if i < work.len() - 1 {
            assert(rank(work[i], dir) <= rank(work[work.len() - 1], dir));
        }
    }
    assert forall|q: Cell| todo.remove(p).contains(q) == rest.to_set().contains(q) by {
        if todo.remove(p).contains(q) {
            let i = choose|i: int| 0 <= i < work.len() && work[i] == q;
            assert(rest[i] == q);
        }
        if rest.to_set().contains(q) {
            let i = choose|i: int| 0 <= i < rest.len() && rest[i] == q;
            assert(work[i] == q);
        }
    }
    assert(rest.to_set() =~= todo.remove(p));
    assert forall|i: int, j: int| 0 <= i < j < rest.len() implies rank(rest[i], dir) <= rank(
        rest[j],
        dir,
    ) by {
        assert(rank(work[i], dir) <= rank(work[j], dir));
    }
}

} // verus!
