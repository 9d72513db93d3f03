use crate::ball::Direction;
use crate::cells::{Cell, CellMap, CellSet};
use crate::chunk::Chunk;
use crate::engine::{
    ascending, copies, defers, doomed, lemma_last_leads, lemma_leader, mover, passes, phase, rank,
    resolve, room, run, settle, source, step_of, tick, Motion, Tick,
};
use crate::store::{codes, read_tile};
use crate::tiles::Tile;
use vstd::prelude::*;

verus! {

/// The neighbour of a cell in a direction, if the world has one.
pub fn step_cell(p: Cell, dir: Direction) -> (n: Option<Cell>)
    ensures
        n == step_of(p, dir),
{
    match dir {
        Direction::Up => if p.1 < i32::MAX {
            Some((p.0, p.1 + 1))
        } else {
            None
        },
        Direction::Down => if p.1 > i32::MIN {
            Some((p.0, p.1 - 1))
        } else {
            None
        },
        Direction::Left => if p.0 > i32::MIN {
            Some((p.0 - 1, p.1))
        } else {
            None
        },
        Direction::Right => if p.0 < i32::MAX {
            Some((p.0 + 1, p.1))
        } else {
            None
        },
    }
}

/// Whether a tile sends a ball in the given state off in a direction.
pub fn tile_passes(t: Tile, dir: Direction, on: bool) -> (b: bool)
    ensures
        b == passes(t, dir, on),
{
    match t {
        Tile::Up => dir == Direction::Up,
        Tile::Down => dir == Direction::Down,
        Tile::Left => dir == Direction::Left,
        Tile::Right => dir == Direction::Right,
        Tile::FilterR => (dir == Direction::Right && !on) || (dir == Direction::Left && on),
        Tile::FilterL => (dir == Direction::Left && !on) || (dir == Direction::Right && on),
        Tile::FilterU => (dir == Direction::Up && !on) || (dir == Direction::Down && on),
        Tile::FilterD => (dir == Direction::Down && !on) || (dir == Direction::Up && on),
        Tile::DuplicateH => dir == Direction::Left || dir == Direction::Right,
        Tile::DuplicateV => dir == Direction::Up || dir == Direction::Down,
        _ => false,
    }
}

/// Whether a tile is a duplicator along a direction.
pub fn tile_copies(t: Tile, dir: Direction) -> (b: bool)
    ensures
        b == copies(t, dir),
{
    match t {
        Tile::DuplicateH => dir == Direction::Left || dir == Direction::Right,
        Tile::DuplicateV => dir == Direction::Up || dir == Direction::Down,
        _ => false,
    }
}

fn rank_of(c: Cell, dir: Direction) -> (r: i128)
    ensures
        r == rank(c, dir),
{
    let x: i128 = c.0 as i128;
    let y: i128 = c.1 as i128;
    match dir {
        Direction::Up => y * 0x1_0000_0000 + x,
        Direction::Down => -y * 0x1_0000_0000 + x,
        Direction::Left => -x * 0x1_0000_0000 + y,
        Direction::Right => x * 0x1_0000_0000 + y,
    }
}

/// Sorts cells so that the one furthest along the direction comes last.
pub fn order(dir: Direction, cells: Vec<Cell>) -> (out: Vec<Cell>)
    requires
        cells@.no_duplicates(),
    ensures
        out@.no_duplicates(),
        out@.to_set() == cells@.to_set(),
        ascending(out@, dir),
{
    let mut out: Vec<Cell> = Vec::new();
    let mut i: usize = 0;
    while i < cells.len()
        invariant
            i <= cells.len(),
            cells@.no_duplicates(),
            out@.no_duplicates(),
            forall|c: Cell| out@.contains(c) <==> exists|k: int| 0 <= k < i && cells@[k] == c,
            ascending(out@, dir),
        decreases cells.len() - i,
    {
        let x = cells[i];
        let r = rank_of(x, dir);
        let mut j: usize = 0;
        while j < out.len() && rank_of(out[j], dir) <= r
            invariant
                j <= out.len(),
                r == rank(x, dir),
                forall|k: int| 0 <= k < j ==> rank(out@[k], dir) <= r,
            decreases out.len() - j,
        {
            j += 1;
        }
        let ghost before = out@;
        out.insert(j, x);
        proof {
            before.insert_ensures(j as int, x);
            assert(!before.contains(x));
            assert forall|a: int, b: int| 0 <= a < out@.len() && 0 <= b < out@.len() && a != b implies out@[a] != out@[b] by {
                let a0 = if a < j { a } else { a - 1 };
                let b0 = if b < j { b } else { b - 1 };
                if a != j && b != j {
                    assert(before[a0] != before[b0]);
                } else if a == j {
                    assert(before.contains(before[b0]));
                } else {
                    assert(before.contains(before[a0]));
                }
            }
            assert forall|c: Cell| out@.contains(c) <==> exists|k: int| 0 <= k < i + 1 && cells@[k] == c by {
                if out@.contains(c) {
                    let a = choose|a: int| 0 <= a < out@.len() && out@[a] == c;
                    if a == j {
                        assert(cells@[i as int] == c);
                    } else {
                        let a0 = if a < j { a } else { a - 1 };
                        assert(before.contains(before[a0]));
                    }
                }
                if exists|k: int| 0 <= k < i + 1 && cells@[k] == c {
                    let k = choose|k: int| 0 <= k < i + 1 && cells@[k] == c;
                    if k == i {
                        assert(out@[j as int] == c);
                    } else {
                        assert(before.contains(c));
                        let a0 = choose|a0: int| 0 <= a0 < before.len() && before[a0] == c;
                        let a = if a0 < j { a0 } else { a0 + 1 };
                        assert(out@[a] == c);
                    }
                }
            }
            assert forall|a: int, b: int| 0 <= a < b < out@.len() implies rank(out@[a], dir) <= rank(out@[b], dir) by {
                let a0 = if a < j { a } else { a - 1 };
                let b0 = if b < j { b } else { b - 1 };
                if a != j && b != j {
                    assert(rank(before[a0], dir) <= rank(before[b0], dir));
                } else if a == j {
                    assert(rank(before[j as int], dir) <= rank(before[b0], dir));
                }
            }
        }
        i += 1;
    }
    proof {
        assert forall|c: Cell| out@.to_set().contains(c) == cells@.to_set().contains(c) by {
            if cells@.contains(c) {
                let k = choose|k: int| 0 <= k < cells@.len() && cells@[k] == c;
                assert(out@.contains(c));
            }
        }
        assert(out@.to_set() =~= cells@.to_set());
    }
    out
}

/// The balls during a direction, as the three collections hold them.
pub open spec fn motion(balls: &CellMap<bool>, settled: &CellSet, failed: &CellSet) -> Motion {
    Motion { balls: balls@, settled: settled@, failed: failed@ }
}

/// Attempts once to move the ball at `p`.
pub fn settle_ball(
    grid: &CellMap<Chunk>,
    dir: Direction,
    balls: &mut CellMap<bool>,
    settled: &mut CellSet,
    failed: &mut CellSet,
    p: Cell,
)
    ensures
        motion(final(balls), final(settled), final(failed)) == settle(
            codes(grid@),
            dir,
            motion(old(balls), old(settled), old(failed)),
            p,
        ),
{
    let on = match balls.get(p) {
        Some(on) => *on,
        None => { return ; },
    };
    let n = match step_cell(p, dir) {
        Some(n) => n,
        None => { return ; },
    };
    if !balls.contains_key(n) {
        if read_tile(grid, n) != Tile::Block {
            let _ = balls.remove(p);
            balls.insert(n, on);
            let _ = settled.insert(n);
        }
    } else if read_tile(grid, p) == Tile::Hold {
        let _ = failed.insert(p);
    }
}

/// The neighbour that the ball at `p` waits for, if it waits.
pub fn waits_for(
    grid: &CellMap<Chunk>,
    dir: Direction,
    balls: &CellMap<bool>,
    settled: &CellSet,
    failed: &CellSet,
    p: Cell,
) -> (n: Option<Cell>)
    ensures
        n is Some == defers(codes(grid@), dir, motion(balls, settled, failed), p),
        n is Some ==> n == step_of(p, dir),
{
    if !balls.contains_key(p) {
        return None;
    }
    match step_cell(p, dir) {
        None => None,
        Some(n) => if balls.contains_key(n) && read_tile(grid, n) == Tile::Hold && !failed.contains(n) {
            Some(n)
        } else {
            None
        },
    }
}

/// Resolves the ball at `p`: walks ahead over the balls that wait for their
/// neighbour, then attempts them from the far end back to `p`.
pub fn resolve_ball(
    grid: &CellMap<Chunk>,
    dir: Direction,
    balls: &mut CellMap<bool>,
    settled: &mut CellSet,
    failed: &mut CellSet,
    p: Cell,
)
    ensures
        motion(final(balls), final(settled), final(failed)) == resolve(
            codes(grid@),
            dir,
            motion(old(balls), old(settled), old(failed)),
            p,
        ),
{
    let ghost m0 = motion(balls, settled, failed);
    let ghost g = codes(grid@);
    let mut chain: Vec<Cell> = Vec::new();
    chain.push(p);
    let mut cur = p;
    let mut walking = true;
    while walking
        invariant
            motion(balls, settled, failed) == m0,
            g == codes(grid@),
            chain@.len() >= 1,
            chain@[0] == p,
            chain@[chain@.len() - 1] == cur,
            forall|i: int|
                0 <= i < chain@.len() - 1 ==> defers(g, dir, m0, #[trigger] chain@[i]) && step_of(
                    chain@[i],
                    dir,
                ) == Some(chain@[i + 1]),
            !walking ==> !defers(g, dir, m0, cur),
        decreases room(cur, dir) + if walking { 1nat } else { 0nat },
    {
        match waits_for(grid, dir, balls, settled, failed, cur) {
            Some(n) => {
                chain.push(n);
                cur = n;
            },
            None => {
                walking = false;
            },
        }
    }
    let ghost full = chain@;
    while chain.len() > 0
        invariant
            g == codes(grid@),
            chain@.len() <= full.len(),
            chain@ == full.take(chain@.len() as int),
            full.len() >= 1,
            full[0] == p,
            forall|i: int|
                0 <= i < full.len() - 1 ==> defers(g, dir, m0, #[trigger] full[i]) && step_of(
                    full[i],
                    dir,
                ) == Some(full[i + 1]),
            !defers(g, dir, m0, full[full.len() - 1]),
            motion(balls, settled, failed) == if chain@.len() == full.len() {
                m0
            } else {
                resolve(g, dir, m0, full[chain@.len() as int])
            },
        decreases chain.len(),
    {
        let ghost k = chain@.len() as int;
        let q = match chain.pop() {
            Some(q) => q,
            None => { return ; },
        };
        assert(q == full[k - 1]);
        settle_ball(grid, dir, balls, settled, failed, q);
        assert(chain@ =~= full.take(k - 1));
    }
}

/// Resolves the balls of a sorted work list, from its end to its start.
pub fn run_movers(
    grid: &CellMap<Chunk>,
    dir: Direction,
    balls: &mut CellMap<bool>,
    settled: &mut CellSet,
    failed: &mut CellSet,
    work: Vec<Cell>,
)
    requires
        work@.no_duplicates(),
        ascending(work@, dir),
    ensures
        motion(final(balls), final(settled), final(failed)) == run(
            codes(grid@),
            dir,
            motion(old(balls), old(settled), old(failed)),
            work@.to_set(),
        ),
{
    let ghost m0 = motion(balls, settled, failed);
    let ghost g = codes(grid@);
    let ghost all = work@.to_set();
    let mut work = work;
    while work.len() > 0
        invariant
            g == codes(grid@),
            work@.no_duplicates(),
            ascending(work@, dir),
            run(g, dir, motion(balls, settled, failed), work@.to_set()) == run(g, dir, m0, all),
        decreases work.len(),
    {
        let ghost before = work@;
        let ghost m = motion(balls, settled, failed);
        let p = match work.pop() {
            Some(p) => p,
            None => { return ; },
        };
        proof {
            lemma_last_leads(before, dir);
            lemma_leader(before.to_set(), dir, p);
            assert(work@ =~= before.drop_last());
            assert(run(g, dir, m, before.to_set()) == run(
                g,
                dir,
                resolve(g, dir, m, p),
                before.to_set().remove(p),
            ));
        }
        resolve_ball(grid, dir, balls, settled, failed, p);
    }
    proof {
        let m = motion(balls, settled, failed);
        assert(work@.to_set() =~= Set::<Cell>::empty());
        assert(run(g, dir, m, Set::<Cell>::empty()) == m);
    }
}

/// The balls between two directions, as the three collections hold them.
pub open spec fn tick_state(balls: &CellMap<bool>, settled: &CellSet, spent: &CellSet) -> Tick {
    Tick { balls: balls@, settled: settled@, spent: spent@ }
}

proof fn lemma_take_step(s: Seq<Cell>, i: int, c: Cell)
    requires
        0 <= i < s.len(),
    ensures
        s.take(i + 1).contains(c) <==> s.take(i).contains(c) || s[i] == c,
{
    let more = s.take(i + 1);
    let less = s.take(i);
    if more.contains(c) {
        let k = choose|k: int| 0 <= k < more.len() && more[k] == c;
        if k < i {
            assert(less[k] == c);
        }
    }
    if less.contains(c) {
        let k = choose|k: int| 0 <= k < less.len() && less[k] == c;
        assert(more[k] == c);
    }
    if s[i] == c {
        assert(more[i] == c);
    }
}

/// Works one direction of a tick through.
pub fn run_phase(
    grid: &CellMap<Chunk>,
    dir: Direction,
    balls: &mut CellMap<bool>,
    settled: &mut CellSet,
    spent: &mut CellSet,
)
    ensures
        tick_state(final(balls), final(settled), final(spent)) == phase(
            codes(grid@),
            dir,
            tick_state(old(balls), old(settled), old(spent)),
        ),
{
    let ghost g = codes(grid@);
    let ghost t0 = tick_state(balls, settled, spent);
    let all = balls.cells();
    let mut go: Vec<Cell> = Vec::new();
    let mut gone: Vec<Cell> = Vec::new();
    let mut born: Vec<(Cell, bool)> = Vec::new();
    let mut i: usize = 0;
    while i < all.len()
        invariant
            i <= all.len(),
            all@.no_duplicates(),
            all@.to_set() == t0.balls.dom(),
            tick_state(balls, settled, spent) == t0,
            g == codes(grid@),
            go@.no_duplicates(),
            forall|c: Cell| #[trigger] go@.contains(c) <==> all@.take(i as int).contains(c) && mover(g, dir, t0, c),
            forall|c: Cell| #[trigger] gone@.contains(c) <==> all@.take(i as int).contains(c) && doomed(g, t0, c),
            forall|j: int|
                0 <= j < born@.len() ==> source(g, dir, t0, (#[trigger] born@[j]).0) && born@[j].1
                    == t0.balls[born@[j].0],
            forall|c: Cell|
                #[trigger] all@.take(i as int).contains(c) && source(g, dir, t0, c) ==> exists|j: int|
                    0 <= j < born@.len() && (#[trigger] born@[j]).0 == c,
        decreases all.len() - i,
    {
        let c = all[i];
        let ghost go0 = go@;
        let ghost gone0 = gone@;
        let ghost born0 = born@;
        proof {
            assert(all@.to_set().contains(c));
            assert(t0.balls.dom().contains(c));
            assert(!all@.take(i as int).contains(c)) by {
                let less = all@.take(i as int);
                if less.contains(c) {
                    let k = choose|k: int| 0 <= k < less.len() && less[k] == c;
                    assert(all@[k] == all@[i as int]);
                }
            }
        }
        if !settled.contains(c) {
            let on = match balls.get(c) {
                Some(on) => *on,
                None => false,
            };
            let tile = read_tile(grid, c);
            if tile == Tile::Destroy {
                gone.push(c);
            } else if tile_passes(tile, dir, on) {
                go.push(c);
                if tile_copies(tile, dir) && !spent.contains(c) {
                    born.push((c, on));
                }
            }
        }
        proof {
            assert forall|d: Cell| #[trigger] go@.contains(d) <==> all@.take(i + 1).contains(d) && mover(g, dir, t0, d) by {
                lemma_take_step(all@, i as int, d);
                if go@.len() > go0.len() {
                    assert(go@ == go0.push(c));
                    assert(go@[go0.len() as int] == c);
                    if go@.contains(d) && d != c {
                        let k = choose|k: int| 0 <= k < go@.len() && go@[k] == d;
                        assert(go0[k] == d);
                    }
                    if go0.contains(d) {
                        let k = choose|k: int| 0 <= k < go0.len() && go0[k] == d;
                        assert(go@[k] == d);
                    }
                }
            }
            assert forall|d: Cell| #[trigger] gone@.contains(d) <==> all@.take(i + 1).contains(d) && doomed(g, t0, d) by {
                lemma_take_step(all@, i as int, d);
                if gone@.len() > gone0.len() {
                    assert(gone@ == gone0.push(c));
                    assert(gone@[gone0.len() as int] == c);
                    if gone@.contains(d) && d != c {
                        let k = choose|k: int| 0 <= k < gone@.len() && gone@[k] == d;
                        assert(gone0[k] == d);
                    }
                    if gone0.contains(d) {
                        let k = choose|k: int| 0 <= k < gone0.len() && gone0[k] == d;
                        assert(gone@[k] == d);
                    }
                }
            }
            assert forall|d: Cell|
                #[trigger] all@.take(i + 1).contains(d) && source(g, dir, t0, d) implies exists|j: int|
                    0 <= j < born@.len() && (#[trigger] born@[j]).0 == d by {
                lemma_take_step(all@, i as int, d);
                if d == c {
                    assert(born@[born0.len() as int].0 == c);
                } else {
                    let j = choose|j: int| 0 <= j < born0.len() && (#[trigger] born0[j]).0 == d;
                    assert(born@[j].0 == d);
                }
            }
            assert(go@.no_duplicates()) by {
                if go@.len() > go0.len() {
                    assert(!go0.contains(c));
                    assert forall|a: int, b: int| 0 <= a < go@.len() && 0 <= b < go@.len() && a != b implies go@[a] != go@[b] by {
                        if a < go0.len() {
                            assert(go0.contains(go0[a]));
                        }
                        if b < go0.len() {
                            assert(go0.contains(go0[b]));
                        }
                    }
                }
            }
        }
        i += 1;
    }
    proof {
        assert(all@.take(all@.len() as int) =~= all@);
    }
    let mut j: usize = 0;
    while j < gone.len()
        invariant
            j <= gone.len(),
            settled@ == t0.settled,
            spent@ == t0.spent,
            forall|c: Cell| #[trigger] balls@.contains_key(c) <==> t0.balls.contains_key(c) && !gone@.take(j as int).contains(c),
            forall|c: Cell| #[trigger] balls@.contains_key(c) ==> balls@[c] == t0.balls[c],
        decreases gone.len() - j,
    {
        let ghost was = balls@;
        let _ = balls.remove(gone[j]);
        proof {
            assert forall|c: Cell| #[trigger] balls@.contains_key(c) <==> t0.balls.contains_key(c) && !gone@.take(j + 1).contains(c) by {
                lemma_take_step(gone@, j as int, c);
                assert(was.contains_key(c) <==> t0.balls.contains_key(c) && !gone@.take(j as int).contains(c));
            }
            assert forall|c: Cell| #[trigger] balls@.contains_key(c) implies balls@[c] == t0.balls[c] by {
                assert(was.contains_key(c));
            }
        }
        j += 1;
    }
    proof {
        assert(gone@.take(gone@.len() as int) =~= gone@);
    }
    let mut j: usize = 0;
    while j < born.len()
        invariant
            j <= born.len(),
            forall|c: Cell|
                #[trigger] spent@.contains(c) <==> t0.spent.contains(c) || exists|k: int|
                    0 <= k < j && (#[trigger] born@[k]).0 == c,
        decreases born.len() - j,
    {
        let ghost was = spent@;
        let _ = spent.insert(born[j].0);
        proof {
            assert forall|c: Cell|
                #[trigger] spent@.contains(c) <==> t0.spent.contains(c) || exists|k: int|
                    0 <= k < j + 1 && (#[trigger] born@[k]).0 == c by {
                assert(was.contains(c) <==> t0.spent.contains(c) || exists|k: int|
                    0 <= k < j && (#[trigger] born@[k]).0 == c);
                if c == born@[j as int].0 {
                    assert(born@[j as int].0 == c);
                }
            }
        }
        j += 1;
    }
    let work = order(dir, go);
    let mut failed = CellSet::new();
    let ghost start = motion(balls, settled, &failed);
    run_movers(grid, dir, balls, settled, &mut failed, work);
    let ghost end = motion(balls, settled, &failed);
    proof {
        assert(work@.to_set() =~= Set::new(|c: Cell| mover(g, dir, t0, c))) by {
            assert forall|c: Cell| work@.to_set().contains(c) == mover(g, dir, t0, c) by {
                assert(go@.to_set().contains(c) == go@.contains(c));
                if mover(g, dir, t0, c) {
                    assert(all@.to_set().contains(c));
                }
            }
        }
        assert(start.balls =~= t0.balls.remove_keys(Set::new(|c: Cell| doomed(g, t0, c))));
    }
    let mut j: usize = 0;
    while j < born.len()
        invariant
            j <= born.len(),
            forall|k: int|
                0 <= k < born@.len() ==> source(g, dir, t0, (#[trigger] born@[k]).0) && born@[k].1
                    == t0.balls[born@[k].0],
            forall|c: Cell|
                #[trigger] balls@.contains_key(c) <==> end.balls.contains_key(c) || exists|k: int|
                    0 <= k < j && (#[trigger] born@[k]).0 == c,
            forall|c: Cell|
                #[trigger] balls@.contains_key(c) ==> balls@[c] == if source(g, dir, t0, c) {
                    t0.balls[c]
                } else {
                    end.balls[c]
                } || (source(g, dir, t0, c) && !(exists|k: int| 0 <= k < j && (#[trigger] born@[k]).0 == c) && balls@[c] == end.balls[c]),
        decreases born.len() - j,
    {
        let ghost was = balls@;
        balls.insert(born[j].0, born[j].1);
        proof {
            assert forall|c: Cell|
                #[trigger] balls@.contains_key(c) <==> end.balls.contains_key(c) || exists|k: int|
                    0 <= k < j + 1 && (#[trigger] born@[k]).0 == c by {
                assert(was.contains_key(c) <==> end.balls.contains_key(c) || exists|k: int|
                    0 <= k < j && (#[trigger] born@[k]).0 == c);
                if c == born@[j as int].0 {
                    assert(born@[j as int].0 == c);
                }
            }
            assert forall|c: Cell|
                #[trigger] balls@.contains_key(c) implies balls@[c] == if source(g, dir, t0, c) {
                    t0.balls[c]
                } else {
                    end.balls[c]
                } || (source(g, dir, t0, c) && !(exists|k: int| 0 <= k < j + 1 && (#[trigger] born@[k]).0 == c) && balls@[c] == end.balls[c]) by {
                if c == born@[j as int].0 {
                } else {
                    assert(was.contains_key(c));
                }
            }
        }
        j += 1;
    }
    proof {
        let want = phase(g, dir, t0);
        assert(run(g, dir, start, work@.to_set()) == end);
        assert(want.settled == end.settled);
        assert(want.spent =~= spent@);
        assert forall|c: Cell| #[trigger] balls@.contains_key(c) == want.balls.contains_key(c) by {
            if exists|k: int| 0 <= k < born@.len() && (#[trigger] born@[k]).0 == c {
                let k = choose|k: int| 0 <= k < born@.len() && (#[trigger] born@[k]).0 == c;
                assert(source(g, dir, t0, born@[k].0));
            }
            if source(g, dir, t0, c) {
                assert(all@.to_set().contains(c));
                assert(all@.contains(c));
            }
        }
        assert forall|c: Cell| #[trigger] balls@.contains_key(c) implies balls@[c] == want.balls[c] by {
            if source(g, dir, t0, c) {
                assert(all@.to_set().contains(c));
                assert(all@.contains(c));
            }
        }
        assert(balls@ =~= want.balls);
    }
}

/// Works a whole tick through: up, right, left, down.
pub fn run_tick(grid: &CellMap<Chunk>, balls: &mut CellMap<bool>)
    ensures
        final(balls)@ == tick(codes(grid@), old(balls)@),
{
    let mut settled = CellSet::new();
    let mut spent = CellSet::new();
    run_phase(grid, Direction::Up, balls, &mut settled, &mut spent);
    run_phase(grid, Direction::Right, balls, &mut settled, &mut spent);
    run_phase(grid, Direction::Left, balls, &mut settled, &mut spent);
    run_phase(grid, Direction::Down, balls, &mut settled, &mut spent);
}

} // verus!
