use crate::ball::Direction;
use crate::cells::Cell;
use crate::engine::{
    ascending, defers, lemma_last_leads, lemma_leader, resolve, room, run, settle, step_of, Motion,
};
use crate::store::Grid;
use vstd::prelude::*;

verus! {

/// The work stack, taken literally: the cell on top is taken off; a ball
/// that waits for its neighbour is put back, with the neighbour on top of it;
/// any other ball is attempted once. `steps` bounds how many cells are taken
/// off; the result is `None` if the stack is not empty by then.
pub open spec fn work_stack(grid: Grid, dir: Direction, m: Motion, stack: Seq<Cell>, steps: nat) -> Option<
    Motion,
>
    decreases steps,
{
    if stack.len() == 0 {
        Some(m)
    } else if steps == 0 {
        None
    } else {
        let p = stack.last();
        let rest = stack.drop_last();
        if defers(grid, dir, m, p) {
            work_stack(grid, dir, m, rest.push(p).push(step_of(p, dir)->0), (steps - 1) as nat)
        } else {
            work_stack(grid, dir, settle(grid, dir, m, p), rest, (steps - 1) as nat)
        }
    }
}

/// Resolving the cells of a list from its end to its start.
pub open spec fn unwind(grid: Grid, dir: Direction, m: Motion, stack: Seq<Cell>) -> Motion
    decreases stack.len(),
{
    if stack.len() == 0 {
        m
    } else {
        unwind(grid, dir, resolve(grid, dir, m, stack.last()), stack.drop_last())
    }
}

/// Resolving a ball leaves alone every cell with more room ahead of it than
/// the ball's cell has: what lies behind the ball, and the other rows.
pub proof fn lemma_resolve_frame(grid: Grid, dir: Direction, m: Motion, q: Cell, c: Cell)
    requires
        room(c, dir) > room(q, dir),
    ensures
        resolve(grid, dir, m, q).balls.contains_key(c) == m.balls.contains_key(c),
        m.balls.contains_key(c) ==> resolve(grid, dir, m, q).balls[c] == m.balls[c],
        resolve(grid, dir, m, q).failed.contains(c) == m.failed.contains(c),
    decreases room(q, dir),
{
    if defers(grid, dir, m, q) {
        lemma_resolve_frame(grid, dir, m, step_of(q, dir)->0, c);
    }
}

/// A ball that waited for its neighbour waits no second time, unless
/// resolving the neighbour changed nothing at all.
pub proof fn lemma_waits_once(grid: Grid, dir: Direction, m: Motion, p: Cell)
    requires
        defers(grid, dir, m, p),
    ensures
        defers(grid, dir, resolve(grid, dir, m, step_of(p, dir)->0), p) ==> resolve(
            grid,
            dir,
            m,
            step_of(p, dir)->0,
        ) == m,
{
    let h = step_of(p, dir)->0;
    if defers(grid, dir, m, h) {
        let k = step_of(h, dir)->0;
        lemma_resolve_frame(grid, dir, m, k, h);
        lemma_resolve_frame(grid, dir, m, k, p);
    }
}

proof fn lemma_unwind_push(grid: Grid, dir: Direction, m: Motion, stack: Seq<Cell>, p: Cell)
    ensures
        unwind(grid, dir, m, stack.push(p)) == unwind(grid, dir, resolve(grid, dir, m, p), stack),
{
    assert(stack.push(p).drop_last() =~= stack);
}

/// Whenever the literal work stack comes to an end, it ends where resolving
/// its cells from the top down ends.
pub proof fn lemma_work_stack_unwinds(grid: Grid, dir: Direction, m: Motion, stack: Seq<Cell>, steps: nat)
    requires
        work_stack(grid, dir, m, stack, steps) is Some,
    ensures
        work_stack(grid, dir, m, stack, steps) == Some(unwind(grid, dir, m, stack)),
    decreases steps,
{
    if stack.len() > 0 {
        let p = stack.last();
        let rest = stack.drop_last();
        assert(stack =~= rest.push(p));
        lemma_unwind_push(grid, dir, m, rest, p);
        if defers(grid, dir, m, p) {
            let h = step_of(p, dir)->0;
            let after = resolve(grid, dir, m, h);
            lemma_work_stack_unwinds(grid, dir, m, rest.push(p).push(h), (steps - 1) as nat);
            lemma_unwind_push(grid, dir, m, rest.push(p), h);
            lemma_unwind_push(grid, dir, after, rest, p);
            lemma_waits_once(grid, dir, m, p);
            assert(resolve(grid, dir, after, p) == resolve(grid, dir, m, p));
        } else {
            lemma_work_stack_unwinds(grid, dir, settle(grid, dir, m, p), rest, (steps - 1) as nat);
        }
    }
}

/// Resolving a sorted list from its end to its start is resolving its cells,
/// the leader first.
pub proof fn lemma_unwind_is_run(grid: Grid, dir: Direction, m: Motion, work: Seq<Cell>)
    requires
        work.no_duplicates(),
        ascending(work, dir),
    ensures
        unwind(grid, dir, m, work) == run(grid, dir, m, work.to_set()),
    decreases work.len(),
{
    if work.len() == 0 {
        assert(work.to_set() =~= Set::<Cell>::empty());
    } else {
        lemma_last_leads(work, dir);
        lemma_leader(work.to_set(), dir, work.last());
        lemma_unwind_is_run(grid, dir, resolve(grid, dir, m, work.last()), work.drop_last());
    }
}

/// The work stack with its push-back, started on the sorted movers, ends
/// where the tick's rule says, whenever it ends: in the balls' places, in
/// what is settled and in what was found stuck.
pub proof fn law_work_stack_agrees(grid: Grid, dir: Direction, m: Motion, work: Seq<Cell>, steps: nat)
    requires
        work.no_duplicates(),
        ascending(work, dir),
        work_stack(grid, dir, m, work, steps) is Some,
    ensures
        work_stack(grid, dir, m, work, steps) == Some(run(grid, dir, m, work.to_set())),
{
    lemma_work_stack_unwinds(grid, dir, m, work, steps);
    lemma_unwind_is_run(grid, dir, m, work);
}

} // verus!
