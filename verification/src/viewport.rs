use crate::cells::{Cell, CellMap};
use vstd::prelude::*;

verus! {

/// Whether a cell lies in the rectangle from `low` to `high`, both corners
/// included.
pub open spec fn within(c: Cell, low: Cell, high: Cell) -> bool {
    low.0 <= c.0 <= high.0 && low.1 <= c.1 <= high.1
}

/// The order in which a rectangle is walked: column by column, each column
/// from its lowest cell up.
pub open spec fn walked_before(a: Cell, b: (int, int)) -> bool {
    a.0 < b.0 || (a.0 == b.0 && a.1 < b.1)
}

/// What a walk over a rectangle of a map yields: every cell of the rectangle
/// that holds a value, with that value, once, in the order of the walk.
pub open spec fn lists_rect<V>(out: Seq<(Cell, V)>, m: Map<Cell, V>, low: Cell, high: Cell) -> bool {
    &&& forall|i: int|
        0 <= i < out.len() ==> within((#[trigger] out[i]).0, low, high) && m.contains_key(out[i].0)
            && m[out[i].0] == out[i].1
    &&& forall|c: Cell|
        within(c, low, high) && #[trigger] m.contains_key(c) ==> exists|i: int|
            0 <= i < out.len() && (#[trigger] out[i]).0 == c
    &&& forall|i: int, j: int|
        0 <= i < j < out.len() ==> walked_before(
            (#[trigger] out[i]).0,
            ((#[trigger] out[j]).0.0 as int, out[j].0.1 as int),
        )
}

/// Walks the rectangle from `low` to `high` and collects what the map holds
/// there. The map is only read.
pub fn scan_rect<V: Copy>(m: &CellMap<V>, low: Cell, high: Cell) -> (out: Vec<(Cell, V)>)
    ensures
        lists_rect(out@, m@, low, high),
{
    let mut out: Vec<(Cell, V)> = Vec::new();
    let mut x: i64 = low.0 as i64;
    while x <= high.0 as i64
        invariant
            low.0 <= x,
            forall|i: int|
                0 <= i < out@.len() ==> within((#[trigger] out@[i]).0, low, high) && out@[i].0.0 < x
                    && m@.contains_key(out@[i].0) && m@[out@[i].0] == out@[i].1,
            forall|c: Cell|
                within(c, low, high) && c.0 < x && #[trigger] m@.contains_key(c) ==> exists|i: int|
                    0 <= i < out@.len() && (#[trigger] out@[i]).0 == c,
            forall|i: int, j: int|
                0 <= i < j < out@.len() ==> walked_before(
                    (#[trigger] out@[i]).0,
                    ((#[trigger] out@[j]).0.0 as int, out@[j].0.1 as int),
                ),
        decreases high.0 - x + 1,
    {
        let mut y: i64 = low.1 as i64;
        while y <= high.1 as i64
            invariant
                low.0 <= x <= high.0,
                low.1 <= y,
                forall|i: int|
                    0 <= i < out@.len() ==> within((#[trigger] out@[i]).0, low, high)
                        && walked_before(out@[i].0, (x as int, y as int)) && m@.contains_key(
                        out@[i].0,
                    ) && m@[out@[i].0] == out@[i].1,
                forall|c: Cell|
                    within(c, low, high) && walked_before(c, (x as int, y as int))
                        && #[trigger] m@.contains_key(c) ==> exists|i: int|
                        0 <= i < out@.len() && (#[trigger] out@[i]).0 == c,
                forall|i: int, j: int|
                    0 <= i < j < out@.len() ==> walked_before(
                        (#[trigger] out@[i]).0,
                        ((#[trigger] out@[j]).0.0 as int, out@[j].0.1 as int),
                    ),
            decreases high.1 - y + 1,
        {
            let c: Cell = (x as i32, y as i32);
            let ghost before = out@;
            match m.get(c) {
                Some(v) => {
                    out.push((c, *v));
                },
                None => {},
            }
            proof {
                assert forall|d: Cell|
                    within(d, low, high) && walked_before(d, (x as int, y + 1))
                        && #[trigger] m@.contains_key(d) implies exists|i: int|
                    0 <= i < out@.len() && (#[trigger] out@[i]).0 == d by {
                    if d == c {
                        assert(out@[before.len() as int].0 == c);
                    } else {
                        assert(walked_before(d, (x as int, y as int)));
                        let i = choose|i: int| 0 <= i < before.len() && (#[trigger] before[i]).0 == d;
                        assert(out@[i].0 == d);
                    }
                }
            }
            y += 1;
        }
        x += 1;
    }
    out
}

} // verus!
