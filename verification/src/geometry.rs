//! Squares on the grid: when two of them overlap, and what a free slot is.

use vstd::prelude::*;
use crate::row::{Slot, sorted_by_x};

verus! {

/// A square placed on the grid: top-left corner at column `x`, row `y`, side `r`.
#[derive(Clone, Copy, Debug)]
pub struct PlacedSquare {
    pub x: usize,
    pub y: usize,
    pub r: usize,
}

/// The squares `[ax, ax+ar) x [ay, ay+ar)` and `[bx, bx+br) x [by, by+br)`
/// share at least one cell (a square of side 0 shares none).
pub open spec fn overlaps(ax: int, ay: int, ar: int, bx: int, by: int, br: int) -> bool {
    &&& 0 < ar
    &&& 0 < br
    &&& ax < bx + br
    &&& bx < ax + ar
    &&& ay < by + br
    &&& by < ay + ar
}

/// The region of slot `s` shares a cell with square `q`.
pub open spec fn slot_meets(s: Slot, q: PlacedSquare) -> bool {
    overlaps(s.x as int, s.y as int, s.r as int, q.x as int, q.y as int, q.r as int)
}

/// Squares `a` and `b` share a cell.
pub open spec fn squares_meet(a: PlacedSquare, b: PlacedSquare) -> bool {
    overlaps(a.x as int, a.y as int, a.r as int, b.x as int, b.y as int, b.r as int)
}

/// No square of `placed` reaches into the region of slot `s`.
pub open spec fn slot_free(s: Slot, placed: Seq<PlacedSquare>) -> bool {
    forall|k: int| 0 <= k < placed.len() ==> !slot_meets(s, #[trigger] placed[k])
}

/// Every slot of the row is free.
pub open spec fn row_free(row: Seq<Slot>, placed: Seq<PlacedSquare>) -> bool {
    forall|i: int| 0 <= i < row.len() ==> slot_free(#[trigger] row[i], placed)
}

/// No slot of the row reaches into square `q`.
pub open spec fn row_clear(row: Seq<Slot>, q: PlacedSquare) -> bool {
    forall|i: int| 0 <= i < row.len() ==> !slot_meets(#[trigger] row[i], q)
}

/// The slots of row `y` are ordered by left edge, all start in row `y`, are not
/// empty, and end at or before column `width`.
pub open spec fn row_wf(row: Seq<Slot>, y: int, width: int) -> bool {
    &&& sorted_by_x(row)
    &&& forall|i: int| 0 <= i < row.len() ==> {
        &&& (#[trigger] row[i]).y == y
        &&& row[i].r > 0
        &&& row[i].x + row[i].r <= width
    }
}

/// No two squares of `q` overlap.
pub open spec fn pairwise_disjoint(q: Seq<PlacedSquare>) -> bool {
    forall|i: int, j: int| 0 <= i < j < q.len() ==> !squares_meet(#[trigger] q[i], #[trigger] q[j])
}

/// The region of slot `a` lies inside the region of slot `b`.
pub open spec fn slot_within(a: Slot, b: Slot) -> bool {
    &&& b.x <= a.x
    &&& a.x + a.r <= b.x + b.r
    &&& b.y <= a.y
    &&& a.y + a.r <= b.y + b.r
}

/// A region inside a free region is free.
pub proof fn lemma_within_free(a: Slot, b: Slot, placed: Seq<PlacedSquare>)
    requires
        slot_within(a, b),
        slot_free(b, placed),
    ensures
        slot_free(a, placed),
{
    assert forall|k: int| 0 <= k < placed.len() implies !slot_meets(a, #[trigger] placed[k]) by {
        assert(!slot_meets(b, placed[k]));
    }
}

/// Every square of `placed` ends at or above row `top`.
pub open spec fn ends_by(placed: Seq<PlacedSquare>, top: int) -> bool {
    forall|k: int| 0 <= k < placed.len() ==> #[trigger] placed[k].y + placed[k].r <= top
}

/// A square that starts at the corner of a free slot and is no larger than it
/// overlaps none of the placed squares.
pub proof fn lemma_square_in_free_slot(s: Slot, q: PlacedSquare, placed: Seq<PlacedSquare>)
    requires
        q.x == s.x,
        q.y == s.y,
        q.r <= s.r,
        slot_free(s, placed),
    ensures
        forall|k: int| 0 <= k < placed.len() ==> !squares_meet(#[trigger] placed[k], q),
{
    assert forall|k: int| 0 <= k < placed.len() implies !squares_meet(#[trigger] placed[k], q) by {
        assert(!slot_meets(s, placed[k]));
    }
}

/// A slot that starts at row `top` or further down is free when every placed
/// square ends at or above row `top`.
pub proof fn lemma_free_when_all_above(s: Slot, placed: Seq<PlacedSquare>, top: int)
    requires
        ends_by(placed, top),
        s.y >= top,
    ensures
        slot_free(s, placed),
{
    assert forall|k: int| 0 <= k < placed.len() implies !slot_meets(s, #[trigger] placed[k]) by {
        assert(placed[k].y + placed[k].r <= top);
    }
}

} // verus!
