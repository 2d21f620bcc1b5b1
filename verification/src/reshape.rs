//! What placing a square does to the free slots, stated row by row: the
//! rows the square covers are cut around it (new rows are opened where
//! missing), and the rows just above it are trimmed to end where it starts,
//! the trimmed-off part handed out again as a staircase of smaller slots.

use vstd::prelude::*;
use crate::geometry::{PlacedSquare, row_wf};
use crate::row::{
    MondrianRow, Slot, added, grown, has_x, lemma_right_index, lemma_x_index, removed, resized, resized_at,
    right_index, x_index,
};

verus! {

/// The rows' slots.
pub open spec fn rows_view(rows: Seq<MondrianRow>) -> Seq<Seq<Slot>> {
    Seq::new(rows.len(), |i: int| rows[i].slots@)
}

/// Slot `t` reaches into the columns `[lo, hi)`.
pub open spec fn spans_into(t: Slot, lo: int, hi: int) -> bool {
    t.x + t.r > lo && t.x < hi
}

/// Column and side of each slot of `s` that reaches into `[lo, hi)`, in order.
pub open spec fn collisions(s: Seq<Slot>, lo: int, hi: int) -> Seq<(usize, usize)>
    decreases s.len(),
{
    if s.len() == 0 {
        Seq::empty()
    } else if spans_into(s.last(), lo, hi) {
        collisions(s.drop_last(), lo, hi).push((s.last().x, s.last().r))
    } else {
        collisions(s.drop_last(), lo, hi)
    }
}

/// How far the slots of `s` that reach into `[lo, hi)` stick out right of
/// column `edge`, at most (0 if none does).
pub open spec fn excess(s: Seq<Slot>, lo: int, hi: int, edge: int) -> int
    decreases s.len(),
{
    if s.len() == 0 {
        0
    } else {
        let e = excess(s.drop_last(), lo, hi, edge);
        let t = s.last();
        if spans_into(t, lo, hi) && t.x + t.r > edge && t.x + t.r - edge > e {
            t.x + t.r - edge
        } else {
            e
        }
    }
}

/// Side of the slot opened right of the new square in a row it covers: what
/// is left of the filled slot right of the square, widened by how far cut
/// slots stuck out right of the filled slot.
pub open spec fn rhs_side(s: Seq<Slot>, slot_x: int, slot_r: int, sq_size: int) -> int {
    (if slot_r > sq_size { slot_r - sq_size } else { 0 })
        + excess(s, slot_x, slot_x + sq_size, slot_x + slot_r)
}

/// Row `s` (row `row_y`) with the slot right of the new square added, where it
/// lies within the width, no slot starts there yet and its side is not 0.
pub open spec fn with_rhs(s: Seq<Slot>, row_y: usize, width: usize, slot_x: usize, slot_r: usize, sq_size: usize) -> Seq<Slot> {
    let sq_right = slot_x + sq_size;
    let r = rhs_side(s, slot_x as int, slot_r as int, sq_size as int);
    if sq_right < width && !has_x(s, sq_right as usize) && r > 0 {
        added(s, Slot { x: sq_right as usize, y: row_y, r: r as usize })
    } else {
        s
    }
}

/// Row `s` with each colliding slot, in order, cut back to end at column
/// `slot_x`, or dropped when it starts at or right of `slot_x`.
pub open spec fn cut(s: Seq<Slot>, cs: Seq<(usize, usize)>, slot_x: usize) -> Seq<Slot>
    decreases cs.len(),
{
    if cs.len() == 0 {
        s
    } else {
        let t = cut(s, cs.drop_last(), slot_x);
        let cx = cs.last().0;
        if slot_x > cx {
            resized_at(t, cx, (slot_x - cx) as usize)
        } else {
            removed(t, cx)
        }
    }
}

/// An existing row `row_y` that the new square covers, after placing it.
pub open spec fn span_row(s: Seq<Slot>, row_y: usize, width: usize, slot_x: usize, slot_r: usize, sq_size: usize) -> Seq<Slot> {
    cut(
        with_rhs(s, row_y, width, slot_x, slot_r, sq_size),
        collisions(s, slot_x as int, slot_x + sq_size),
        slot_x,
    )
}

/// A row `row_y` opened for the new square: free left of the square and right
/// of it up to the width.
pub open spec fn fresh_row(row_y: usize, width: usize, slot_x: usize, sq_size: usize) -> Seq<Slot> {
    let s1 = if slot_x > 0 {
        added(Seq::empty(), Slot { x: 0, y: row_y, r: slot_x })
    } else {
        Seq::<Slot>::empty()
    };
    if slot_x + sq_size < width {
        added(s1, Slot { x: (slot_x + sq_size) as usize, y: row_y, r: (width - slot_x - sq_size) as usize })
    } else {
        s1
    }
}

/// The rows once the filled slot is gone and the rows from `slot_y` up to
/// (not including) `upto` are cut around the square or opened.
pub open spec fn spanned_rows(
    rows: Seq<Seq<Slot>>,
    upto: int,
    width: usize,
    slot_x: usize,
    slot_y: usize,
    slot_r: usize,
    sq_size: usize,
) -> Seq<Seq<Slot>> {
    let n = if upto > rows.len() { upto } else { rows.len() as int };
    Seq::new(n as nat, |y: int|
        if y < rows.len() {
            let b = if y == slot_y { removed(rows[y], slot_x) } else { rows[y] };
            if slot_y <= y < upto {
                span_row(b, y as usize, width, slot_x, slot_r, sq_size)
            } else {
                b
            }
        } else {
            fresh_row(y as usize, width, slot_x, sq_size)
        }
    )
}

/// Column and side of each slot of `s` that reaches into columns `[lo, hi)`
/// and down to row `slot_y` or beyond, in order.
pub open spec fn entries(s: Seq<Slot>, lo: int, hi: int, slot_y: int) -> Seq<(usize, usize)>
    decreases s.len(),
{
    if s.len() == 0 {
        Seq::empty()
    } else {
        let t = s.last();
        let rest = entries(s.drop_last(), lo, hi, slot_y);
        if t.x < hi && t.x + t.r > lo && t.y + t.r >= slot_y {
            rest.push((t.x, t.r))
        } else {
            rest
        }
    }
}

/// The `w` x `h` rectangle at `(x, y)` cut into squares: the largest square
/// that fits at its corner, then the same for what is left.
pub open spec fn staircase(x: usize, y: usize, w: usize, h: usize) -> Seq<Slot>
    decreases w + h,
{
    if w == 0 || h == 0 {
        Seq::empty()
    } else if w <= h {
        seq![Slot { x, y, r: w }] + staircase(x, (y + w) as usize, w, (h - w) as usize)
    } else {
        seq![Slot { x, y, r: h }] + staircase((x + h) as usize, y, (w - h) as usize, h)
    }
}

/// The rows with each slot of `ps`, in order, added to its row.
pub open spec fn add_pieces(rows: Seq<Seq<Slot>>, ps: Seq<Slot>) -> Seq<Seq<Slot>>
    decreases ps.len(),
{
    if ps.len() == 0 {
        rows
    } else {
        let r = add_pieces(rows, ps.drop_last());
        let p = ps.last();
        if p.y < r.len() {
            r.update(p.y as int, added(r[p.y as int], p))
        } else {
            r
        }
    }
}

/// One slot `(sx, old_r)` of row `row_y` that reaches down into the new
/// square: it is cut back to end at row `slot_y`, and the part right of the
/// cut is handed out again as a staircase of slots.
pub open spec fn entry_step(rows: Seq<Seq<Slot>>, row_y: usize, e: (usize, usize), slot_y: usize) -> Seq<Seq<Slot>> {
    let new_r: usize = if slot_y > row_y { (slot_y - row_y) as usize } else { 0 };
    if new_r > 0 {
        let rows1 = rows.update(row_y as int, resized_at(rows[row_y as int], e.0, new_r));
        let w: usize = if e.1 > new_r { (e.1 - new_r) as usize } else { 0 };
        add_pieces(rows1, staircase((e.0 + new_r) as usize, row_y, w, new_r))
    } else {
        rows.update(row_y as int, removed(rows[row_y as int], e.0))
    }
}

/// The slots `es` of row `row_y` handled in order.
pub open spec fn entries_fold(rows: Seq<Seq<Slot>>, row_y: usize, es: Seq<(usize, usize)>, slot_y: usize) -> Seq<Seq<Slot>>
    decreases es.len(),
{
    if es.len() == 0 {
        rows
    } else {
        entry_step(entries_fold(rows, row_y, es.drop_last(), slot_y), row_y, es.last(), slot_y)
    }
}

/// Row `row_y`, above the new square, trimmed.
pub open spec fn trim_row(rows: Seq<Seq<Slot>>, row_y: usize, slot_x: usize, slot_y: usize, sq_size: usize) -> Seq<Seq<Slot>> {
    entries_fold(rows, row_y, entries(rows[row_y as int], slot_x as int, slot_x + sq_size, slot_y as int), slot_y)
}

/// The rows `[from, to)` trimmed, in order.
pub open spec fn window(rows: Seq<Seq<Slot>>, from: int, to: int, slot_x: usize, slot_y: usize, sq_size: usize) -> Seq<Seq<Slot>>
    decreases to - from,
{
    if to <= from {
        rows
    } else {
        trim_row(window(rows, from, to - 1, slot_x, slot_y, sq_size), (to - 1) as usize, slot_x, slot_y, sq_size)
    }
}

/// The first row that the square reaches into from above: `sq_size` rows
/// above it, or row 0.
pub open spec fn check_from(slot_y: usize, sq_size: usize) -> int {
    if slot_y >= sq_size { slot_y - sq_size } else { 0 }
}

/// The free slots after a square of side `sq_size` is placed at
/// `(slot_x, slot_y)` on a slot of side `slot_r`.
pub open spec fn filled_rows(
    rows: Seq<Seq<Slot>>,
    width: usize,
    slot_x: usize,
    slot_y: usize,
    slot_r: usize,
    sq_size: usize,
) -> Seq<Seq<Slot>> {
    window(
        spanned_rows(rows, slot_y + sq_size, width, slot_x, slot_y, slot_r, sq_size),
        check_from(slot_y, sq_size),
        slot_y as int,
        slot_x,
        slot_y,
        sq_size,
    )
}

/// The index of the first slot of `s` with room for a square of side `size`,
/// or the length of `s`.
pub open spec fn fit_index(s: Seq<Slot>, size: usize) -> int
    decreases s.len(),
{
    if s.len() == 0 {
        0
    } else if s[0].r >= size {
        0
    } else {
        1 + fit_index(s.drop_first(), size)
    }
}

/// The index of the first row with a slot with room for a square of side
/// `size`, or the number of rows.
pub open spec fn fit_row(rows: Seq<Seq<Slot>>, size: usize) -> int
    decreases rows.len(),
{
    if rows.len() == 0 {
        0
    } else if fit_index(rows[0], size) < rows[0].len() {
        0
    } else {
        1 + fit_row(rows.drop_first(), size)
    }
}

/// Where a square of side `size` goes, first-fit, and the free slots after it:
/// the first slot, scanning rows from the top and each row from the left,
/// with room for it; or, when there is none, the left edge of a new row
/// opened below all others with one slot as wide as the layout.
pub open spec fn placement(rows: Seq<Seq<Slot>>, width: usize, size: usize) -> (PlacedSquare, Seq<Seq<Slot>>) {
    let y = fit_row(rows, size);
    if y < rows.len() {
        let s = rows[y][fit_index(rows[y], size)];
        (PlacedSquare { x: s.x, y: s.y, r: size }, filled_rows(rows, width, s.x, s.y, s.r, size))
    } else {
        let ny = rows.len() as usize;
        let rows1 = rows.push(added(Seq::empty(), Slot { x: 0, y: ny, r: width }));
        (PlacedSquare { x: 0, y: ny, r: size }, filled_rows(rows1, width, 0, ny, width, size))
    }
}

/// The squares placed, in order, for the sides `sizes` in a layout `width`
/// columns wide that starts empty, and the free slots left afterwards.
pub open spec fn packing(sizes: Seq<usize>, width: usize) -> (Seq<PlacedSquare>, Seq<Seq<Slot>>)
    decreases sizes.len(),
{
    if sizes.len() == 0 {
        (Seq::empty(), Seq::empty())
    } else {
        let prev = packing(sizes.drop_last(), width);
        let next = placement(prev.1, width, sizes.last());
        (prev.0.push(next.0), next.1)
    }
}

/// `fit_index` is the first slot with room, if any.
pub proof fn lemma_fit_index(s: Seq<Slot>, size: usize)
    ensures
        0 <= fit_index(s, size) <= s.len(),
        forall|j: int| 0 <= j < fit_index(s, size) ==> #[trigger] s[j].r < size,
        fit_index(s, size) < s.len() ==> s[fit_index(s, size)].r >= size,
    decreases s.len(),
{
    if s.len() > 0 && s[0].r < size {
        let t = s.drop_first();
        lemma_fit_index(t, size);
        assert forall|j: int| 0 <= j < fit_index(s, size) implies #[trigger] s[j].r < size by {
            if j > 0 {
                assert(s[j] == t[j - 1]);
            }
        }
    }
}

/// `fit_row` is the first row with room, if any.
pub proof fn lemma_fit_row(rows: Seq<Seq<Slot>>, size: usize)
    ensures
        0 <= fit_row(rows, size) <= rows.len(),
        forall|y: int| 0 <= y < fit_row(rows, size) ==> fit_index(#[trigger] rows[y], size) == rows[y].len(),
        fit_row(rows, size) < rows.len() ==> fit_index(rows[fit_row(rows, size)], size) < rows[fit_row(rows, size)].len(),
    decreases rows.len(),
{
    if rows.len() > 0 && fit_index(rows[0], size) >= rows[0].len() {
        lemma_fit_index(rows[0], size);
        let t = rows.drop_first();
        lemma_fit_row(t, size);
        assert forall|y: int| 0 <= y < fit_row(rows, size) implies fit_index(#[trigger] rows[y], size) == rows[y].len() by {
            if y > 0 {
                assert(rows[y] == t[y - 1]);
            }
        }
    } else if rows.len() > 0 {
        lemma_fit_index(rows[0], size);
    }
}

/// The first row with room is `y`, and its first slot with room is `i`.
pub proof fn lemma_fit_found(rows: Seq<Seq<Slot>>, size: usize, y: int, i: int)
    requires
        0 <= y < rows.len(),
        0 <= i < rows[y].len(),
        rows[y][i].r >= size,
        forall|j: int| 0 <= j < i ==> #[trigger] rows[y][j].r < size,
        forall|y2: int, j: int| 0 <= y2 < y && 0 <= j < rows[y2].len() ==> #[trigger] rows[y2][j].r < size,
    ensures
        fit_row(rows, size) == y,
        fit_index(rows[y], size) == i,
{
    lemma_fit_row(rows, size);
    lemma_fit_index(rows[y], size);
    let f = fit_row(rows, size);
    if f < y {
        lemma_fit_index(rows[f], size);
        assert(rows[f][fit_index(rows[f], size)].r < size);
    } else if f > y {
        assert(fit_index(rows[y], size) == rows[y].len());
        assert(rows[y][i].r < size);
    }
    let k = fit_index(rows[y], size);
    if k < i {
        assert(rows[y][k].r < size);
    } else if k > i {
        assert(rows[y][i].r < size);
    }
}

/// No row has room: the first row with room is past the last one.
pub proof fn lemma_fit_none(rows: Seq<Seq<Slot>>, size: usize)
    requires
        forall|y: int, j: int| 0 <= y < rows.len() && 0 <= j < rows[y].len() ==> #[trigger] rows[y][j].r < size,
    ensures
        fit_row(rows, size) == rows.len(),
{
    lemma_fit_row(rows, size);
    let f = fit_row(rows, size);
    if f < rows.len() {
        lemma_fit_index(rows[f], size);
        assert(rows[f][fit_index(rows[f], size)].r < size);
    }
}

/// Every row `y` of `rows` is well formed for row `y` of a layout `width`
/// columns wide (ordered, starting in that row, not empty, within the width).
pub open spec fn rows_shape(rows: Seq<Seq<Slot>>, width: usize) -> bool {
    forall|y: int| 0 <= y < rows.len() ==> row_wf(#[trigger] rows[y], y, width as int)
}

/// Adding a slot of the row that ends within the width keeps the row well formed.
pub proof fn lemma_added_shape(s: Seq<Slot>, slot: Slot, y: int, width: int)
    requires
        row_wf(s, y, width),
        slot.y == y,
        slot.x + slot.r <= width,
    ensures
        row_wf(added(s, slot), y, width),
{
    lemma_x_index(s, slot.x);
    if slot.r > 0 {
        if x_index(s, slot.x) < s.len() {
            let i = x_index(s, slot.x);
            let t = s.update(i, grown(s[i], slot.r));
            assert forall|a: int, b: int| 0 <= a < b < t.len() implies #[trigger] t[a].x < #[trigger] t[b].x by {
                assert(s[a].x < s[b].x);
            }
        } else {
            lemma_right_index(s, slot.x);
            let p = right_index(s, slot.x);
            let t = s.insert(p, slot);
            assert forall|a: int, b: int| 0 <= a < b < t.len() implies #[trigger] t[a].x < #[trigger] t[b].x by {
                if b < p {
                    assert(s[a].x < s[b].x);
                } else if b == p {
                    assert(s[a].x <= slot.x);
                    assert(s[a].x != slot.x);
                } else if a > p {
                    assert(s[a - 1].x < s[b - 1].x);
                } else if a == p {
                    assert(s[b - 1].x >= s[p].x);
                } else {
                    assert(s[a].x <= slot.x);
                    assert(s[a].x != slot.x);
                    assert(s[b - 1].x >= s[p].x);
                }
            }
            assert forall|i: int| 0 <= i < t.len() implies (#[trigger] t[i]).y == y && t[i].r > 0
                && t[i].x + t[i].r <= width by {
                if i < p {
                    assert(t[i] == s[i]);
                } else if i > p {
                    assert(t[i] == s[i - 1]);
                }
            }
        }
    }
}

/// Removing a slot keeps the row well formed.
pub proof fn lemma_removed_shape(s: Seq<Slot>, x: usize, y: int, width: int)
    requires
        row_wf(s, y, width),
    ensures
        row_wf(removed(s, x), y, width),
{
    lemma_x_index(s, x);
    if x_index(s, x) < s.len() {
        let k = x_index(s, x);
        let t = s.remove(k);
        assert forall|a: int, b: int| 0 <= a < b < t.len() implies #[trigger] t[a].x < #[trigger] t[b].x by {
            let oa = if a < k { a } else { a + 1 };
            let ob = if b < k { b } else { b + 1 };
            assert(s[oa].x < s[ob].x);
        }
        assert forall|i: int| 0 <= i < t.len() implies (#[trigger] t[i]).y == y && t[i].r > 0
            && t[i].x + t[i].r <= width by {
            if i < k {
                assert(t[i] == s[i]);
            } else {
                assert(t[i] == s[i + 1]);
            }
        }
    }
}

/// Setting the side of the slot at column `x` to a side `r > 0` that ends
/// within the width keeps the row well formed.
pub proof fn lemma_resized_shape(s: Seq<Slot>, x: usize, r: usize, y: int, width: int)
    requires
        row_wf(s, y, width),
        r > 0,
        x + r <= width,
    ensures
        row_wf(resized_at(s, x, r), y, width),
{
    lemma_x_index(s, x);
    if x_index(s, x) < s.len() {
        let k = x_index(s, x);
        let t = s.update(k, resized(s[k], r));
        assert forall|a: int, b: int| 0 <= a < b < t.len() implies #[trigger] t[a].x < #[trigger] t[b].x by {
            assert(s[a].x < s[b].x);
        }
    }
}

/// Cutting colliding slots back to end at column `slot_x` keeps the row well formed.
pub proof fn lemma_cut_shape(s: Seq<Slot>, cs: Seq<(usize, usize)>, slot_x: usize, y: int, width: int)
    requires
        row_wf(s, y, width),
        slot_x <= width,
    ensures
        row_wf(cut(s, cs, slot_x), y, width),
    decreases cs.len(),
{
    if cs.len() > 0 {
        lemma_cut_shape(s, cs.drop_last(), slot_x, y, width);
        let t = cut(s, cs.drop_last(), slot_x);
        let cx = cs.last().0;
        if slot_x > cx {
            lemma_resized_shape(t, cx, (slot_x - cx) as usize, y, width);
        } else {
            lemma_removed_shape(t, cx, y, width);
        }
    }
}

/// Slots within the width stick out right of column `edge` by at most `width - edge`.
pub proof fn lemma_excess_bound(s: Seq<Slot>, lo: int, hi: int, edge: int, y: int, width: int)
    requires
        row_wf(s, y, width),
        edge <= width,
    ensures
        0 <= excess(s, lo, hi, edge) <= width - edge,
    decreases s.len(),
{
    if s.len() > 0 {
        let t = s.drop_last();
        assert forall|a: int, b: int| 0 <= a < b < t.len() implies #[trigger] t[a].x < #[trigger] t[b].x by {
            assert(s[a].x < s[b].x);
        }
        assert forall|i: int| 0 <= i < t.len() implies (#[trigger] t[i]).y == y && t[i].r > 0
            && t[i].x + t[i].r <= width by {
            assert(t[i] == s[i]);
        }
        lemma_excess_bound(t, lo, hi, edge, y, width);
        assert(s.last() == s[s.len() - 1]);
    }
}

/// A row the new square covers stays well formed.
pub proof fn lemma_span_row_shape(s: Seq<Slot>, row_y: usize, width: usize, slot_x: usize, slot_r: usize, sq_size: usize)
    requires
        row_wf(s, row_y as int, width as int),
        sq_size <= slot_r,
        slot_x + slot_r <= width,
    ensures
        row_wf(span_row(s, row_y, width, slot_x, slot_r, sq_size), row_y as int, width as int),
{
    let sq_right = slot_x + sq_size;
    let r = rhs_side(s, slot_x as int, slot_r as int, sq_size as int);
    lemma_excess_bound(s, slot_x as int, sq_right, slot_x + slot_r, row_y as int, width as int);
    if sq_right < width && !has_x(s, sq_right as usize) && r > 0 {
        lemma_added_shape(s, Slot { x: sq_right as usize, y: row_y, r: r as usize }, row_y as int, width as int);
    }
    lemma_cut_shape(
        with_rhs(s, row_y, width, slot_x, slot_r, sq_size),
        collisions(s, slot_x as int, slot_x + sq_size),
        slot_x,
        row_y as int,
        width as int,
    );
}

/// A row opened for the new square is well formed.
pub proof fn lemma_fresh_row_shape(row_y: usize, width: usize, slot_x: usize, sq_size: usize)
    requires
        slot_x <= width,
    ensures
        row_wf(fresh_row(row_y, width, slot_x, sq_size), row_y as int, width as int),
{
    let e = Seq::<Slot>::empty();
    let s1 = if slot_x > 0 {
        lemma_added_shape(e, Slot { x: 0, y: row_y, r: slot_x }, row_y as int, width as int);
        added(e, Slot { x: 0, y: row_y, r: slot_x })
    } else {
        e
    };
    if slot_x + sq_size < width {
        lemma_added_shape(
            s1,
            Slot { x: (slot_x + sq_size) as usize, y: row_y, r: (width - slot_x - sq_size) as usize },
            row_y as int,
            width as int,
        );
    }
}

/// The slots of a well-formed row that reach down to row `slot_y`: within the
/// width, and reaching at least to row `slot_y`.
pub proof fn lemma_entries_bounds(s: Seq<Slot>, lo: int, hi: int, slot_y: int, row_y: int, width: int)
    requires
        row_wf(s, row_y, width),
    ensures
        forall|k: int| 0 <= k < entries(s, lo, hi, slot_y).len() ==> {
            let e = #[trigger] entries(s, lo, hi, slot_y)[k];
            &&& e.0 + e.1 <= width
            &&& row_y + e.1 >= slot_y
        },
    decreases s.len(),
{
    if s.len() > 0 {
        let t = s.drop_last();
        assert forall|a: int, b: int| 0 <= a < b < t.len() implies #[trigger] t[a].x < #[trigger] t[b].x by {
            assert(s[a].x < s[b].x);
        }
        assert forall|i: int| 0 <= i < t.len() implies (#[trigger] t[i]).y == row_y && t[i].r > 0
            && t[i].x + t[i].r <= width by {
            assert(t[i] == s[i]);
        }
        lemma_entries_bounds(t, lo, hi, slot_y, row_y, width);
        assert(s.last() == s[s.len() - 1]);
        let es = entries(s, lo, hi, slot_y);
        let et = entries(t, lo, hi, slot_y);
        assert forall|k: int| 0 <= k < es.len() implies {
            let e = #[trigger] es[k];
            &&& e.0 + e.1 <= width
            &&& row_y + e.1 >= slot_y
        } by {
            if k < et.len() {
                assert(es[k] == et[k]);
            }
        }
    }
}

/// Every step of the staircase is a square of side at least 1 inside the
/// `w` x `h` rectangle at `(x, y)`.
pub proof fn lemma_staircase_bounds(x: usize, y: usize, w: usize, h: usize)
    requires
        x + w <= usize::MAX,
        y + h <= usize::MAX,
    ensures
        forall|k: int| 0 <= k < staircase(x, y, w, h).len() ==> {
            let p = #[trigger] staircase(x, y, w, h)[k];
            &&& p.r > 0
            &&& x <= p.x
            &&& p.x + p.r <= x + w
            &&& y <= p.y
            &&& p.y + p.r <= y + h
        },
    decreases w + h,
{
    if w > 0 && h > 0 {
        if w <= h {
            lemma_staircase_bounds(x, (y + w) as usize, w, (h - w) as usize);
            let rest = staircase(x, (y + w) as usize, w, (h - w) as usize);
            assert forall|k: int| 0 <= k < staircase(x, y, w, h).len() implies {
                let p = #[trigger] staircase(x, y, w, h)[k];
                &&& p.r > 0
                &&& x <= p.x
                &&& p.x + p.r <= x + w
                &&& y <= p.y
                &&& p.y + p.r <= y + h
            } by {
                if k > 0 {
                    assert(staircase(x, y, w, h)[k] == rest[k - 1]);
                }
            }
        } else {
            lemma_staircase_bounds((x + h) as usize, y, (w - h) as usize, h);
            let rest = staircase((x + h) as usize, y, (w - h) as usize, h);
            assert forall|k: int| 0 <= k < staircase(x, y, w, h).len() implies {
                let p = #[trigger] staircase(x, y, w, h)[k];
                &&& p.r > 0
                &&& x <= p.x
                &&& p.x + p.r <= x + w
                &&& y <= p.y
                &&& p.y + p.r <= y + h
            } by {
                if k > 0 {
                    assert(staircase(x, y, w, h)[k] == rest[k - 1]);
                }
            }
        }
    }
}

/// Adding pieces that end within the width keeps the rows well formed.
pub proof fn lemma_add_pieces_shape(rows: Seq<Seq<Slot>>, ps: Seq<Slot>, width: usize)
    requires
        rows_shape(rows, width),
        forall|k: int| 0 <= k < ps.len() ==> (#[trigger] ps[k]).x + ps[k].r <= width,
    ensures
        rows_shape(add_pieces(rows, ps), width),
        add_pieces(rows, ps).len() == rows.len(),
    decreases ps.len(),
{
    if ps.len() > 0 {
        let q = ps.drop_last();
        assert forall|k: int| 0 <= k < q.len() implies (#[trigger] q[k]).x + q[k].r <= width by {
            assert(q[k] == ps[k]);
        }
        lemma_add_pieces_shape(rows, q, width);
        let r = add_pieces(rows, q);
        let p = ps.last();
        assert(p == ps[ps.len() - 1]);
        if p.y < r.len() {
            lemma_added_shape(r[p.y as int], p, p.y as int, width as int);
            let r2 = r.update(p.y as int, added(r[p.y as int], p));
            assert forall|y: int| 0 <= y < r2.len() implies row_wf(#[trigger] r2[y], y, width as int) by {
                if y != p.y {
                    assert(r2[y] == r[y]);
                }
            }
        }
    }
}

/// Handling the entries of row `row_y` keeps the rows well formed.
pub proof fn lemma_entries_fold_shape(rows: Seq<Seq<Slot>>, row_y: usize, es: Seq<(usize, usize)>, slot_y: usize, width: usize)
    requires
        rows_shape(rows, width),
        row_y < rows.len(),
        forall|k: int| 0 <= k < es.len() ==> (#[trigger] es[k]).0 + es[k].1 <= width && row_y + es[k].1 >= slot_y,
    ensures
        rows_shape(entries_fold(rows, row_y, es, slot_y), width),
        entries_fold(rows, row_y, es, slot_y).len() == rows.len(),
    decreases es.len(),
{
    if es.len() > 0 {
        let q = es.drop_last();
        assert forall|k: int| 0 <= k < q.len() implies (#[trigger] q[k]).0 + q[k].1 <= width && row_y + q[k].1 >= slot_y by {
            assert(q[k] == es[k]);
        }
        lemma_entries_fold_shape(rows, row_y, q, slot_y, width);
        let r = entries_fold(rows, row_y, q, slot_y);
        let e = es.last();
        assert(e == es[es.len() - 1]);
        let new_r: usize = if slot_y > row_y { (slot_y - row_y) as usize } else { 0 };
        if new_r > 0 {
            lemma_resized_shape(r[row_y as int], e.0, new_r, row_y as int, width as int);
            let r1 = r.update(row_y as int, resized_at(r[row_y as int], e.0, new_r));
            assert forall|y: int| 0 <= y < r1.len() implies row_wf(#[trigger] r1[y], y, width as int) by {
                if y != row_y {
                    assert(r1[y] == r[y]);
                }
            }
            let w: usize = if e.1 > new_r { (e.1 - new_r) as usize } else { 0 };
            lemma_staircase_bounds((e.0 + new_r) as usize, row_y, w, new_r);
            let ps = staircase((e.0 + new_r) as usize, row_y, w, new_r);
            assert forall|k: int| 0 <= k < ps.len() implies (#[trigger] ps[k]).x + ps[k].r <= width by {
                assert(ps[k].x + ps[k].r <= e.0 + new_r + w);
            }
            lemma_add_pieces_shape(r1, ps, width);
        } else {
            lemma_removed_shape(r[row_y as int], e.0, row_y as int, width as int);
            let r1 = r.update(row_y as int, removed(r[row_y as int], e.0));
            assert forall|y: int| 0 <= y < r1.len() implies row_wf(#[trigger] r1[y], y, width as int) by {
                if y != row_y {
                    assert(r1[y] == r[y]);
                }
            }
        }
    }
}

/// Trimming the rows `[from, to)` keeps the rows well formed.
pub proof fn lemma_window_shape(rows: Seq<Seq<Slot>>, from: int, to: int, slot_x: usize, slot_y: usize, sq_size: usize, width: usize)
    requires
        rows_shape(rows, width),
        0 <= from,
        to <= rows.len(),
    ensures
        rows_shape(window(rows, from, to, slot_x, slot_y, sq_size), width),
        window(rows, from, to, slot_x, slot_y, sq_size).len() == rows.len(),
    decreases to - from,
{
    if to > from {
        lemma_window_shape(rows, from, to - 1, slot_x, slot_y, sq_size, width);
        let r = window(rows, from, to - 1, slot_x, slot_y, sq_size);
        let row_y = (to - 1) as usize;
        lemma_entries_bounds(r[row_y as int], slot_x as int, slot_x + sq_size, slot_y as int, row_y as int, width as int);
        lemma_entries_fold_shape(r, row_y, entries(r[row_y as int], slot_x as int, slot_x + sq_size, slot_y as int), slot_y, width);
    }
}

/// Placing a square of side `sq_size` on a slot of side `slot_r >= sq_size`
/// that ends within the width keeps every row well formed: ordered by column,
/// starting in its own row, not empty, within the width.
pub proof fn lemma_filled_rows_shape(
    rows: Seq<Seq<Slot>>,
    width: usize,
    slot_x: usize,
    slot_y: usize,
    slot_r: usize,
    sq_size: usize,
)
    requires
        rows_shape(rows, width),
        slot_y <= rows.len(),
        sq_size <= slot_r,
        slot_x + slot_r <= width,
        slot_y + sq_size <= usize::MAX,
    ensures
        rows_shape(filled_rows(rows, width, slot_x, slot_y, slot_r, sq_size), width),
{
    lemma_spanned_rows_shape(rows, width, slot_x, slot_y, slot_r, sq_size);
    let sp = spanned_rows(rows, slot_y + sq_size, width, slot_x, slot_y, slot_r, sq_size);
    lemma_window_shape(sp, check_from(slot_y, sq_size), slot_y as int, slot_x, slot_y, sq_size, width);
}

/// Cutting the rows around a square of side `sq_size` placed on a slot of
/// side `slot_r >= sq_size` that ends within the width, and opening the rows
/// it needs, keeps every row well formed.
pub proof fn lemma_spanned_rows_shape(
    rows: Seq<Seq<Slot>>,
    width: usize,
    slot_x: usize,
    slot_y: usize,
    slot_r: usize,
    sq_size: usize,
)
    requires
        rows_shape(rows, width),
        sq_size <= slot_r,
        slot_x + slot_r <= width,
        slot_y + sq_size <= usize::MAX,
    ensures
        rows_shape(spanned_rows(rows, slot_y + sq_size, width, slot_x, slot_y, slot_r, sq_size), width),
{
    let sp = spanned_rows(rows, slot_y + sq_size, width, slot_x, slot_y, slot_r, sq_size);
    assert forall|y: int| 0 <= y < sp.len() implies row_wf(#[trigger] sp[y], y, width as int) by {
        if y < rows.len() {
            let b = if y == slot_y { removed(rows[y], slot_x) } else { rows[y] };
            lemma_removed_shape(rows[y], slot_x, y, width as int);
            assert(row_wf(b, y, width as int));
            if slot_y <= y < slot_y + sq_size {
                lemma_span_row_shape(b, y as usize, width, slot_x, slot_r, sq_size);
            }
        } else {
            lemma_fresh_row_shape(y as usize, width, slot_x, sq_size);
        }
    }
}

/// A first-fit placement of a square of side `1..=width` keeps every row well formed.
pub proof fn lemma_placement_shape(rows: Seq<Seq<Slot>>, width: usize, size: usize)
    requires
        rows_shape(rows, width),
        1 <= size <= width,
        rows.len() + size <= usize::MAX,
    ensures
        rows_shape(placement(rows, width, size).1, width),
        placement(rows, width, size).0.r == size,
        placement(rows, width, size).0.x + size <= width,
{
    lemma_fit_row(rows, size);
    let y = fit_row(rows, size);
    if y < rows.len() {
        lemma_fit_index(rows[y], size);
        let s = rows[y][fit_index(rows[y], size)];
        assert(row_wf(rows[y], y, width as int));
        lemma_filled_rows_shape(rows, width, s.x, s.y, s.r, size);
    } else {
        let ny = rows.len() as usize;
        let full = Slot { x: 0, y: ny, r: width };
        lemma_added_shape(Seq::empty(), full, ny as int, width as int);
        let rows1 = rows.push(added(Seq::empty(), full));
        assert forall|yy: int| 0 <= yy < rows1.len() implies row_wf(#[trigger] rows1[yy], yy, width as int) by {
            if yy < rows.len() {
                assert(rows1[yy] == rows[yy]);
            } else {
                assert(rows1[yy] == added(Seq::empty(), full));
            }
        }
        lemma_filled_rows_shape(rows1, width, 0, ny, width, size);
    }
}

} // verus!
