//! What stays free when a square is placed: the cells that the free slots
//! cover, before and after each step of a placement.

use vstd::prelude::*;
use crate::geometry::row_wf;
use crate::row::{
    Slot, added, grown, has_x, sorted_by_x, lemma_first_x_is_x_index, lemma_right_index, lemma_x_index, removed,
    resized, resized_at, right_index, x_index,
};
use crate::reshape::{
    add_pieces, check_from, collisions, fit_index, fit_row, lemma_fit_index, lemma_fit_row, placement, cut, entries, entries_fold, entry_step, excess, filled_rows, fresh_row,
    lemma_add_pieces_shape, lemma_added_shape, lemma_cut_shape, lemma_entries_bounds, lemma_entries_fold_shape, lemma_excess_bound, lemma_removed_shape,
    lemma_resized_shape, lemma_spanned_rows_shape, lemma_window_shape, lemma_staircase_bounds, rhs_side,
    rows_shape, span_row, spanned_rows, spans_into, staircase, trim_row, window, with_rhs,
};

verus! {

/// Slot `s` covers the cell at column `cx`, row `cy`.
pub open spec fn slot_covers(s: Slot, cx: int, cy: int) -> bool {
    &&& s.x <= cx < s.x + s.r
    &&& s.y <= cy < s.y + s.r
}

/// Some slot of the row covers the cell.
pub open spec fn row_covers(row: Seq<Slot>, cx: int, cy: int) -> bool {
    exists|i: int| 0 <= i < row.len() && slot_covers(#[trigger] row[i], cx, cy)
}

/// Some slot of some row covers the cell: the cell is free.
pub open spec fn rows_cover(rows: Seq<Seq<Slot>>, cx: int, cy: int) -> bool {
    exists|y: int| 0 <= y < rows.len() && row_covers(#[trigger] rows[y], cx, cy)
}

/// Adding a slot to a row keeps every cell that the row covered covered.
pub proof fn lemma_added_keeps_cells(s: Seq<Slot>, p: Slot, cx: int, cy: int)
    requires
        row_covers(s, cx, cy),
    ensures
        row_covers(added(s, p), cx, cy),
{
    let i = choose|i: int| 0 <= i < s.len() && slot_covers(#[trigger] s[i], cx, cy);
    lemma_x_index(s, p.x);
    if p.r > 0 {
        let k = x_index(s, p.x);
        if k < s.len() {
            let t = s.update(k, grown(s[k], p.r));
            assert(slot_covers(t[i], cx, cy));
        } else {
            lemma_right_index(s, p.x);
            let j = right_index(s, p.x);
            let t = s.insert(j, p);
            if i < j {
                assert(t[i] == s[i]);
                assert(slot_covers(t[i], cx, cy));
            } else {
                assert(t[i + 1] == s[i]);
                assert(slot_covers(t[i + 1], cx, cy));
            }
        }
    }
}

/// Adding a slot to a row whose slots all start in the slot's row makes the
/// row cover every cell of the slot.
pub proof fn lemma_added_covers_slot(s: Seq<Slot>, p: Slot, cx: int, cy: int)
    requires
        forall|i: int| 0 <= i < s.len() ==> (#[trigger] s[i]).y == p.y,
        slot_covers(p, cx, cy),
    ensures
        row_covers(added(s, p), cx, cy),
{
    lemma_x_index(s, p.x);
    let k = x_index(s, p.x);
    if k < s.len() {
        let t = s.update(k, grown(s[k], p.r));
        assert(s[k].y == p.y);
        assert(slot_covers(t[k], cx, cy));
    } else {
        lemma_right_index(s, p.x);
        let j = right_index(s, p.x);
        let t = s.insert(j, p);
        assert(t[j] == p);
    }
}

/// Adding slots to the rows keeps every free cell free.
pub proof fn lemma_add_pieces_keeps_cells(rows: Seq<Seq<Slot>>, ps: Seq<Slot>, cx: int, cy: int)
    requires
        rows_cover(rows, cx, cy),
    ensures
        rows_cover(add_pieces(rows, ps), cx, cy),
        add_pieces(rows, ps).len() == rows.len(),
    decreases ps.len(),
{
    if ps.len() > 0 {
        lemma_add_pieces_keeps_cells(rows, ps.drop_last(), cx, cy);
        let r = add_pieces(rows, ps.drop_last());
        let p = ps.last();
        if p.y < r.len() {
            let y = choose|y: int| 0 <= y < r.len() && row_covers(#[trigger] r[y], cx, cy);
            let r2 = r.update(p.y as int, added(r[p.y as int], p));
            if y == p.y {
                lemma_added_keeps_cells(r[y], p, cx, cy);
                assert(row_covers(r2[y], cx, cy));
            } else {
                assert(r2[y] == r[y]);
            }
        }
    }
}

/// Adding slots within the width to well-formed rows makes every cell of each
/// slot that lands in an existing row free.
pub proof fn lemma_add_pieces_covers_piece(
    rows: Seq<Seq<Slot>>,
    ps: Seq<Slot>,
    width: usize,
    k: int,
    cx: int,
    cy: int,
)
    requires
        rows_shape(rows, width),
        forall|j: int| 0 <= j < ps.len() ==> (#[trigger] ps[j]).x + ps[j].r <= width,
        0 <= k < ps.len(),
        ps[k].y < rows.len(),
        slot_covers(ps[k], cx, cy),
    ensures
        rows_cover(add_pieces(rows, ps), cx, cy),
    decreases ps.len(),
{
    let q = ps.drop_last();
    assert forall|j: int| 0 <= j < q.len() implies (#[trigger] q[j]).x + q[j].r <= width by {
        assert(q[j] == ps[j]);
    }
    lemma_add_pieces_shape(rows, q, width);
    let r = add_pieces(rows, q);
    let p = ps.last();
    let r2 = r.update(p.y as int, added(r[p.y as int], p));
    if k == ps.len() - 1 {
        assert(p == ps[k]);
        assert(row_wf(r[p.y as int], p.y as int, width as int));
        lemma_added_covers_slot(r[p.y as int], p, cx, cy);
        assert(row_covers(r2[p.y as int], cx, cy));
    } else {
        assert(q[k] == ps[k]);
        lemma_add_pieces_covers_piece(rows, q, width, k, cx, cy);
        if p.y < r.len() {
            let y = choose|y: int| 0 <= y < r.len() && row_covers(#[trigger] r[y], cx, cy);
            if y == p.y {
                lemma_added_keeps_cells(r[y], p, cx, cy);
                assert(row_covers(r2[y], cx, cy));
            } else {
                assert(r2[y] == r[y]);
            }
        }
    }
}

/// The staircase covers every cell of the `w` x `h` rectangle at `(x, y)`.
pub proof fn lemma_staircase_covers(x: usize, y: usize, w: usize, h: usize, cx: int, cy: int)
    requires
        x + w <= usize::MAX,
        y + h <= usize::MAX,
        x <= cx < x + w,
        y <= cy < y + h,
    ensures
        exists|k: int| 0 <= k < staircase(x, y, w, h).len() && slot_covers(#[trigger] staircase(x, y, w, h)[k], cx, cy),
    decreases w + h,
{
    let st = staircase(x, y, w, h);
    if w <= h {
        let rest = staircase(x, (y + w) as usize, w, (h - w) as usize);
        if cy < y + w {
            assert(slot_covers(st[0], cx, cy));
        } else {
            lemma_staircase_covers(x, (y + w) as usize, w, (h - w) as usize, cx, cy);
            let k = choose|k: int| 0 <= k < rest.len() && slot_covers(#[trigger] rest[k], cx, cy);
            assert(st[k + 1] == rest[k]);
        }
    } else {
        let rest = staircase((x + h) as usize, y, (w - h) as usize, h);
        if cx < x + h {
            assert(slot_covers(st[0], cx, cy));
        } else {
            lemma_staircase_covers((x + h) as usize, y, (w - h) as usize, h, cx, cy);
            let k = choose|k: int| 0 <= k < rest.len() && slot_covers(#[trigger] rest[k], cx, cy);
            assert(st[k + 1] == rest[k]);
        }
    }
}

/// Cutting back a slot of row `row_y` that reaches down to row `slot_y`, where
/// a new square starts, keeps free every cell of it above row `slot_y`: the
/// part left of the cut stays in the slot, the part right of the cut is handed
/// out again as a staircase.
pub proof fn lemma_entry_step_keeps_cells(
    rows: Seq<Seq<Slot>>,
    width: usize,
    row_y: usize,
    i: int,
    slot_y: usize,
    cx: int,
    cy: int,
)
    requires
        rows_shape(rows, width),
        row_y < slot_y <= rows.len(),
        0 <= i < rows[row_y as int].len(),
        row_y + rows[row_y as int][i].r >= slot_y,
        slot_covers(rows[row_y as int][i], cx, cy),
        cy < slot_y,
    ensures
        rows_cover(entry_step(rows, row_y, (rows[row_y as int][i].x, rows[row_y as int][i].r), slot_y), cx, cy),
{
    let s = rows[row_y as int];
    let t = s[i];
    assert(row_wf(s, row_y as int, width as int));
    let new_r = (slot_y - row_y) as usize;
    assert forall|j: int| 0 <= j < i implies #[trigger] s[j].x != t.x by {
        assert(s[j].x < s[i].x);
    }
    lemma_first_x_is_x_index(s, t.x, i);
    lemma_resized_shape(s, t.x, new_r, row_y as int, width as int);
    let s1 = resized_at(s, t.x, new_r);
    let rows1 = rows.update(row_y as int, s1);
    assert forall|y: int| 0 <= y < rows1.len() implies row_wf(#[trigger] rows1[y], y, width as int) by {
        if y != row_y {
            assert(rows1[y] == rows[y]);
        }
    }
    let w: usize = if t.r > new_r { (t.r - new_r) as usize } else { 0 };
    let px = (t.x + new_r) as usize;
    let ps = staircase(px, row_y, w, new_r);
    lemma_staircase_bounds(px, row_y, w, new_r);
    assert forall|k: int| 0 <= k < ps.len() implies (#[trigger] ps[k]).x + ps[k].r <= width by {}
    if cx < t.x + new_r {
        assert(s1[i] == resized(t, new_r));
        assert(slot_covers(s1[i], cx, cy));
        assert(row_covers(rows1[row_y as int], cx, cy));
        lemma_add_pieces_keeps_cells(rows1, ps, cx, cy);
    } else {
        lemma_staircase_covers(px, row_y, w, new_r, cx, cy);
        let k = choose|k: int| 0 <= k < ps.len() && slot_covers(#[trigger] ps[k], cx, cy);
        lemma_add_pieces_covers_piece(rows1, ps, width, k, cx, cy);
    }
}

/// How far cut slots stick out right of `edge` is never negative.
pub proof fn lemma_excess_nonneg(s: Seq<Slot>, lo: int, hi: int, edge: int)
    ensures
        excess(s, lo, hi, edge) >= 0,
    decreases s.len(),
{
    if s.len() > 0 {
        lemma_excess_nonneg(s.drop_last(), lo, hi, edge);
    }
}

/// Every slot that reaches into `[lo, hi)` sticks out right of `edge` by at
/// most the excess.
pub proof fn lemma_excess_at_least(s: Seq<Slot>, lo: int, hi: int, edge: int, i: int)
    requires
        0 <= i < s.len(),
        spans_into(s[i], lo, hi),
    ensures
        excess(s, lo, hi, edge) >= s[i].x + s[i].r - edge,
    decreases s.len(),
{
    let t = s.drop_last();
    lemma_excess_nonneg(t, lo, hi, edge);
    if i < s.len() - 1 {
        assert(t[i] == s[i]);
        lemma_excess_at_least(t, lo, hi, edge, i);
    }
}

/// Every colliding slot starts left of `hi`.
pub proof fn lemma_collisions_left_of(s: Seq<Slot>, lo: int, hi: int)
    ensures
        forall|k: int| 0 <= k < collisions(s, lo, hi).len() ==> (#[trigger] collisions(s, lo, hi)[k]).0 < hi,
    decreases s.len(),
{
    if s.len() > 0 {
        let t = s.drop_last();
        lemma_collisions_left_of(t, lo, hi);
        let c = collisions(s, lo, hi);
        let ct = collisions(t, lo, hi);
        assert forall|k: int| 0 <= k < c.len() implies (#[trigger] c[k]).0 < hi by {
            if k < ct.len() {
                assert(c[k] == ct[k]);
            }
        }
    }
}

/// Removing the slot at column `x` keeps every slot that starts elsewhere.
pub proof fn lemma_removed_keeps(s: Seq<Slot>, x: usize, q: Slot)
    requires
        s.contains(q),
        q.x != x,
    ensures
        removed(s, x).contains(q),
{
    let i = choose|i: int| 0 <= i < s.len() && s[i] == q;
    lemma_x_index(s, x);
    let k = x_index(s, x);
    if k < s.len() {
        let t = s.remove(k);
        if i < k {
            assert(t[i] == q);
        } else {
            assert(t[i - 1] == q);
        }
    } else {
        assert(s[i] == q);
    }
}

/// Resizing the slot at column `x` keeps every slot that starts elsewhere.
pub proof fn lemma_resized_keeps(s: Seq<Slot>, x: usize, r: usize, q: Slot)
    requires
        s.contains(q),
        q.x != x,
    ensures
        resized_at(s, x, r).contains(q),
{
    let i = choose|i: int| 0 <= i < s.len() && s[i] == q;
    lemma_x_index(s, x);
    let k = x_index(s, x);
    if k < s.len() {
        let t = s.update(k, resized(s[k], r));
        assert(t[i] == q);
    } else {
        assert(s[i] == q);
    }
}

/// Cutting the colliding slots keeps every slot that starts at none of their columns.
pub proof fn lemma_cut_keeps(s: Seq<Slot>, cs: Seq<(usize, usize)>, slot_x: usize, q: Slot)
    requires
        s.contains(q),
        forall|k: int| 0 <= k < cs.len() ==> (#[trigger] cs[k]).0 != q.x,
    ensures
        cut(s, cs, slot_x).contains(q),
    decreases cs.len(),
{
    if cs.len() > 0 {
        let d = cs.drop_last();
        assert forall|k: int| 0 <= k < d.len() implies (#[trigger] d[k]).0 != q.x by {
            assert(d[k] == cs[k]);
        }
        lemma_cut_keeps(s, d, slot_x, q);
        let t = cut(s, d, slot_x);
        let cx = cs.last().0;
        assert(cs.last() == cs[cs.len() - 1]);
        if slot_x > cx {
            lemma_resized_keeps(t, cx, (slot_x - cx) as usize, q);
        } else {
            lemma_removed_keeps(t, cx, q);
        }
    }
}

/// Cutting a row around a new square of side `sq_size` placed at column
/// `slot_x` on a slot of side `slot_r` keeps free every cell of that row right
/// of the square that the filled slot or a slot cut by the square covered: the
/// slot opened right of the square reaches as far right as the furthest of them.
pub proof fn lemma_span_row_keeps_right_cells(
    s: Seq<Slot>,
    row_y: usize,
    width: usize,
    slot_x: usize,
    slot_r: usize,
    sq_size: usize,
    cx: int,
)
    requires
        row_wf(s, row_y as int, width as int),
        sq_size <= slot_r,
        slot_x + slot_r <= width,
        slot_x + sq_size < width,
        !has_x(s, (slot_x + sq_size) as usize),
        slot_x + sq_size <= cx,
        cx < slot_x + slot_r || exists|i: int|
            0 <= i < s.len() && spans_into(#[trigger] s[i], slot_x as int, slot_x + sq_size) && cx < s[i].x + s[i].r,
    ensures
        row_covers(span_row(s, row_y, width, slot_x, slot_r, sq_size), cx, row_y as int),
{
    let sq_right = slot_x + sq_size;
    let edge = slot_x + slot_r;
    let ex = excess(s, slot_x as int, sq_right, edge);
    lemma_excess_bound(s, slot_x as int, sq_right, edge, row_y as int, width as int);
    let r = rhs_side(s, slot_x as int, slot_r as int, sq_size as int);
    assert(r == slot_r - sq_size + ex);
    if !(cx < edge) {
        let i = choose|i: int|
            0 <= i < s.len() && spans_into(#[trigger] s[i], slot_x as int, sq_right) && cx < s[i].x + s[i].r;
        lemma_excess_at_least(s, slot_x as int, sq_right, edge, i);
    }
    assert(cx < sq_right + r);
    let rs = Slot { x: sq_right as usize, y: row_y, r: r as usize };
    lemma_x_index(s, rs.x);
    lemma_right_index(s, rs.x);
    let p = right_index(s, rs.x);
    let w = s.insert(p, rs);
    assert(with_rhs(s, row_y, width, slot_x, slot_r, sq_size) == w);
    assert(w[p] == rs);
    assert(w.contains(rs));
    lemma_collisions_left_of(s, slot_x as int, sq_right);
    let cs = collisions(s, slot_x as int, sq_right);
    lemma_cut_keeps(w, cs, slot_x, rs);
    let c = cut(w, cs, slot_x);
    let j = choose|j: int| 0 <= j < c.len() && c[j] == rs;
    assert(slot_covers(c[j], cx, row_y as int));
}

/// A row opened for a new square is free everywhere within the width but
/// under the square: a slot covers it left of the square (when the square does
/// not start at column 0) and another right of it (when it does not end at the
/// width).
pub proof fn lemma_fresh_row_cells(row_y: usize, width: usize, slot_x: usize, sq_size: usize, cx: int)
    requires
        slot_x + sq_size <= width,
        0 <= cx < width,
        cx < slot_x || slot_x + sq_size <= cx,
    ensures
        row_covers(fresh_row(row_y, width, slot_x, sq_size), cx, row_y as int),
{
    let e = Seq::<Slot>::empty();
    let left = Slot { x: 0, y: row_y, r: slot_x };
    let right = Slot { x: (slot_x + sq_size) as usize, y: row_y, r: (width - slot_x - sq_size) as usize };
    let s1 = if slot_x > 0 { added(e, left) } else { e };
    if slot_x > 0 {
        assert(s1 =~= seq![left]);
    }
    assert forall|i: int| 0 <= i < s1.len() implies (#[trigger] s1[i]).y == row_y by {}
    if cx < slot_x {
        lemma_added_covers_slot(e, left, cx, row_y as int);
        if slot_x + sq_size < width {
            lemma_added_keeps_cells(s1, right, cx, row_y as int);
        }
    } else {
        lemma_added_covers_slot(s1, right, cx, row_y as int);
    }
}

/// Every step of the staircase starts in one of the rows `[y, y + h)`.
pub proof fn lemma_staircase_rows(x: usize, y: usize, w: usize, h: usize)
    requires
        y + h <= usize::MAX,
    ensures
        forall|k: int| 0 <= k < staircase(x, y, w, h).len() ==> {
            let p = #[trigger] staircase(x, y, w, h)[k];
            &&& y <= p.y < y + h
            &&& p.r <= h
        },
    decreases w + h,
{
    let st = staircase(x, y, w, h);
    if w > 0 && h > 0 {
        if w <= h {
            let rest = staircase(x, (y + w) as usize, w, (h - w) as usize);
            lemma_staircase_rows(x, (y + w) as usize, w, (h - w) as usize);
            assert forall|k: int| 0 <= k < st.len() implies y <= (#[trigger] st[k]).y < y + h && st[k].r <= h by {
                if k > 0 {
                    assert(st[k] == rest[k - 1]);
                }
            }
        } else {
            let rest = staircase((x + h) as usize, y, (w - h) as usize, h);
            lemma_staircase_rows((x + h) as usize, y, (w - h) as usize, h);
            assert forall|k: int| 0 <= k < st.len() implies y <= (#[trigger] st[k]).y < y + h && st[k].r <= h by {
                if k > 0 {
                    assert(st[k] == rest[k - 1]);
                }
            }
        }
    }
}

/// Adding slots that start in other rows leaves row `y` as it was.
pub proof fn lemma_add_pieces_keeps_row(rows: Seq<Seq<Slot>>, ps: Seq<Slot>, y: int)
    requires
        forall|k: int| 0 <= k < ps.len() ==> (#[trigger] ps[k]).y != y,
    ensures
        add_pieces(rows, ps).len() == rows.len(),
        0 <= y < rows.len() ==> add_pieces(rows, ps)[y] == rows[y],
    decreases ps.len(),
{
    if ps.len() > 0 {
        let q = ps.drop_last();
        assert forall|k: int| 0 <= k < q.len() implies (#[trigger] q[k]).y != y by {
            assert(q[k] == ps[k]);
        }
        lemma_add_pieces_keeps_row(rows, q, y);
        assert(ps.last() == ps[ps.len() - 1]);
    }
}

/// Trimming row `row_y` above a square that starts at row `slot_y` leaves the
/// rows from `slot_y` on as they were.
pub proof fn lemma_entries_fold_keeps_row(
    rows: Seq<Seq<Slot>>,
    row_y: usize,
    es: Seq<(usize, usize)>,
    slot_y: usize,
    y: int,
)
    requires
        row_y < slot_y <= y < rows.len(),
    ensures
        entries_fold(rows, row_y, es, slot_y).len() == rows.len(),
        entries_fold(rows, row_y, es, slot_y)[y] == rows[y],
    decreases es.len(),
{
    if es.len() > 0 {
        lemma_entries_fold_keeps_row(rows, row_y, es.drop_last(), slot_y, y);
        let r = entries_fold(rows, row_y, es.drop_last(), slot_y);
        let e = es.last();
        let new_r = (slot_y - row_y) as usize;
        let rows1 = r.update(row_y as int, resized_at(r[row_y as int], e.0, new_r));
        let w: usize = if e.1 > new_r { (e.1 - new_r) as usize } else { 0 };
        lemma_staircase_rows((e.0 + new_r) as usize, row_y, w, new_r);
        lemma_add_pieces_keeps_row(rows1, staircase((e.0 + new_r) as usize, row_y, w, new_r), y);
    }
}

/// Trimming the rows above a square that starts at row `slot_y` leaves the
/// rows from `slot_y` on as they were.
pub proof fn lemma_window_keeps_row(
    rows: Seq<Seq<Slot>>,
    from: int,
    to: int,
    slot_x: usize,
    slot_y: usize,
    sq_size: usize,
    y: int,
)
    requires
        0 <= from,
        to <= slot_y <= y < rows.len(),
    ensures
        window(rows, from, to, slot_x, slot_y, sq_size).len() == rows.len(),
        window(rows, from, to, slot_x, slot_y, sq_size)[y] == rows[y],
    decreases to - from,
{
    if to > from {
        lemma_window_keeps_row(rows, from, to - 1, slot_x, slot_y, sq_size, y);
        let r = window(rows, from, to - 1, slot_x, slot_y, sq_size);
        let row_y = (to - 1) as usize;
        lemma_entries_fold_keeps_row(
            r,
            row_y,
            entries(r[row_y as int], slot_x as int, slot_x + sq_size, slot_y as int),
            slot_y,
            y,
        );
    }
}

/// A row opened below the existing rows for a new square of side `sq_size`
/// at column `slot_x` is free, once the square is placed, everywhere within
/// the width but under the square: in particular a slot at column 0 of side
/// `slot_x` covers it left of the square.
pub proof fn lemma_opened_row_cells(
    rows: Seq<Seq<Slot>>,
    width: usize,
    slot_x: usize,
    slot_y: usize,
    slot_r: usize,
    sq_size: usize,
    y: int,
    cx: int,
)
    requires
        slot_y <= rows.len() <= y < slot_y + sq_size,
        slot_y + sq_size <= usize::MAX,
        slot_x + sq_size <= width,
        0 <= cx < width,
        cx < slot_x || slot_x + sq_size <= cx,
    ensures
        filled_rows(rows, width, slot_x, slot_y, slot_r, sq_size).len() == slot_y + sq_size,
        row_covers(filled_rows(rows, width, slot_x, slot_y, slot_r, sq_size)[y], cx, y),
{
    let sp = spanned_rows(rows, slot_y + sq_size, width, slot_x, slot_y, slot_r, sq_size);
    assert(sp.len() == slot_y + sq_size);
    assert(sp[y] == fresh_row(y as usize, width, slot_x, sq_size));
    lemma_window_keeps_row(sp, check_from(slot_y, sq_size), slot_y as int, slot_x, slot_y, sq_size, y);
    lemma_fresh_row_cells(y as usize, width, slot_x, sq_size, cx);
}

/// Removing a slot adds no column.
pub proof fn lemma_removed_lacks(s: Seq<Slot>, x: usize, v: usize)
    requires
        !has_x(s, v),
    ensures
        !has_x(removed(s, x), v),
{
    lemma_x_index(s, x);
    let k = x_index(s, x);
    if k < s.len() && has_x(removed(s, x), v) {
        let t = s.remove(k);
        let j = choose|j: int| 0 <= j < t.len() && #[trigger] t[j].x == v;
        if j < k {
            assert(t[j] == s[j]);
        } else {
            assert(t[j] == s[j + 1]);
        }
    }
}

/// In every existing row that a new square of side `sq_size` covers, placed
/// at `(slot_x, slot_y)` on the slot `fi` of row `slot_y`, the cells right of
/// the square that the filled slot or a slot cut by the square covered stay
/// free once the square is placed.
pub proof fn lemma_covered_row_right_cells(
    rows: Seq<Seq<Slot>>,
    width: usize,
    slot_x: usize,
    slot_y: usize,
    slot_r: usize,
    sq_size: usize,
    fi: int,
    y: int,
    cx: int,
)
    requires
        rows_shape(rows, width),
        slot_y < rows.len(),
        0 <= fi < rows[slot_y as int].len(),
        rows[slot_y as int][fi].x == slot_x,
        rows[slot_y as int][fi].r == slot_r,
        sq_size <= slot_r,
        slot_x + sq_size < width,
        slot_y <= y < rows.len(),
        y < slot_y + sq_size,
        slot_y + sq_size <= usize::MAX,
        !has_x(rows[y], (slot_x + sq_size) as usize),
        slot_x + sq_size <= cx,
        cx < slot_x + slot_r || exists|i: int|
            0 <= i < rows[y].len() && spans_into(#[trigger] rows[y][i], slot_x as int, slot_x + sq_size)
                && cx < rows[y][i].x + rows[y][i].r,
    ensures
        row_covers(filled_rows(rows, width, slot_x, slot_y, slot_r, sq_size)[y], cx, y),
{
    let sq_right = slot_x + sq_size;
    let s = rows[y];
    assert(row_wf(s, y, width as int));
    assert(row_wf(rows[slot_y as int], slot_y as int, width as int));
    let b = if y == slot_y { removed(s, slot_x) } else { s };
    lemma_removed_shape(s, slot_x, y, width as int);
    assert(row_wf(b, y, width as int));
    if y == slot_y {
        lemma_removed_lacks(s, slot_x, sq_right as usize);
    }
    if !(cx < slot_x + slot_r) {
        let i = choose|i: int|
            0 <= i < s.len() && spans_into(#[trigger] s[i], slot_x as int, sq_right) && cx < s[i].x + s[i].r;
        let t = s[i];
        if y == slot_y && t.x == slot_x {
            if i < fi {
                assert(s[i].x < s[fi].x);
            } else if i > fi {
                assert(s[fi].x < s[i].x);
            }
        } else {
            assert(s[i] == t);
            if y == slot_y {
                lemma_removed_keeps(s, slot_x, t);
            }
            assert(b.contains(t));
            let j = choose|j: int| 0 <= j < b.len() && b[j] == t;
            assert(spans_into(b[j], slot_x as int, sq_right));
        }
    }
    let sp = spanned_rows(rows, slot_y + sq_size, width, slot_x, slot_y, slot_r, sq_size);
    assert(sp[y] == span_row(b, y as usize, width, slot_x, slot_r, sq_size));
    lemma_span_row_keeps_right_cells(b, y as usize, width, slot_x, slot_r, sq_size, cx);
    lemma_window_keeps_row(sp, check_from(slot_y, sq_size), slot_y as int, slot_x, slot_y, sq_size, y);
}

/// Every slot of `s` that starts at column `x` has side at most `bound`.
pub open spec fn sides_at_most(s: Seq<Slot>, x: usize, bound: int) -> bool {
    forall|i: int| 0 <= i < s.len() && (#[trigger] s[i]).x == x ==> s[i].r <= bound
}

/// Adding a slot keeps the slots at column `x` within `bound` when the added
/// slot starts elsewhere or is itself within `bound`.
pub proof fn lemma_added_bound(s: Seq<Slot>, p: Slot, x: usize, bound: int)
    requires
        sides_at_most(s, x, bound),
        p.x != x || p.r <= bound,
    ensures
        sides_at_most(added(s, p), x, bound),
{
    lemma_x_index(s, p.x);
    if p.r > 0 {
        let k = x_index(s, p.x);
        if k < s.len() {
            let t = s.update(k, grown(s[k], p.r));
            assert forall|i: int| 0 <= i < t.len() && (#[trigger] t[i]).x == x implies t[i].r <= bound by {
                if i != k {
                    assert(t[i] == s[i]);
                }
            }
        } else {
            lemma_right_index(s, p.x);
            let j = right_index(s, p.x);
            let t = s.insert(j, p);
            assert forall|i: int| 0 <= i < t.len() && (#[trigger] t[i]).x == x implies t[i].r <= bound by {
                if i < j {
                    assert(t[i] == s[i]);
                } else if i > j {
                    assert(t[i] == s[i - 1]);
                }
            }
        }
    }
}

/// Adding slots of side at most `bound` keeps the slots at column `x` of row
/// `row_y` within `bound`.
pub proof fn lemma_add_pieces_bound(rows: Seq<Seq<Slot>>, ps: Seq<Slot>, row_y: int, x: usize, bound: int)
    requires
        0 <= row_y < rows.len(),
        sides_at_most(rows[row_y], x, bound),
        forall|k: int| 0 <= k < ps.len() ==> (#[trigger] ps[k]).r <= bound,
    ensures
        add_pieces(rows, ps).len() == rows.len(),
        sides_at_most(add_pieces(rows, ps)[row_y], x, bound),
    decreases ps.len(),
{
    if ps.len() > 0 {
        let q = ps.drop_last();
        assert forall|k: int| 0 <= k < q.len() implies (#[trigger] q[k]).r <= bound by {
            assert(q[k] == ps[k]);
        }
        lemma_add_pieces_bound(rows, q, row_y, x, bound);
        let r = add_pieces(rows, q);
        let p = ps.last();
        assert(p == ps[ps.len() - 1]);
        if p.y == row_y {
            lemma_added_bound(r[row_y], p, x, bound);
        }
    }
}

/// Handling slots of row `row_y` that start at other columns keeps the slots
/// at column `x` of that row within `bound`, when `bound` reaches row `slot_y`.
pub proof fn lemma_entries_fold_bound(
    rows: Seq<Seq<Slot>>,
    row_y: usize,
    es: Seq<(usize, usize)>,
    slot_y: usize,
    x: usize,
    bound: int,
)
    requires
        row_y < slot_y,
        row_y < rows.len(),
        row_y + bound >= slot_y,
        forall|k: int| 0 <= k < es.len() ==> (#[trigger] es[k]).0 != x,
        sides_at_most(rows[row_y as int], x, bound),
    ensures
        entries_fold(rows, row_y, es, slot_y).len() == rows.len(),
        sides_at_most(entries_fold(rows, row_y, es, slot_y)[row_y as int], x, bound),
    decreases es.len(),
{
    if es.len() > 0 {
        let d = es.drop_last();
        assert forall|k: int| 0 <= k < d.len() implies (#[trigger] d[k]).0 != x by {
            assert(d[k] == es[k]);
        }
        lemma_entries_fold_bound(rows, row_y, d, slot_y, x, bound);
        let r = entries_fold(rows, row_y, d, slot_y);
        let e = es.last();
        assert(e == es[es.len() - 1]);
        let new_r = (slot_y - row_y) as usize;
        let s = r[row_y as int];
        let s1 = resized_at(s, e.0, new_r);
        lemma_x_index(s, e.0);
        assert forall|i: int| 0 <= i < s1.len() && (#[trigger] s1[i]).x == x implies s1[i].r <= bound by {
            if x_index(s, e.0) < s.len() {
                assert(s1[i] == s[i]);
            }
        }
        let rows1 = r.update(row_y as int, s1);
        let w: usize = if e.1 > new_r { (e.1 - new_r) as usize } else { 0 };
        let ps = staircase((e.0 + new_r) as usize, row_y, w, new_r);
        lemma_staircase_rows((e.0 + new_r) as usize, row_y, w, new_r);
        assert forall|k: int| 0 <= k < ps.len() implies (#[trigger] ps[k]).r <= bound by {
            assert(ps[k].r <= new_r);
        }
        lemma_add_pieces_bound(rows1, ps, row_y as int, x, bound);
    }
}

/// Handling one slot `e` of row `row_y` that reaches down to row `slot_y`,
/// where the slots at its column are no larger than it, keeps free every cell
/// above row `slot_y` that was free.
pub proof fn lemma_entry_step_keeps_free(
    rows: Seq<Seq<Slot>>,
    width: usize,
    row_y: usize,
    e: (usize, usize),
    slot_y: usize,
    cx: int,
    cy: int,
)
    requires
        rows_shape(rows, width),
        row_y < slot_y <= rows.len(),
        e.0 + e.1 <= width,
        row_y + e.1 >= slot_y,
        sides_at_most(rows[row_y as int], e.0, e.1 as int),
        rows_cover(rows, cx, cy),
        cy < slot_y,
    ensures
        rows_cover(entry_step(rows, row_y, e, slot_y), cx, cy),
{
    let y = choose|y: int| 0 <= y < rows.len() && row_covers(#[trigger] rows[y], cx, cy);
    let i = choose|i: int| 0 <= i < rows[y].len() && slot_covers(#[trigger] rows[y][i], cx, cy);
    let q = rows[y][i];
    let s = rows[row_y as int];
    assert(row_wf(s, row_y as int, width as int));
    let new_r = (slot_y - row_y) as usize;
    lemma_resized_shape(s, e.0, new_r, row_y as int, width as int);
    let s1 = resized_at(s, e.0, new_r);
    let rows1 = rows.update(row_y as int, s1);
    assert forall|yy: int| 0 <= yy < rows1.len() implies row_wf(#[trigger] rows1[yy], yy, width as int) by {
        if yy != row_y {
            assert(rows1[yy] == rows[yy]);
        }
    }
    let w: usize = if e.1 > new_r { (e.1 - new_r) as usize } else { 0 };
    let px = (e.0 + new_r) as usize;
    let ps = staircase(px, row_y, w, new_r);
    lemma_staircase_bounds(px, row_y, w, new_r);
    assert forall|k: int| 0 <= k < ps.len() implies (#[trigger] ps[k]).x + ps[k].r <= width by {}
    if y != row_y {
        assert(rows1[y] == rows[y]);
        assert(row_covers(rows1[y], cx, cy));
        lemma_add_pieces_keeps_cells(rows1, ps, cx, cy);
    } else if q.x != e.0 {
        assert(s[i] == q);
        lemma_resized_keeps(s, e.0, new_r, q);
        let j = choose|j: int| 0 <= j < s1.len() && s1[j] == q;
        assert(slot_covers(s1[j], cx, cy));
        assert(row_covers(rows1[y], cx, cy));
        lemma_add_pieces_keeps_cells(rows1, ps, cx, cy);
    } else {
        assert(q.r <= e.1);
        assert(q.y == row_y);
        assert forall|j: int| 0 <= j < i implies #[trigger] s[j].x != q.x by {
            assert(s[j].x < s[i].x);
        }
        lemma_first_x_is_x_index(s, q.x, i);
        if cx < e.0 + new_r {
            assert(s1[i] == resized(q, new_r));
            assert(slot_covers(s1[i], cx, cy));
            assert(row_covers(rows1[row_y as int], cx, cy));
            lemma_add_pieces_keeps_cells(rows1, ps, cx, cy);
        } else {
            lemma_staircase_covers(px, row_y, w, new_r, cx, cy);
            let k = choose|k: int| 0 <= k < ps.len() && slot_covers(#[trigger] ps[k], cx, cy);
            lemma_add_pieces_covers_piece(rows1, ps, width, k, cx, cy);
        }
    }
}

/// The slots of a well-formed row that reach into `[lo, hi)` and down to row
/// `slot_y` come in order of column, each one the only slot at its column.
pub proof fn lemma_entries_from_row(s: Seq<Slot>, lo: int, hi: int, slot_y: int, row_y: int, width: int)
    requires
        row_wf(s, row_y, width),
    ensures
        forall|k: int| 0 <= k < entries(s, lo, hi, slot_y).len() ==> {
            let e = #[trigger] entries(s, lo, hi, slot_y)[k];
            &&& has_x(s, e.0)
            &&& sides_at_most(s, e.0, e.1 as int)
        },
        forall|a: int, b: int| 0 <= a < b < entries(s, lo, hi, slot_y).len()
            ==> (#[trigger] entries(s, lo, hi, slot_y)[a]).0 < (#[trigger] entries(s, lo, hi, slot_y)[b]).0,
    decreases s.len(),
{
    if s.len() > 0 {
        let t = s.drop_last();
        let last = s.last();
        assert(last == s[s.len() - 1]);
        assert forall|a: int, b: int| 0 <= a < b < t.len() implies #[trigger] t[a].x < #[trigger] t[b].x by {
            assert(s[a].x < s[b].x);
        }
        assert forall|i: int| 0 <= i < t.len() implies (#[trigger] t[i]).y == row_y && t[i].r > 0
            && t[i].x + t[i].r <= width by {
            assert(t[i] == s[i]);
        }
        lemma_entries_from_row(t, lo, hi, slot_y, row_y, width);
        let es = entries(s, lo, hi, slot_y);
        let et = entries(t, lo, hi, slot_y);
        assert forall|k: int| 0 <= k < et.len() implies #[trigger] et[k].0 < last.x && has_x(s, et[k].0)
            && sides_at_most(s, et[k].0, et[k].1 as int) by {
            let x = et[k].0;
            assert(has_x(t, x));
            let j = choose|j: int| 0 <= j < t.len() && #[trigger] t[j].x == x;
            assert(s[j] == t[j]);
            assert(s[j].x < s[s.len() - 1].x);
            assert forall|i: int| 0 <= i < s.len() && (#[trigger] s[i]).x == x implies s[i].r <= et[k].1 by {
                if i < s.len() - 1 {
                    assert(t[i] == s[i]);
                }
            }
        }
        if es.len() > et.len() {
            assert(es == et.push((last.x, last.r)));
            assert forall|i: int| 0 <= i < s.len() && (#[trigger] s[i]).x == last.x implies s[i].r <= last.r by {
                if i < s.len() - 1 {
                    assert(s[i].x < s[s.len() - 1].x);
                }
            }
            assert forall|k: int| 0 <= k < es.len() implies {
                let e = #[trigger] es[k];
                &&& has_x(s, e.0)
                &&& sides_at_most(s, e.0, e.1 as int)
            } by {
                if k < et.len() {
                    assert(es[k] == et[k]);
                } else {
                    assert(s[s.len() - 1].x == last.x);
                }
            }
            assert forall|a: int, b: int| 0 <= a < b < es.len() implies (#[trigger] es[a]).0 < (#[trigger] es[b]).0 by {
                assert(es[a] == et[a]);
                if b < et.len() {
                    assert(es[b] == et[b]);
                }
            }
        } else {
            assert(es == et);
        }
    }
}

/// Handling, in order of column, slots of row `row_y` that reach down to row
/// `slot_y`, each no smaller than the slots at its column, keeps free every
/// cell above row `slot_y` that was free.
pub proof fn lemma_entries_fold_keeps_free(
    rows: Seq<Seq<Slot>>,
    width: usize,
    row_y: usize,
    es: Seq<(usize, usize)>,
    slot_y: usize,
    cx: int,
    cy: int,
)
    requires
        rows_shape(rows, width),
        row_y < slot_y <= rows.len(),
        forall|k: int| 0 <= k < es.len() ==> (#[trigger] es[k]).0 + es[k].1 <= width && row_y + es[k].1 >= slot_y,
        forall|k: int| 0 <= k < es.len() ==> sides_at_most(rows[row_y as int], (#[trigger] es[k]).0, es[k].1 as int),
        forall|a: int, b: int| 0 <= a < b < es.len() ==> (#[trigger] es[a]).0 < (#[trigger] es[b]).0,
        rows_cover(rows, cx, cy),
        cy < slot_y,
    ensures
        rows_cover(entries_fold(rows, row_y, es, slot_y), cx, cy),
    decreases es.len(),
{
    if es.len() > 0 {
        let d = es.drop_last();
        let e = es.last();
        assert(e == es[es.len() - 1]);
        assert forall|k: int| 0 <= k < d.len() implies (#[trigger] d[k]).0 + d[k].1 <= width && row_y + d[k].1 >= slot_y
            && sides_at_most(rows[row_y as int], d[k].0, d[k].1 as int) && d[k].0 != e.0 by {
            assert(d[k] == es[k]);
        }
        assert forall|a: int, b: int| 0 <= a < b < d.len() implies (#[trigger] d[a]).0 < (#[trigger] d[b]).0 by {
            assert(d[a] == es[a]);
            assert(d[b] == es[b]);
        }
        lemma_entries_fold_keeps_free(rows, width, row_y, d, slot_y, cx, cy);
        lemma_entries_fold_shape(rows, row_y, d, slot_y, width);
        lemma_entries_fold_bound(rows, row_y, d, slot_y, e.0, e.1 as int);
        let r = entries_fold(rows, row_y, d, slot_y);
        lemma_entry_step_keeps_free(r, width, row_y, e, slot_y, cx, cy);
    }
}

/// Trimming row `row_y` above a square that starts at row `slot_y` keeps free
/// every cell above row `slot_y` that was free.
pub proof fn lemma_trim_row_keeps_free(
    rows: Seq<Seq<Slot>>,
    width: usize,
    row_y: usize,
    slot_x: usize,
    slot_y: usize,
    sq_size: usize,
    cx: int,
    cy: int,
)
    requires
        rows_shape(rows, width),
        row_y < slot_y <= rows.len(),
        rows_cover(rows, cx, cy),
        cy < slot_y,
    ensures
        rows_cover(trim_row(rows, row_y, slot_x, slot_y, sq_size), cx, cy),
{
    let s = rows[row_y as int];
    assert(row_wf(s, row_y as int, width as int));
    let es = entries(s, slot_x as int, slot_x + sq_size, slot_y as int);
    lemma_entries_bounds(s, slot_x as int, slot_x + sq_size, slot_y as int, row_y as int, width as int);
    lemma_entries_from_row(s, slot_x as int, slot_x + sq_size, slot_y as int, row_y as int, width as int);
    assert forall|k: int| 0 <= k < es.len() implies (#[trigger] es[k]).0 + es[k].1 <= width && row_y + es[k].1 >= slot_y by {}
    assert forall|k: int| 0 <= k < es.len() implies sides_at_most(s, (#[trigger] es[k]).0, es[k].1 as int) by {}
    lemma_entries_fold_keeps_free(rows, width, row_y, es, slot_y, cx, cy);
}

/// Trimming the rows `[from, to)` above a square that starts at row `slot_y`
/// keeps free every cell above row `slot_y` that was free.
pub proof fn lemma_window_keeps_free(
    rows: Seq<Seq<Slot>>,
    width: usize,
    from: int,
    to: int,
    slot_x: usize,
    slot_y: usize,
    sq_size: usize,
    cx: int,
    cy: int,
)
    requires
        rows_shape(rows, width),
        0 <= from,
        to <= slot_y <= rows.len(),
        rows_cover(rows, cx, cy),
        cy < slot_y,
    ensures
        rows_cover(window(rows, from, to, slot_x, slot_y, sq_size), cx, cy),
    decreases to - from,
{
    if to > from {
        lemma_window_keeps_free(rows, width, from, to - 1, slot_x, slot_y, sq_size, cx, cy);
        lemma_window_shape(rows, from, to - 1, slot_x, slot_y, sq_size, width);
        let r = window(rows, from, to - 1, slot_x, slot_y, sq_size);
        lemma_trim_row_keeps_free(r, width, (to - 1) as usize, slot_x, slot_y, sq_size, cx, cy);
    }
}

/// Placing a square of side `sq_size` at `(slot_x, slot_y)` on a slot of side
/// `slot_r >= sq_size` within the width keeps free every cell above row
/// `slot_y` that was free: the slots cut back above the square hand the cells
/// they lose to it back as new slots.
pub proof fn lemma_placing_keeps_free_above(
    rows: Seq<Seq<Slot>>,
    width: usize,
    slot_x: usize,
    slot_y: usize,
    slot_r: usize,
    sq_size: usize,
    cx: int,
    cy: int,
)
    requires
        rows_shape(rows, width),
        slot_y <= rows.len(),
        sq_size <= slot_r,
        slot_x + slot_r <= width,
        slot_y + sq_size <= usize::MAX,
        rows_cover(rows, cx, cy),
        cy < slot_y,
    ensures
        rows_cover(filled_rows(rows, width, slot_x, slot_y, slot_r, sq_size), cx, cy),
{
    lemma_spanned_rows_shape(rows, width, slot_x, slot_y, slot_r, sq_size);
    let sp = spanned_rows(rows, slot_y + sq_size, width, slot_x, slot_y, slot_r, sq_size);
    let y = choose|y: int| 0 <= y < rows.len() && row_covers(#[trigger] rows[y], cx, cy);
    let i = choose|i: int| 0 <= i < rows[y].len() && slot_covers(#[trigger] rows[y][i], cx, cy);
    assert(row_wf(rows[y], y, width as int));
    assert(rows[y][i].y == y);
    assert(sp[y] == rows[y]);
    assert(row_covers(sp[y], cx, cy));
    lemma_window_keeps_free(sp, width, check_from(slot_y, sq_size), slot_y as int, slot_x, slot_y, sq_size, cx, cy);
}

/// Every slot of the row that reaches into `[lo, hi)` has its entry among the
/// colliding slots.
pub proof fn lemma_collisions_found(s: Seq<Slot>, lo: int, hi: int, i: int)
    requires
        0 <= i < s.len(),
        spans_into(s[i], lo, hi),
    ensures
        exists|k: int| 0 <= k < collisions(s, lo, hi).len() && #[trigger] collisions(s, lo, hi)[k] == (s[i].x, s[i].r),
    decreases s.len(),
{
    let t = s.drop_last();
    let cs = collisions(s, lo, hi);
    let ct = collisions(t, lo, hi);
    if i < s.len() - 1 {
        assert(s[i] == t[i]);
        lemma_collisions_found(t, lo, hi, i);
        let k = choose|k: int| 0 <= k < ct.len() && #[trigger] ct[k] == (t[i].x, t[i].r);
        if spans_into(s.last(), lo, hi) {
            assert(cs == ct.push((s.last().x, s.last().r)));
        }
        assert(cs[k] == ct[k]);
    } else {
        assert(s.last() == s[i]);
        assert(cs == ct.push((s.last().x, s.last().r)));
        assert(cs[ct.len() as int] == (s[i].x, s[i].r));
    }
}

/// Every colliding slot starts where a slot of the row that reaches into
/// `[lo, hi)` starts.
pub proof fn lemma_collisions_come_from(s: Seq<Slot>, lo: int, hi: int, k: int)
    requires
        0 <= k < collisions(s, lo, hi).len(),
    ensures
        exists|j: int| 0 <= j < s.len() && spans_into(#[trigger] s[j], lo, hi) && s[j].x == collisions(s, lo, hi)[k].0,
    decreases s.len(),
{
    let t = s.drop_last();
    let cs = collisions(s, lo, hi);
    let ct = collisions(t, lo, hi);
    if spans_into(s.last(), lo, hi) {
        assert(cs == ct.push((s.last().x, s.last().r)));
    } else {
        assert(cs == ct);
    }
    if k < ct.len() {
        assert(cs[k] == ct[k]);
        lemma_collisions_come_from(t, lo, hi, k);
        let j = choose|j: int| 0 <= j < t.len() && spans_into(#[trigger] t[j], lo, hi) && t[j].x == ct[k].0;
        assert(s[j] == t[j]);
    } else {
        assert(s.last() == s[s.len() - 1]);
        assert(spans_into(s[s.len() - 1], lo, hi));
    }
}

/// The colliding slots of a row ordered by column come in order of column.
pub proof fn lemma_collisions_increasing(s: Seq<Slot>, lo: int, hi: int)
    requires
        sorted_by_x(s),
    ensures
        forall|a: int, b: int| 0 <= a < b < collisions(s, lo, hi).len()
            ==> (#[trigger] collisions(s, lo, hi)[a]).0 < (#[trigger] collisions(s, lo, hi)[b]).0,
    decreases s.len(),
{
    if s.len() > 0 {
        let t = s.drop_last();
        assert forall|a: int, b: int| 0 <= a < b < t.len() implies #[trigger] t[a].x < #[trigger] t[b].x by {
            assert(s[a].x < s[b].x);
        }
        lemma_collisions_increasing(t, lo, hi);
        let cs = collisions(s, lo, hi);
        let ct = collisions(t, lo, hi);
        if spans_into(s.last(), lo, hi) {
            assert(cs == ct.push((s.last().x, s.last().r)));
            assert forall|a: int, b: int| 0 <= a < b < cs.len() implies (#[trigger] cs[a]).0 < (#[trigger] cs[b]).0 by {
                assert(cs[a] == ct[a]);
                if b < ct.len() {
                    assert(cs[b] == ct[b]);
                } else {
                    lemma_collisions_come_from(t, lo, hi, a);
                    let j = choose|j: int| 0 <= j < t.len() && spans_into(#[trigger] t[j], lo, hi) && t[j].x == ct[a].0;
                    assert(t[j] == s[j]);
                    assert(s[j].x < s[s.len() - 1].x);
                }
            }
        } else {
            assert(cs == ct);
        }
    }
}

/// Cutting, in order of column, the colliding slots of a well-formed row cuts
/// a slot `t` that starts left of column `slot_x` back to end at `slot_x`.
pub proof fn lemma_cut_resizes(s: Seq<Slot>, cs: Seq<(usize, usize)>, slot_x: usize, t: Slot, row_y: int, width: int)
    requires
        row_wf(s, row_y, width),
        slot_x <= width,
        s.contains(t),
        t.x < slot_x,
        forall|a: int, b: int| 0 <= a < b < cs.len() ==> (#[trigger] cs[a]).0 < (#[trigger] cs[b]).0,
        exists|k: int| 0 <= k < cs.len() && (#[trigger] cs[k]).0 == t.x,
    ensures
        cut(s, cs, slot_x).contains(resized(t, (slot_x - t.x) as usize)),
    decreases cs.len(),
{
    let d = cs.drop_last();
    let e = cs.last();
    assert(e == cs[cs.len() - 1]);
    let rt = resized(t, (slot_x - t.x) as usize);
    if e.0 == t.x {
        assert forall|k: int| 0 <= k < d.len() implies (#[trigger] d[k]).0 != t.x by {
            assert(d[k] == cs[k]);
        }
        lemma_cut_keeps(s, d, slot_x, t);
        lemma_cut_shape(s, d, slot_x, row_y, width);
        let c = cut(s, d, slot_x);
        let i = choose|i: int| 0 <= i < c.len() && c[i] == t;
        assert forall|j: int| 0 <= j < i implies #[trigger] c[j].x != t.x by {
            assert(c[j].x < c[i].x);
        }
        lemma_first_x_is_x_index(c, t.x, i);
        let c2 = resized_at(c, t.x, (slot_x - t.x) as usize);
        assert(c2[i] == rt);
    } else {
        let k = choose|k: int| 0 <= k < cs.len() && (#[trigger] cs[k]).0 == t.x;
        assert(d[k] == cs[k]);
        assert forall|a: int, b: int| 0 <= a < b < d.len() implies (#[trigger] d[a]).0 < (#[trigger] d[b]).0 by {
            assert(d[a] == cs[a]);
            assert(d[b] == cs[b]);
        }
        lemma_cut_resizes(s, d, slot_x, t, row_y, width);
        let c = cut(s, d, slot_x);
        if slot_x > e.0 {
            lemma_resized_keeps(c, e.0, (slot_x - e.0) as usize, rt);
        } else {
            lemma_removed_keeps(c, e.0, rt);
        }
    }
}

/// Opening the slot right of the new square keeps every slot of the row.
pub proof fn lemma_with_rhs_keeps(
    s: Seq<Slot>,
    row_y: usize,
    width: usize,
    slot_x: usize,
    slot_r: usize,
    sq_size: usize,
    q: Slot,
)
    requires
        s.contains(q),
    ensures
        with_rhs(s, row_y, width, slot_x, slot_r, sq_size).contains(q),
{
    let sq_right = slot_x + sq_size;
    let r = rhs_side(s, slot_x as int, slot_r as int, sq_size as int);
    if sq_right < width && !has_x(s, sq_right as usize) && r > 0 {
        let rs = Slot { x: sq_right as usize, y: row_y, r: r as usize };
        let i = choose|i: int| 0 <= i < s.len() && s[i] == q;
        lemma_x_index(s, rs.x);
        lemma_right_index(s, rs.x);
        let p = right_index(s, rs.x);
        let w = s.insert(p, rs);
        if i < p {
            assert(w[i] == q);
        } else {
            assert(w[i + 1] == q);
        }
    }
}

/// A slot of the row that reaches into the new square from the left keeps,
/// once the row is cut around the square, its part left of the square.
pub proof fn lemma_span_row_keeps_left_part(
    s: Seq<Slot>,
    row_y: usize,
    width: usize,
    slot_x: usize,
    slot_r: usize,
    sq_size: usize,
    i: int,
)
    requires
        row_wf(s, row_y as int, width as int),
        sq_size <= slot_r,
        slot_x + slot_r <= width,
        0 <= i < s.len(),
        spans_into(s[i], slot_x as int, slot_x + sq_size),
        s[i].x < slot_x,
    ensures
        span_row(s, row_y, width, slot_x, slot_r, sq_size).contains(resized(s[i], (slot_x - s[i].x) as usize)),
{
    let sq_right = slot_x + sq_size;
    let t = s[i];
    assert(s.contains(t));
    let cs = collisions(s, slot_x as int, sq_right);
    let w = with_rhs(s, row_y, width, slot_x, slot_r, sq_size);
    lemma_with_rhs_keeps(s, row_y, width, slot_x, slot_r, sq_size, t);
    lemma_collisions_found(s, slot_x as int, sq_right, i);
    lemma_collisions_increasing(s, slot_x as int, sq_right);
    let k = choose|k: int| 0 <= k < cs.len() && #[trigger] cs[k] == (s[i].x, s[i].r);
    assert(cs[k].0 == t.x);
    let r = rhs_side(s, slot_x as int, slot_r as int, sq_size as int);
    lemma_excess_bound(s, slot_x as int, sq_right, slot_x + slot_r, row_y as int, width as int);
    if sq_right < width && !has_x(s, sq_right as usize) && r > 0 {
        lemma_added_shape(s, Slot { x: sq_right as usize, y: row_y, r: r as usize }, row_y as int, width as int);
    }
    lemma_cut_resizes(w, cs, slot_x, t, row_y as int, width as int);
}

/// Cutting a row around a new square of side `sq_size` placed at column
/// `slot_x` on a slot of side `slot_r` keeps free every cell of that row that
/// the row covered, but those under the square: a slot that reached into the
/// square keeps its part left of it, and its part right of it goes to the
/// slot opened right of the square (where no slot started there yet).
pub proof fn lemma_span_row_keeps_cells(
    s: Seq<Slot>,
    row_y: usize,
    width: usize,
    slot_x: usize,
    slot_r: usize,
    sq_size: usize,
    cx: int,
)
    requires
        row_wf(s, row_y as int, width as int),
        sq_size <= slot_r,
        slot_x + slot_r <= width,
        row_covers(s, cx, row_y as int),
        cx < slot_x || (slot_x + sq_size <= cx && !has_x(s, (slot_x + sq_size) as usize)),
    ensures
        row_covers(span_row(s, row_y, width, slot_x, slot_r, sq_size), cx, row_y as int),
{
    let sq_right = slot_x + sq_size;
    let i = choose|i: int| 0 <= i < s.len() && slot_covers(#[trigger] s[i], cx, row_y as int);
    let t = s[i];
    assert(s.contains(t));
    let cs = collisions(s, slot_x as int, sq_right);
    let w = with_rhs(s, row_y, width, slot_x, slot_r, sq_size);
    lemma_with_rhs_keeps(s, row_y, width, slot_x, slot_r, sq_size, t);
    if !spans_into(t, slot_x as int, sq_right) {
        assert forall|k: int| 0 <= k < cs.len() implies (#[trigger] cs[k]).0 != t.x by {
            lemma_collisions_come_from(s, slot_x as int, sq_right, k);
            let j = choose|j: int| 0 <= j < s.len() && spans_into(#[trigger] s[j], slot_x as int, sq_right) && s[j].x == cs[k].0;
            if j < i {
                assert(s[j].x < s[i].x);
            } else if j > i {
                assert(s[i].x < s[j].x);
            }
        }
        lemma_cut_keeps(w, cs, slot_x, t);
        let c = cut(w, cs, slot_x);
        let j = choose|j: int| 0 <= j < c.len() && c[j] == t;
        assert(slot_covers(c[j], cx, row_y as int));
    } else if cx < slot_x {
        lemma_span_row_keeps_left_part(s, row_y, width, slot_x, slot_r, sq_size, i);
        let c = cut(w, cs, slot_x);
        let rt = resized(t, (slot_x - t.x) as usize);
        let j = choose|j: int| 0 <= j < c.len() && c[j] == rt;
        assert(slot_covers(c[j], cx, row_y as int));
    } else {
        assert(slot_x + sq_size < width);
        lemma_span_row_keeps_right_cells(s, row_y, width, slot_x, slot_r, sq_size, cx);
    }
}

/// In every existing row `y` that a new square of side `sq_size` covers,
/// placed at `(slot_x, slot_y)` on the slot `fi` of row `slot_y`, every cell
/// of row `y` that a slot of that row covered stays free once the square is
/// placed, but those under the square (and, right of the square, where a slot
/// already started at its right edge).
pub proof fn lemma_covered_row_cells(
    rows: Seq<Seq<Slot>>,
    width: usize,
    slot_x: usize,
    slot_y: usize,
    slot_r: usize,
    sq_size: usize,
    fi: int,
    y: int,
    cx: int,
)
    requires
        rows_shape(rows, width),
        slot_y < rows.len(),
        0 <= fi < rows[slot_y as int].len(),
        rows[slot_y as int][fi].x == slot_x,
        rows[slot_y as int][fi].r == slot_r,
        sq_size <= slot_r,
        slot_y <= y < rows.len(),
        y < slot_y + sq_size,
        slot_y + sq_size <= usize::MAX,
        row_covers(rows[y], cx, y),
        cx < slot_x || (slot_x + sq_size <= cx && !has_x(rows[y], (slot_x + sq_size) as usize)),
    ensures
        row_covers(filled_rows(rows, width, slot_x, slot_y, slot_r, sq_size)[y], cx, y),
{
    let sq_right = slot_x + sq_size;
    let s = rows[y];
    assert(row_wf(s, y, width as int));
    assert(row_wf(rows[slot_y as int], slot_y as int, width as int));
    assert(slot_x + slot_r <= width);
    let i = choose|i: int| 0 <= i < s.len() && slot_covers(#[trigger] s[i], cx, y);
    let q = s[i];
    if y == slot_y && q.x == slot_x {
        if i < fi {
            assert(s[i].x < s[fi].x);
        } else if i > fi {
            assert(s[fi].x < s[i].x);
        }
        assert(slot_x + sq_size < width);
        lemma_covered_row_right_cells(rows, width, slot_x, slot_y, slot_r, sq_size, fi, y, cx);
    } else {
        let b = if y == slot_y { removed(s, slot_x) } else { s };
        lemma_removed_shape(s, slot_x, y, width as int);
        assert(row_wf(b, y, width as int));
        assert(s.contains(q));
        if y == slot_y {
            if !(cx < slot_x) {
                lemma_removed_lacks(s, slot_x, sq_right as usize);
            }
            lemma_removed_keeps(s, slot_x, q);
        }
        let j = choose|j: int| 0 <= j < b.len() && b[j] == q;
        assert(slot_covers(b[j], cx, y));
        lemma_span_row_keeps_cells(b, y as usize, width, slot_x, slot_r, sq_size, cx);
        let sp = spanned_rows(rows, slot_y + sq_size, width, slot_x, slot_y, slot_r, sq_size);
        assert(sp[y] == span_row(b, y as usize, width, slot_x, slot_r, sq_size));
        lemma_window_keeps_row(sp, check_from(slot_y, sq_size), slot_y as int, slot_x, slot_y, sq_size, y);
    }
}

/// Placing a square first-fit keeps free every cell above the square's top
/// row that was free.
pub proof fn lemma_placement_keeps_free_above(rows: Seq<Seq<Slot>>, width: usize, size: usize, cx: int, cy: int)
    requires
        rows_shape(rows, width),
        1 <= size <= width,
        rows.len() + size <= usize::MAX,
        rows_cover(rows, cx, cy),
        cy < placement(rows, width, size).0.y,
    ensures
        rows_cover(placement(rows, width, size).1, cx, cy),
{
    lemma_fit_row(rows, size);
    let y = fit_row(rows, size);
    if y < rows.len() {
        lemma_fit_index(rows[y], size);
        let s = rows[y][fit_index(rows[y], size)];
        assert(row_wf(rows[y], y, width as int));
        lemma_placing_keeps_free_above(rows, width, s.x, s.y, s.r, size, cx, cy);
    } else {
        let ny = rows.len() as usize;
        let full = Slot { x: 0, y: ny, r: width };
        lemma_added_shape(Seq::empty(), full, ny as int, width as int);
        let rows1 = rows.push(added(Seq::empty(), full));
        assert forall|yy: int| 0 <= yy < rows1.len() implies row_wf(#[trigger] rows1[yy], yy, width as int) by {
            if yy < rows.len() {
                assert(rows1[yy] == rows[yy]);
            }
        }
        let yc = choose|yc: int| 0 <= yc < rows.len() && row_covers(#[trigger] rows[yc], cx, cy);
        assert(rows1[yc] == rows[yc]);
        lemma_placing_keeps_free_above(rows1, width, 0, ny, width, size, cx, cy);
    }
}

} // verus!
