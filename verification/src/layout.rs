//! The Mondrian packer: a grid of rows of free slots into which squares are
//! placed first-fit, keeping every free slot clear of every placed square.

use vstd::prelude::*;
use crate::geometry::{
    PlacedSquare, ends_by, lemma_free_when_all_above, lemma_square_in_free_slot, lemma_within_free,
    pairwise_disjoint, row_clear, row_free, row_wf, slot_free, slot_meets, squares_meet,
};
use crate::row::{MondrianRow, Slot, added, has_x, removed, resized_at};
use crate::reshape::{
    add_pieces, cut, entries, entries_fold, excess, filled_rows, fresh_row, lemma_fit_found,
    lemma_fit_none, packing, placement, rhs_side, rows_view, span_row, spanned_rows, spans_into,
    staircase, trim_row, window, with_rhs,
};
use crate::sizing::{sum_sizes, lemma_sum_sizes_prefix};

verus! {

/// Entry `c` of row `row_y`: a free slot `(c.0, row_y, c.1)` within the width
/// that reaches into the columns of the new square and down to row `slot_y`.
pub open spec fn entry_ok(
    c: (usize, usize),
    row_y: usize,
    slot_x: usize,
    slot_y: usize,
    sq_size: usize,
    width: usize,
    placed: Seq<PlacedSquare>,
) -> bool {
    &&& c.0 < slot_x + sq_size
    &&& c.0 + c.1 > slot_x
    &&& row_y + c.1 >= slot_y
    &&& c.0 + c.1 <= width
    &&& slot_free(Slot { x: c.0, y: row_y, r: c.1 }, placed)
}

/// Every slot of the row that still reaches into square `q` starts at the
/// column of an entry of `es` from index `from` on.
pub open spec fn pending(row: Seq<Slot>, q: PlacedSquare, es: Seq<(usize, usize)>, from: int) -> bool {
    forall|j: int| 0 <= j < row.len() && slot_meets(#[trigger] row[j], q)
        ==> exists|k: int| from <= k < es.len() && #[trigger] es[k].0 == row[j].x
}

impl MondrianRow {
    /// Row `row_y` lies within the rows of a new square of side `sq_size` placed at
    /// `(slot_x, slot_y)` on a slot of side `slot_r`: an extra slot opens right of the
    /// square, and each slot that reaches into the square's columns is cut back
    /// to end at `slot_x` (or dropped when it starts at or right of `slot_x`).
    #[verifier::loop_isolation(false)]
    #[verifier::rlimit(40)]
    fn clear_span(
        &mut self,
        row_y: usize,
        slot_x: usize,
        slot_y: usize,
        slot_r: usize,
        sq_size: usize,
        width: usize,
        Ghost(placed): Ghost<Seq<PlacedSquare>>,
    )
        requires
            row_wf(old(self).slots@, row_y as int, width as int),
            row_free(old(self).slots@, placed),
            slot_y <= row_y < slot_y + sq_size,
            slot_x + slot_r <= width,
            slot_free(Slot { x: slot_x, y: slot_y, r: slot_r }, placed),
            sq_size <= slot_r || slot_x + slot_r == width,
            width + sq_size <= usize::MAX,
        ensures
            row_wf(final(self).slots@, row_y as int, width as int),
            row_free(final(self).slots@, placed),
            row_clear(final(self).slots@, PlacedSquare { x: slot_x, y: slot_y, r: sq_size }),
            final(self).slots@ == span_row(old(self).slots@, row_y, width, slot_x, slot_r, sq_size),
    {
        let sq_right = slot_x + sq_size;
        let ghost orig = self.slots@;
        proof {
            assert(orig.take(0) =~= Seq::<Slot>::empty());
        }
        let mut collisions: Vec<(usize, usize)> = Vec::new();
        let mut max_excess: usize = 0;
        let n = self.slots.len();
        let mut i: usize = 0;
        while i < n
            invariant
                self.slots@ == orig,
                n == orig.len(),
                i <= n,
                forall|k: int| 0 <= k < collisions@.len() ==> {
                    let c = #[trigger] collisions@[k];
                    &&& c.0 < sq_right
                    &&& c.0 + c.1 > slot_x
                    &&& c.0 + c.1 <= width
                    &&& slot_free(Slot { x: c.0, y: row_y, r: c.1 }, placed)
                },
                forall|k1: int, k2: int| 0 <= k1 < k2 < collisions@.len()
                    ==> #[trigger] collisions@[k1].0 < #[trigger] collisions@[k2].0,
                forall|k: int, j: int| 0 <= k < collisions@.len() && i <= j < n
                    ==> #[trigger] collisions@[k].0 < #[trigger] orig[j].x,
                forall|j: int| 0 <= j < i && spans_into(#[trigger] orig[j], slot_x as int, sq_right as int)
                    ==> exists|k: int| 0 <= k < collisions@.len() && #[trigger] collisions@[k].0 == orig[j].x,
                max_excess == 0 || exists|k: int| 0 <= k < collisions@.len()
                    && #[trigger] collisions@[k].0 + collisions@[k].1 == slot_x + slot_r + max_excess,
                slot_x + slot_r + max_excess <= width,
                collisions@ == crate::reshape::collisions(orig.take(i as int), slot_x as int, sq_right as int),
                max_excess == excess(orig.take(i as int), slot_x as int, sq_right as int, slot_x + slot_r),
            decreases n - i,
        {
            let s = self.slots[i];
            let s_right = s.x + s.r;
            proof {
                let t = orig.take(i + 1);
                assert(t.drop_last() =~= orig.take(i as int));
                assert(t.last() == s);
            }
            if !(s_right <= slot_x || s.x >= sq_right) {
                proof {
                    assert(orig[i as int] == s);
                    assert(slot_free(s, placed));
                    assert forall|k: int, j: int| 0 <= k < collisions@.len() && i + 1 <= j < n
                        implies #[trigger] collisions@[k].0 < #[trigger] orig[j].x by {
                        assert(collisions@[k].0 < orig[i as int].x);
                        assert(orig[i as int].x < orig[j].x);
                    }
                }
                let ghost prev = collisions@;
                collisions.push((s.x, s.r));
                let slot_right_edge = slot_x + slot_r;
                let over = if s_right > slot_right_edge { s_right - slot_right_edge } else { 0 };
                if over > max_excess {
                    max_excess = over;
                }
                proof {
                    assert(collisions@[prev.len() as int] == (s.x, s.r));
                    assert forall|j: int| 0 <= j < i + 1 && spans_into(#[trigger] orig[j], slot_x as int, sq_right as int)
                        implies exists|k: int| 0 <= k < collisions@.len() && #[trigger] collisions@[k].0 == orig[j].x by {
                        if j < i {
                            let k = choose|k: int| 0 <= k < prev.len() && #[trigger] prev[k].0 == orig[j].x;
                            assert(collisions@[k] == prev[k]);
                        } else {
                            assert(collisions@[prev.len() as int].0 == orig[j].x);
                        }
                    }
                    if max_excess != 0 && max_excess != over {
                        let k = choose|k: int| 0 <= k < prev.len()
                            && #[trigger] prev[k].0 + prev[k].1 == slot_x + slot_r + max_excess;
                        assert(collisions@[k] == prev[k]);
                    }
                    if max_excess != 0 && max_excess == over {
                        assert(collisions@[prev.len() as int].0 + collisions@[prev.len() as int].1
                            == slot_x + slot_r + max_excess);
                    }
                }
            } else {
                proof {
                    assert forall|k: int, j: int| 0 <= k < collisions@.len() && i + 1 <= j < n
                        implies #[trigger] collisions@[k].0 < #[trigger] orig[j].x by {
                        assert(collisions@[k].0 < orig[i as int].x);
                        assert(orig[i as int].x < orig[j].x);
                    }
                }
            }
            i = i + 1;
        }

        proof {
            assert(orig.take(n as int) =~= orig);
        }
        let ghost with = with_rhs(orig, row_y, width, slot_x, slot_r, sq_size);
        let rhs_r = slot_r.saturating_sub(sq_size) + max_excess;
        assert(rhs_r == rhs_side(orig, slot_x as int, slot_r as int, sq_size as int));
        if sq_right < width && !self.has(sq_right) && rhs_r > 0 {
            let rhs = Slot { x: sq_right, y: row_y, r: rhs_r };
            proof {
                if max_excess == 0 {
                    lemma_within_free(rhs, Slot { x: slot_x, y: slot_y, r: slot_r }, placed);
                } else {
                    let k = choose|k: int| 0 <= k < collisions@.len()
                        && #[trigger] collisions@[k].0 + collisions@[k].1 == slot_x + slot_r + max_excess;
                    let c = collisions@[k];
                    lemma_within_free(rhs, Slot { x: c.0, y: row_y, r: c.1 }, placed);
                }
            }
            self.add(rhs);
            proof {
                let s = self.slots@;
                assert forall|t: int| 0 <= t < s.len() implies slot_free(#[trigger] s[t], placed)
                    && s[t].y == row_y && s[t].r > 0 && s[t].x + s[t].r <= width by {
                    if !orig.contains(s[t]) {
                        assert(s[t] == rhs);
                    } else {
                        let j = choose|j: int| 0 <= j < orig.len() && orig[j] == s[t];
                    }
                }
            }
        }

        let ghost mid = self.slots@;
        proof {
            assert forall|j: int| 0 <= j < mid.len() && spans_into(#[trigger] mid[j], slot_x as int, sq_right as int)
                implies exists|k: int| 0 <= k < collisions@.len() && #[trigger] collisions@[k].0 == mid[j].x by {
                if !orig.contains(mid[j]) {
                    assert(mid[j].x == sq_right);
                } else {
                    let jj = choose|jj: int| 0 <= jj < orig.len() && orig[jj] == mid[j];
                    assert(spans_into(orig[jj], slot_x as int, sq_right as int));
                }
            }
        }

        assert(self.slots@ == with);
        proof {
            assert(collisions@.take(0) =~= Seq::<(usize, usize)>::empty());
        }
        let m = collisions.len();
        let mut ci: usize = 0;
        while ci < m
            invariant
                m == collisions@.len(),
                ci <= m,
                self.slots@ == cut(with, collisions@.take(ci as int), slot_x),
                row_wf(self.slots@, row_y as int, width as int),
                row_free(self.slots@, placed),
                forall|j: int| 0 <= j < self.slots@.len()
                    && spans_into(#[trigger] self.slots@[j], slot_x as int, sq_right as int)
                    ==> exists|k: int| ci <= k < collisions@.len() && #[trigger] collisions@[k].0 == self.slots@[j].x,
            decreases m - ci,
        {
            let (cx, _) = collisions[ci];
            let ghost before = self.slots@;
            proof {
                let t = collisions@.take(ci + 1);
                assert(t.drop_last() =~= collisions@.take(ci as int));
                assert(t.last() == collisions@[ci as int]);
            }
            let new_r = slot_x.saturating_sub(cx);
            if new_r > 0 {
                match self.find_idx(cx) {
                    Some(idx) => {
                        let ghost c = collisions@[ci as int];
                        proof {
                            lemma_within_free(
                                Slot { x: cx, y: row_y, r: new_r },
                                Slot { x: c.0, y: row_y, r: c.1 },
                                placed,
                            );
                        }
                        self.set_r(idx, new_r);
                        proof {
                            let s = self.slots@;
                            assert(s[idx as int] == Slot { x: cx, y: row_y, r: new_r });
                            assert forall|t: int| 0 <= t < s.len() implies slot_free(#[trigger] s[t], placed)
                                && s[t].y == row_y && s[t].r > 0 && s[t].x + s[t].r <= width by {
                                if t != idx {
                                    assert(s[t] == before[t]);
                                }
                            }
                            assert forall|j: int| 0 <= j < s.len()
                                && spans_into(#[trigger] s[j], slot_x as int, sq_right as int)
                                implies exists|k: int| ci + 1 <= k < collisions@.len() && #[trigger] collisions@[k].0 == s[j].x by {
                                assert(j != idx);
                                assert(s[j] == before[j]);
                                let k = choose|k: int| ci <= k < collisions@.len() && #[trigger] collisions@[k].0 == before[j].x;
                                assert(before[j].x != before[idx as int].x);
                                assert(k != ci);
                            }
                        }
                    },
                    None => {
                        proof {
                            let s = self.slots@;
                            assert forall|j: int| 0 <= j < s.len()
                                && spans_into(#[trigger] s[j], slot_x as int, sq_right as int)
                                implies exists|k: int| ci + 1 <= k < collisions@.len() && #[trigger] collisions@[k].0 == s[j].x by {
                                let k = choose|k: int| ci <= k < collisions@.len() && #[trigger] collisions@[k].0 == s[j].x;
                                assert(k != ci);
                            }
                        }
                    },
                }
            } else {
                self.remove(cx);
                proof {
                    let s = self.slots@;
                    assert forall|t: int| 0 <= t < s.len() implies slot_free(#[trigger] s[t], placed)
                        && s[t].y == row_y && s[t].r > 0 && s[t].x + s[t].r <= width by {
                        let j = choose|j: int| 0 <= j < before.len() && before[j] == s[t];
                    }
                    assert forall|j: int| 0 <= j < s.len()
                        && spans_into(#[trigger] s[j], slot_x as int, sq_right as int)
                        implies exists|k: int| ci + 1 <= k < collisions@.len() && #[trigger] collisions@[k].0 == s[j].x by {
                        let jj = choose|jj: int| 0 <= jj < before.len() && before[jj] == s[j];
                        let k = choose|k: int| ci <= k < collisions@.len() && #[trigger] collisions@[k].0 == before[jj].x;
                        if k == ci {
                            assert(has_x(s, cx));
                        }
                    }
                }
            }
            ci = ci + 1;
        }
        proof {
            assert(collisions@.take(m as int) =~= collisions@);
            let s = self.slots@;
            let q = PlacedSquare { x: slot_x, y: slot_y, r: sq_size };
            assert forall|i: int| 0 <= i < s.len() implies !slot_meets(#[trigger] s[i], q) by {
                if spans_into(s[i], slot_x as int, sq_right as int) {
                    let k = choose|k: int| m <= k < collisions@.len() && #[trigger] collisions@[k].0 == s[i].x;
                }
            }
        }
    }
}


/// Some slot of the row has room for a square of side `size`.
pub open spec fn row_fits(row: Seq<Slot>, size: usize) -> bool {
    exists|i: int| 0 <= i < row.len() && #[trigger] row[i].r >= size
}

/// `i` is the first slot of the row with room for a square of side `size`.
pub open spec fn is_first_fit(row: Seq<Slot>, size: usize, i: int) -> bool {
    &&& 0 <= i < row.len()
    &&& row[i].r >= size
    &&& forall|j: int| 0 <= j < i ==> #[trigger] row[j].r < size
}

impl MondrianRow {
    /// The index of the first slot with room for a square of side `size`.
    fn first_fit(&self, size: usize) -> (res: Option<usize>)
        ensures
            match res {
                Some(i) => is_first_fit(self.slots@, size, i as int),
                None => !row_fits(self.slots@, size),
            },
    {
        let n = self.slots.len();
        let mut i: usize = 0;
        while i < n
            invariant
                n == self.slots@.len(),
                i <= n,
                forall|j: int| 0 <= j < i ==> #[trigger] self.slots@[j].r < size,
            decreases n - i,
        {
            if self.slots[i].r >= size {
                return Some(i);
            }
            i = i + 1;
        }
        None
    }
}

/// The packer: `width` columns, and for each row the free slots that start in it.
/// `placed` records, for the proofs, every square placed so far.
pub struct MondrianLayout {
    pub width: usize,
    pub rows: Vec<MondrianRow>,
    pub placed: Ghost<Seq<PlacedSquare>>,
}

impl MondrianLayout {
    /// The packer's invariant: each row is well formed, every free slot is clear
    /// of every placed square, every placed square ends within the rows, and no
    /// two placed squares overlap.
    pub open spec fn wf(&self) -> bool {
        &&& forall|y: int| 0 <= y < self.rows@.len()
            ==> row_wf(#[trigger] self.rows@[y].slots@, y, self.width as int)
        &&& forall|y: int| 0 <= y < self.rows@.len()
            ==> row_free(#[trigger] self.rows@[y].slots@, self.placed@)
        &&& ends_by(self.placed@, self.rows@.len() as int)
        &&& pairwise_disjoint(self.placed@)
    }

    /// An empty layout of `width` columns.
    pub fn new(width: usize) -> (layout: Self)
        ensures
            layout.wf(),
            layout.width == width,
            layout.rows@.len() == 0,
            layout.placed@ == Seq::<PlacedSquare>::empty(),
    {
        MondrianLayout { width, rows: Vec::new(), placed: Ghost(Seq::empty()) }
    }

    /// Whether row `y` exists.
    pub fn row_exists(&self, y: usize) -> (res: bool)
        ensures
            res == (y < self.rows@.len()),
    {
        y < self.rows.len()
    }

    /// Appends an empty row and returns its index.
    pub fn add_row(&mut self) -> (idx: usize)
        requires
            old(self).wf(),
        ensures
            final(self).wf(),
            idx == old(self).rows@.len(),
            final(self).rows@.len() == old(self).rows@.len() + 1,
            forall|y: int| 0 <= y < old(self).rows@.len() ==> #[trigger] final(self).rows@[y] == old(self).rows@[y],
            final(self).rows@[idx as int].slots@ == Seq::<Slot>::empty(),
            final(self).width == old(self).width,
            final(self).placed@ == old(self).placed@,
    {
        let idx = self.rows.len();
        self.rows.push(MondrianRow::new());
        proof {
            assert forall|y: int| 0 <= y < self.rows@.len()
                implies row_wf(#[trigger] self.rows@[y].slots@, y, self.width as int)
                && row_free(self.rows@[y].slots@, self.placed@) by {
                if y < idx {
                    assert(self.rows@[y] == old(self).rows@[y]);
                }
            }
        }
        idx
    }

    /// The slots of row `row_y` that reach into the columns of the new square
    /// `(slot_x, slot_y, sq_size)` and down to row `slot_y` or beyond, as
    /// `(column, side)` in order.
    #[verifier::loop_isolation(false)]
    #[verifier::rlimit(40)]
    fn trim_entries(&self, row_y: usize, slot_x: usize, slot_y: usize, sq_size: usize) -> (es: Vec<(usize, usize)>)
        requires
            self.wf(),
            row_y < slot_y < self.rows@.len(),
            slot_y + self.width <= usize::MAX,
            slot_x + sq_size <= usize::MAX,
        ensures
            es@ == entries(self.rows@[row_y as int].slots@, slot_x as int, slot_x + sq_size, slot_y as int),
            forall|k: int| 0 <= k < es@.len() ==> entry_ok(#[trigger] es@[k], row_y, slot_x, slot_y, sq_size, self.width, self.placed@),
            forall|k1: int, k2: int| 0 <= k1 < k2 < es@.len() ==> #[trigger] es@[k1].0 < #[trigger] es@[k2].0,
            pending(self.rows@[row_y as int].slots@, PlacedSquare { x: slot_x, y: slot_y, r: sq_size }, es@, 0),
    {
        let sq_right = slot_x + sq_size;
        let ghost placed = self.placed@;
        let ghost width = self.width;
        let ghost nsq = PlacedSquare { x: slot_x, y: slot_y, r: sq_size };
        let ghost orig = self.rows@[row_y as int].slots@;
        assert(row_wf(orig, row_y as int, width as int));
        assert(row_free(orig, placed));
        assert(orig.take(0) =~= Seq::<Slot>::empty());
        let mut to_adjust: Vec<(usize, usize)> = Vec::new();
        let n = self.rows[row_y].slots.len();
        let mut i: usize = 0;
        while i < n
            invariant
                n == orig.len(),
                i <= n,
                forall|k: int| 0 <= k < to_adjust@.len()
                    ==> entry_ok(#[trigger] to_adjust@[k], row_y, slot_x, slot_y, sq_size, width, placed),
                forall|k1: int, k2: int| 0 <= k1 < k2 < to_adjust@.len()
                    ==> #[trigger] to_adjust@[k1].0 < #[trigger] to_adjust@[k2].0,
                forall|k: int, j: int| 0 <= k < to_adjust@.len() && i <= j < n
                    ==> #[trigger] to_adjust@[k].0 < #[trigger] orig[j].x,
                forall|j: int| 0 <= j < i && slot_meets(#[trigger] orig[j], nsq)
                    ==> exists|k: int| 0 <= k < to_adjust@.len() && #[trigger] to_adjust@[k].0 == orig[j].x,
                to_adjust@ == entries(orig.take(i as int), slot_x as int, sq_right as int, slot_y as int),
            decreases n - i,
        {
            let s = self.rows[row_y].slots[i];
            let s_right = s.x + s.r;
            proof {
                let t = orig.take(i + 1);
                assert(t.drop_last() =~= orig.take(i as int));
                assert(t.last() == s);
                assert(orig[i as int] == s);
                assert forall|k: int, j: int| 0 <= k < to_adjust@.len() && i + 1 <= j < n
                    implies #[trigger] to_adjust@[k].0 < #[trigger] orig[j].x by {
                    assert(to_adjust@[k].0 < orig[i as int].x);
                    assert(orig[i as int].x < orig[j].x);
                }
            }
            if s.x < sq_right && s_right > slot_x && s.y + s.r >= slot_y {
                let ghost prev = to_adjust@;
                to_adjust.push((s.x, s.r));
                proof {
                    assert(to_adjust@[prev.len() as int] == (s.x, s.r));
                    assert forall|j: int| 0 <= j < i + 1 && slot_meets(#[trigger] orig[j], nsq)
                        implies exists|k: int| 0 <= k < to_adjust@.len() && #[trigger] to_adjust@[k].0 == orig[j].x by {
                        if j < i {
                            let k = choose|k: int| 0 <= k < prev.len() && #[trigger] prev[k].0 == orig[j].x;
                            assert(to_adjust@[k] == prev[k]);
                        } else {
                            assert(to_adjust@[prev.len() as int].0 == orig[j].x);
                        }
                    }
                }
            }
            i = i + 1;
        }
        proof {
            assert(orig.take(n as int) =~= orig);
        }
        to_adjust
    }

    /// Hands out the part of the entry `(sx, old_r)` of row `row_y` that lies
    /// right of the cut: the rectangle from column `sx + new_r`, row `row_y`,
    /// down to row `slot_y`, as a staircase of slots in this and the following rows.
    #[verifier::loop_isolation(false)]
    #[verifier::rlimit(40)]
    fn hand_out_remainder(
        &mut self,
        sx: usize,
        old_r: usize,
        row_y: usize,
        slot_x: usize,
        slot_y: usize,
        sq_size: usize,
        Ghost(es): Ghost<Seq<(usize, usize)>>,
        Ghost(from): Ghost<int>,
    )
        requires
            old(self).wf(),
            row_y < slot_y < old(self).rows@.len(),
            entry_ok((sx, old_r), row_y, slot_x, slot_y, sq_size, old(self).width, old(self).placed@),
            pending(old(self).rows@[row_y as int].slots@, PlacedSquare { x: slot_x, y: slot_y, r: sq_size }, es, from),
        ensures
            final(self).wf(),
            final(self).width == old(self).width,
            final(self).placed@ == old(self).placed@,
            final(self).rows@.len() == old(self).rows@.len(),
            forall|y: int| 0 <= y < old(self).rows@.len() && (y < row_y || y >= slot_y)
                ==> #[trigger] final(self).rows@[y] == old(self).rows@[y],
            pending(final(self).rows@[row_y as int].slots@, PlacedSquare { x: slot_x, y: slot_y, r: sq_size }, es, from),
            rows_view(final(self).rows@) == add_pieces(
                rows_view(old(self).rows@),
                staircase((sx + (slot_y - row_y)) as usize, row_y, (old_r - (slot_y - row_y)) as usize, (slot_y - row_y) as usize),
            ),
    {
        let ghost placed = self.placed@;
        let ghost width = self.width;
        let ghost len = self.rows@.len();
        let ghost nsq = PlacedSquare { x: slot_x, y: slot_y, r: sq_size };
        let ghost v0 = rows_view(self.rows@);
        let new_r = slot_y - row_y;
        let mut rem_x = sx + new_r;
        let mut rem_y = row_y;
        let mut rem_w = old_r - new_r;
        let mut rem_h = new_r;
        let ghost stairs = staircase(rem_x, rem_y, rem_w, rem_h);
        let ghost mut done: Seq<Slot> = Seq::empty();
        proof {
            assert(stairs =~= done + staircase(rem_x, rem_y, rem_w, rem_h));
        }
        while rem_w > 0 && rem_h > 0
            invariant
                rows_view(self.rows@) == add_pieces(v0, done),
                stairs == done + staircase(rem_x, rem_y, rem_w, rem_h),
                self.wf(),
                self.width == width,
                self.placed@ == placed,
                self.rows@.len() == len,
                forall|y: int| 0 <= y < len && (y < row_y || y >= slot_y)
                    ==> #[trigger] self.rows@[y] == old(self).rows@[y],
                pending(self.rows@[row_y as int].slots@, nsq, es, from),
                rem_x + rem_w == sx + old_r,
                sx <= rem_x,
                row_y <= rem_y,
                rem_y + rem_h == slot_y,
            decreases rem_w + rem_h,
        {
            let ghost snap = *self;
            while !self.row_exists(rem_y)
                invariant
                    *self == snap,
                    rem_y < self.rows@.len(),
                decreases rem_y + 1 - self.rows@.len(),
            {
                self.add_row();
            }
            let r = if rem_w <= rem_h { rem_w } else { rem_h };
            let piece = Slot { x: rem_x, y: rem_y, r: r };
            let ghost before = self.rows@[rem_y as int].slots@;
            let ghost v_before = rows_view(self.rows@);
            proof {
                lemma_within_free(piece, Slot { x: sx, y: row_y, r: old_r }, placed);
                assert(row_wf(before, rem_y as int, width as int));
                assert(row_free(before, placed));
            }
            self.rows[rem_y].add(piece);
            proof {
                let s = self.rows@[rem_y as int].slots@;
                assert forall|t: int| 0 <= t < s.len() implies slot_free(#[trigger] s[t], placed)
                    && s[t].y == rem_y && s[t].r > 0 && s[t].x + s[t].r <= width
                    && (rem_y == row_y && !before.contains(s[t]) ==> !slot_meets(s[t], nsq))
                    && (before.contains(s[t]) || s[t] == piece) by {
                    if !before.contains(s[t]) {
                        if s[t].y != piece.y {
                            let j = choose|j: int| 0 <= j < before.len()
                                && #[trigger] before[j].x == piece.x && before[j].y == s[t].y;
                        }
                        assert(s[t] == piece);
                    } else {
                        let j = choose|j: int| 0 <= j < before.len() && before[j] == s[t];
                    }
                }
                assert forall|y: int| 0 <= y < self.rows@.len()
                    implies row_wf(#[trigger] self.rows@[y].slots@, y, self.width as int)
                    && row_free(self.rows@[y].slots@, self.placed@) by {
                    if y != rem_y {
                        assert(self.rows@[y] == snap.rows@[y]);
                    }
                }
                if rem_y == row_y {
                    assert forall|j: int| 0 <= j < s.len() && slot_meets(#[trigger] s[j], nsq)
                        implies exists|k: int| from <= k < es.len() && #[trigger] es[k].0 == s[j].x by {
                        let jj = choose|jj: int| 0 <= jj < before.len() && before[jj] == s[j];
                        assert(slot_meets(before[jj], nsq));
                    }
                } else {
                    assert(self.rows@[row_y as int] == snap.rows@[row_y as int]);
                }
                let nd = done.push(piece);
                assert(nd.drop_last() =~= done);
                assert(nd.last() == piece);
                assert(rows_view(self.rows@) =~= v_before.update(rem_y as int, added(v_before[rem_y as int], piece)));
                assert(rows_view(self.rows@) == add_pieces(v0, nd));
                let rest = staircase(rem_x, rem_y, rem_w, rem_h);
                if rem_w <= rem_h {
                    assert(rest == seq![piece] + staircase(rem_x, (rem_y + rem_w) as usize, rem_w, (rem_h - rem_w) as usize));
                    assert(stairs =~= nd + staircase(rem_x, (rem_y + rem_w) as usize, rem_w, (rem_h - rem_w) as usize));
                } else {
                    assert(rest == seq![piece] + staircase((rem_x + rem_h) as usize, rem_y, (rem_w - rem_h) as usize, rem_h));
                    assert(stairs =~= nd + staircase((rem_x + rem_h) as usize, rem_y, (rem_w - rem_h) as usize, rem_h));
                }
                done = nd;
            }
            if rem_w <= rem_h {
                rem_y = rem_y + rem_w;
                rem_h = rem_h.saturating_sub(rem_w);
            } else {
                rem_x = rem_x + rem_h;
                rem_w = rem_w.saturating_sub(rem_h);
            }
        }
        proof {
            assert(staircase(rem_x, rem_y, rem_w, rem_h) =~= Seq::<Slot>::empty());
            assert(stairs =~= done);
        }
    }

    /// Row `row_y` lies above the new square `(slot_x, slot_y, sq_size)`: each
    /// slot that reaches down into the square is cut back to end at row
    /// `slot_y`, and the part of it right of the cut is handed out again as
    /// smaller slots in this and the following rows.
    #[verifier::loop_isolation(false)]
    #[verifier::rlimit(40)]
    fn trim_row_below(&mut self, row_y: usize, slot_x: usize, slot_y: usize, sq_size: usize)
        requires
            old(self).wf(),
            row_y < slot_y < old(self).rows@.len(),
            slot_y + old(self).width <= usize::MAX,
            slot_x + sq_size <= usize::MAX,
        ensures
            final(self).wf(),
            final(self).width == old(self).width,
            final(self).placed@ == old(self).placed@,
            final(self).rows@.len() == old(self).rows@.len(),
            forall|y: int| 0 <= y < old(self).rows@.len() && (y < row_y || y >= slot_y)
                ==> #[trigger] final(self).rows@[y] == old(self).rows@[y],
            row_clear(final(self).rows@[row_y as int].slots@, PlacedSquare { x: slot_x, y: slot_y, r: sq_size }),
            rows_view(final(self).rows@) == trim_row(rows_view(old(self).rows@), row_y, slot_x, slot_y, sq_size),
    {
        let ghost placed = self.placed@;
        let ghost view0 = rows_view(self.rows@);
        let ghost width = self.width;
        let ghost len = self.rows@.len();
        let ghost nsq = PlacedSquare { x: slot_x, y: slot_y, r: sq_size };
        let to_adjust = self.trim_entries(row_y, slot_x, slot_y, sq_size);
        proof {
            assert(view0[row_y as int] == self.rows@[row_y as int].slots@);
            assert(to_adjust@.take(0) =~= Seq::<(usize, usize)>::empty());
        }
        let m = to_adjust.len();
        let mut ai: usize = 0;
        while ai < m
            invariant
                m == to_adjust@.len(),
                ai <= m,
                forall|k: int| 0 <= k < to_adjust@.len()
                    ==> entry_ok(#[trigger] to_adjust@[k], row_y, slot_x, slot_y, sq_size, width, placed),
                forall|k1: int, k2: int| 0 <= k1 < k2 < to_adjust@.len()
                    ==> #[trigger] to_adjust@[k1].0 < #[trigger] to_adjust@[k2].0,
                to_adjust@ == entries(view0[row_y as int], slot_x as int, slot_x + sq_size, slot_y as int),
                rows_view(self.rows@) == entries_fold(view0, row_y, to_adjust@.take(ai as int), slot_y),
                self.wf(),
                self.width == width,
                self.placed@ == placed,
                self.rows@.len() == len,
                forall|y: int| 0 <= y < len && (y < row_y || y >= slot_y)
                    ==> #[trigger] self.rows@[y] == old(self).rows@[y],
                pending(self.rows@[row_y as int].slots@, nsq, to_adjust@, ai as int),
            decreases m - ai,
        {
            let (sx, old_r) = to_adjust[ai];
            let new_r = slot_y.saturating_sub(row_y);
            let ghost v_start = rows_view(self.rows@);
            proof {
                let t = to_adjust@.take(ai + 1);
                assert(t.drop_last() =~= to_adjust@.take(ai as int));
                assert(t.last() == to_adjust@[ai as int]);
                assert(entry_ok(to_adjust@[ai as int], row_y, slot_x, slot_y, sq_size, width, placed));
            }
            if new_r > 0 {
                let ghost before = self.rows@[row_y as int].slots@;
                let ghost rows_before = self.rows@;
                match self.rows[row_y].find_idx(sx) {
                    Some(idx) => {
                        proof {
                            lemma_within_free(
                                Slot { x: sx, y: row_y, r: new_r },
                                Slot { x: sx, y: row_y, r: old_r },
                                placed,
                            );
                        }
                        self.rows[row_y].set_r(idx, new_r);
                        proof {
                            let s = self.rows@[row_y as int].slots@;
                            assert(before[idx as int].y == row_y);
                            assert(s[idx as int] == Slot { x: sx, y: row_y, r: new_r });
                            assert forall|t: int| 0 <= t < s.len() implies slot_free(#[trigger] s[t], placed)
                                && s[t].y == row_y && s[t].r > 0 && s[t].x + s[t].r <= width by {
                                if t != idx {
                                    assert(s[t] == before[t]);
                                }
                            }
                            assert forall|j: int| 0 <= j < s.len() && slot_meets(#[trigger] s[j], nsq)
                                implies exists|k: int| ai + 1 <= k < to_adjust@.len()
                                    && #[trigger] to_adjust@[k].0 == s[j].x by {
                                assert(j != idx);
                                assert(s[j] == before[j]);
                                let k = choose|k: int| ai <= k < to_adjust@.len()
                                    && #[trigger] to_adjust@[k].0 == before[j].x;
                                assert(before[j].x != before[idx as int].x);
                                assert(k != ai);
                            }
                            assert forall|y: int| 0 <= y < self.rows@.len()
                                implies row_wf(#[trigger] self.rows@[y].slots@, y, self.width as int)
                                && row_free(self.rows@[y].slots@, self.placed@) by {
                                if y != row_y {
                                    assert(self.rows@[y] == rows_before[y]);
                                }
                            }
                        }
                    },
                    None => {
                        proof {
                            let s = self.rows@[row_y as int].slots@;
                            assert forall|j: int| 0 <= j < s.len() && slot_meets(#[trigger] s[j], nsq)
                                implies exists|k: int| ai + 1 <= k < to_adjust@.len()
                                    && #[trigger] to_adjust@[k].0 == s[j].x by {
                                let k = choose|k: int| ai <= k < to_adjust@.len()
                                    && #[trigger] to_adjust@[k].0 == s[j].x;
                                assert(k != ai);
                            }
                        }
                    },
                }
                proof {
                    assert(rows_view(self.rows@) =~= v_start.update(row_y as int, resized_at(v_start[row_y as int], sx, new_r)));
                }
                self.hand_out_remainder(sx, old_r, row_y, slot_x, slot_y, sq_size, Ghost(to_adjust@), Ghost(ai + 1));
            } else {
                self.rows[row_y].remove(sx);
                proof {
                    assert(rows_view(self.rows@) =~= v_start.update(row_y as int, removed(v_start[row_y as int], sx)));
                }
            }
            ai = ai + 1;
        }
        proof {
            assert(to_adjust@.take(m as int) =~= to_adjust@);
        }
    }

    /// The first part of placing square `(slot_x, slot_y, sq_size)` on a slot
    /// of side `slot_r`: the slot goes, and every row the square covers is cut
    /// around it (or opened, where it does not exist yet).
    #[verifier::loop_isolation(false)]
    #[verifier::rlimit(40)]
    fn cover_rows(&mut self, slot_x: usize, slot_y: usize, slot_r: usize, sq_size: usize)
        requires
            old(self).wf(),
            slot_y <= old(self).rows@.len(),
            slot_x + slot_r <= old(self).width,
            slot_free(Slot { x: slot_x, y: slot_y, r: slot_r }, old(self).placed@),
            sq_size <= slot_r || slot_x + slot_r == old(self).width,
            old(self).rows@.len() + sq_size + old(self).width <= usize::MAX,
        ensures
            final(self).wf(),
            final(self).width == old(self).width,
            final(self).placed@ == old(self).placed@,
            final(self).rows@.len() == if slot_y + sq_size > old(self).rows@.len() {
                (slot_y + sq_size) as int
            } else {
                old(self).rows@.len() as int
            },
            forall|y: int| 0 <= y < old(self).rows@.len() && (y < slot_y || (y >= slot_y + sq_size && y != slot_y))
                ==> #[trigger] final(self).rows@[y] == old(self).rows@[y],
            forall|y: int| slot_y <= y < slot_y + sq_size
                ==> row_clear(#[trigger] final(self).rows@[y].slots@, PlacedSquare { x: slot_x, y: slot_y, r: sq_size }),
            rows_view(final(self).rows@) == spanned_rows(
                rows_view(old(self).rows@), slot_y + sq_size, old(self).width, slot_x, slot_y, slot_r, sq_size),
    {
        let sq_right = slot_x + sq_size;
        let sq_top = slot_y + sq_size;
        let width = self.width;
        let ghost v0 = rows_view(self.rows@);
        let ghost placed = self.placed@;
        let ghost old_len = self.rows@.len();
        let ghost nsq = PlacedSquare { x: slot_x, y: slot_y, r: sq_size };

        if self.row_exists(slot_y) {
            let ghost rows_before = self.rows@;
            self.rows[slot_y].remove(slot_x);
            proof {
                let s = self.rows@[slot_y as int].slots@;
                let o = rows_before[slot_y as int].slots@;
                assert(row_wf(o, slot_y as int, width as int));
                assert(row_free(o, placed));
                assert forall|t: int| 0 <= t < s.len() implies slot_free(#[trigger] s[t], placed)
                    && s[t].y == slot_y && s[t].r > 0 && s[t].x + s[t].r <= width by {
                    let j = choose|j: int| 0 <= j < o.len() && o[j] == s[t];
                }
                assert forall|y: int| 0 <= y < self.rows@.len()
                    implies row_wf(#[trigger] self.rows@[y].slots@, y, self.width as int)
                    && row_free(self.rows@[y].slots@, self.placed@) by {
                    if y != slot_y {
                        assert(self.rows@[y] == rows_before[y]);
                    }
                }
                assert(rows_view(self.rows@) =~= spanned_rows(v0, slot_y as int, width, slot_x, slot_y, slot_r, sq_size));
            }
        }

        let mut row_y = slot_y;
        while row_y < sq_top
            invariant
                self.wf(),
                self.width == width,
                self.placed@ == placed,
                slot_y <= row_y <= sq_top,
                self.rows@.len() == if row_y > old_len { row_y as int } else { old_len as int },
                ends_by(placed, old_len as int),
                forall|y: int| 0 <= y < old_len && (y < slot_y || (y >= row_y && y != slot_y))
                    ==> #[trigger] self.rows@[y] == old(self).rows@[y],
                forall|y: int| slot_y <= y < row_y ==> row_clear(#[trigger] self.rows@[y].slots@, nsq),
                rows_view(self.rows@) == spanned_rows(v0, row_y as int, width, slot_x, slot_y, slot_r, sq_size),
            decreases sq_top - row_y,
        {
            let ghost rows_before = self.rows@;
            let ghost vb = rows_view(self.rows@);
            if self.row_exists(row_y) {
                proof {
                    assert(row_wf(rows_before[row_y as int].slots@, row_y as int, width as int));
                    assert(row_free(rows_before[row_y as int].slots@, placed));
                }
                self.rows[row_y].clear_span(row_y, slot_x, slot_y, slot_r, sq_size, width, Ghost(placed));
                proof {
                    assert forall|y: int| 0 <= y < self.rows@.len()
                        implies row_wf(#[trigger] self.rows@[y].slots@, y, self.width as int)
                        && row_free(self.rows@[y].slots@, self.placed@) by {
                        if y != row_y {
                            assert(self.rows@[y] == rows_before[y]);
                        }
                    }
                    assert forall|y: int| slot_y <= y < row_y + 1
                        implies row_clear(#[trigger] self.rows@[y].slots@, nsq) by {
                        if y != row_y {
                            assert(self.rows@[y] == rows_before[y]);
                        }
                    }
                    assert(vb[row_y as int] == rows_before[row_y as int].slots@);
                    let sp1 = spanned_rows(v0, row_y + 1, width, slot_x, slot_y, slot_r, sq_size);
                    let nv = rows_view(self.rows@);
                    assert(row_y < old_len);
                    assert(nv.len() == sp1.len());
                    assert forall|y: int| 0 <= y < sp1.len() implies nv[y] == sp1[y] by {
                        if y != row_y {
                            assert(nv[y] == vb[y]);
                        }
                    }
                    assert(nv =~= sp1);
                }
            } else {
                self.add_row();
                let ghost rows_mid = self.rows@;
                if slot_x > 0 {
                    let left = Slot { x: 0, y: row_y, r: slot_x };
                    proof {
                        lemma_free_when_all_above(left, placed, old_len as int);
                    }
                    self.rows[row_y].add(left);
                }
                let ghost rows_mid2 = self.rows@;
                proof {
                    let s = self.rows@[row_y as int].slots@;
                    assert forall|t: int| 0 <= t < s.len() implies slot_free(#[trigger] s[t], placed)
                        && s[t].y == row_y && s[t].r > 0 && s[t].x + s[t].r <= width
                        && !slot_meets(s[t], nsq) && s[t].x == 0 by {
                        assert(slot_x > 0);
                    }
                }
                if sq_right < self.width {
                    let right = Slot { x: sq_right, y: row_y, r: width - sq_right };
                    proof {
                        lemma_free_when_all_above(right, placed, old_len as int);
                    }
                    self.rows[row_y].add(right);
                    proof {
                        let s = self.rows@[row_y as int].slots@;
                        let o = rows_mid2[row_y as int].slots@;
                        assert forall|t: int| 0 <= t < s.len() implies slot_free(#[trigger] s[t], placed)
                            && s[t].y == row_y && s[t].r > 0 && s[t].x + s[t].r <= width
                            && !slot_meets(s[t], nsq) by {
                            if !o.contains(s[t]) {
                                assert(s[t] == right);
                            } else {
                                let j = choose|j: int| 0 <= j < o.len() && o[j] == s[t];
                            }
                        }
                    }
                }
                proof {
                    assert forall|y: int| 0 <= y < self.rows@.len()
                        implies row_wf(#[trigger] self.rows@[y].slots@, y, self.width as int)
                        && row_free(self.rows@[y].slots@, self.placed@) by {
                        if y != row_y {
                            assert(self.rows@[y] == rows_before[y]);
                        }
                    }
                    assert forall|y: int| slot_y <= y < row_y + 1
                        implies row_clear(#[trigger] self.rows@[y].slots@, nsq) by {
                        if y != row_y {
                            assert(self.rows@[y] == rows_before[y]);
                        }
                    }
                    assert(self.rows@[row_y as int].slots@ == fresh_row(row_y, width, slot_x, sq_size));
                    let sp1 = spanned_rows(v0, row_y + 1, width, slot_x, slot_y, slot_r, sq_size);
                    let nv = rows_view(self.rows@);
                    assert(row_y >= old_len);
                    assert(nv.len() == sp1.len());
                    assert forall|y: int| 0 <= y < sp1.len() implies nv[y] == sp1[y] by {
                        if y != row_y {
                            assert(nv[y] == vb[y]);
                        }
                    }
                    assert(nv =~= sp1);
                }
            }
            row_y = row_y + 1;
        }

    }

    /// Places a square of side `sq_size` at `(slot_x, slot_y)`, the corner of a
    /// free slot of side `slot_r`, and reshapes the free slots around it: the
    /// slot itself goes, the rows the square covers (created where missing)
    /// are cut around it, and the rows just above it are trimmed to end where
    /// it starts.
    #[verifier::loop_isolation(false)]
    #[verifier::rlimit(40)]
    pub fn fill_slot(&mut self, slot_x: usize, slot_y: usize, slot_r: usize, sq_size: usize) -> (sq: PlacedSquare)
        requires
            old(self).wf(),
            slot_y <= old(self).rows@.len(),
            slot_x + slot_r <= old(self).width,
            slot_free(Slot { x: slot_x, y: slot_y, r: slot_r }, old(self).placed@),
            sq_size <= slot_r || (slot_x + slot_r == old(self).width && ends_by(old(self).placed@, slot_y as int)),
            forall|y: int, i: int| 0 <= y < crate::reshape::check_from(slot_y, sq_size) && 0 <= i < old(self).rows@[y].slots@.len()
                ==> !slot_meets(#[trigger] old(self).rows@[y].slots@[i], PlacedSquare { x: slot_x, y: slot_y, r: sq_size }),
            old(self).rows@.len() + sq_size + old(self).width <= usize::MAX,
        ensures
            sq == (PlacedSquare { x: slot_x, y: slot_y, r: sq_size }),
            final(self).wf(),
            final(self).width == old(self).width,
            final(self).placed@ == old(self).placed@.push(sq),
            final(self).rows@.len() == if slot_y + sq_size > old(self).rows@.len() {
                (slot_y + sq_size) as int
            } else {
                old(self).rows@.len() as int
            },
            forall|y: int| 0 <= y < old(self).rows@.len() && (y + sq_size < slot_y || (y >= slot_y + sq_size && y > slot_y))
                ==> #[trigger] final(self).rows@[y] == old(self).rows@[y],
            rows_view(final(self).rows@) == filled_rows(rows_view(old(self).rows@), old(self).width, slot_x, slot_y, slot_r, sq_size),
    {
        let ghost sq_top = slot_y + sq_size;
        let width = self.width;
        let ghost v0 = rows_view(self.rows@);
        let ghost placed = self.placed@;
        let ghost old_len = self.rows@.len();
        let ghost nsq = PlacedSquare { x: slot_x, y: slot_y, r: sq_size };
        let ghost filled = Slot { x: slot_x, y: slot_y, r: slot_r };

        self.cover_rows(slot_x, slot_y, slot_r, sq_size);
        let ghost after_span = self.rows@;
        let ghost span_view = rows_view(self.rows@);
        let check_from = slot_y.saturating_sub(sq_size);
        assert(check_from == crate::reshape::check_from(slot_y, sq_size));
        let mut row_y = check_from;
        while row_y < slot_y
            invariant
                self.wf(),
                self.width == width,
                self.placed@ == placed,
                check_from <= row_y <= slot_y,
                self.rows@.len() == after_span.len(),
                forall|y: int| 0 <= y < after_span.len() && (y < row_y || y >= slot_y)
                    ==> (y < check_from || y >= slot_y ==> #[trigger] self.rows@[y] == after_span[y]),
                forall|y: int| check_from <= y < row_y ==> row_clear(#[trigger] self.rows@[y].slots@, nsq),
                rows_view(self.rows@) == window(span_view, check_from as int, row_y as int, slot_x, slot_y, sq_size),
            decreases slot_y - row_y,
        {
            if self.row_exists(row_y) {
                let ghost rows_before = self.rows@;
                self.trim_row_below(row_y, slot_x, slot_y, sq_size);
                proof {
                    assert forall|y: int| check_from <= y < row_y + 1
                        implies row_clear(#[trigger] self.rows@[y].slots@, nsq) by {
                        if y != row_y {
                            assert(self.rows@[y] == rows_before[y]);
                        }
                    }
                }
            }
            row_y = row_y + 1;
        }

        proof {
            let rows = self.rows@;
            assert forall|y: int| 0 <= y < rows.len() implies row_clear(#[trigger] rows[y].slots@, nsq) by {
                if y < check_from {
                    assert(rows[y] == after_span[y]);
                    assert(after_span[y] == old(self).rows@[y]);
                    assert forall|i: int| 0 <= i < rows[y].slots@.len() implies
                        !slot_meets(#[trigger] rows[y].slots@[i], nsq) by {
                        assert(!slot_meets(old(self).rows@[y].slots@[i], nsq));
                    }
                } else if y >= slot_y {
                    assert(rows[y] == after_span[y]);
                    if y >= sq_top {
                        assert forall|i: int| 0 <= i < rows[y].slots@.len() implies
                            !slot_meets(#[trigger] rows[y].slots@[i], nsq) by {
                            assert(row_wf(rows[y].slots@, y, width as int));
                        }
                    }
                }
            }
            assert forall|k: int| 0 <= k < placed.len() implies !squares_meet(#[trigger] placed[k], nsq) by {
                if sq_size <= slot_r {
                    lemma_square_in_free_slot(filled, nsq, placed);
                } else {
                    assert(placed[k].y + placed[k].r <= slot_y);
                }
            }
        }
        self.placed = Ghost(self.placed@.push(nsq));
        proof {
            assert forall|y: int| 0 <= y < old_len && (y + sq_size < slot_y || (y >= slot_y + sq_size && y > slot_y))
                implies #[trigger] self.rows@[y] == old(self).rows@[y] by {
                assert(self.rows@[y] == after_span[y]);
            }
            let np = self.placed@;
            assert forall|y: int| 0 <= y < self.rows@.len()
                implies row_free(#[trigger] self.rows@[y].slots@, np) by {
                let s = self.rows@[y].slots@;
                assert(row_free(s, placed));
                assert(row_clear(s, nsq));
                assert forall|i: int| 0 <= i < s.len() implies slot_free(#[trigger] s[i], np) by {
                    assert forall|k: int| 0 <= k < np.len() implies !slot_meets(s[i], #[trigger] np[k]) by {
                        if k < placed.len() {
                            assert(np[k] == placed[k]);
                        }
                    }
                }
            }
            assert forall|k: int| 0 <= k < np.len() implies #[trigger] np[k].y + np[k].r <= self.rows@.len() by {
                if k < placed.len() {
                    assert(np[k] == placed[k]);
                }
            }
            assert forall|i: int, j: int| 0 <= i < j < np.len() implies !squares_meet(#[trigger] np[i], #[trigger] np[j]) by {
                if j < placed.len() {
                    assert(np[i] == placed[i]);
                    assert(np[j] == placed[j]);
                } else {
                    assert(np[i] == placed[i]);
                    assert(np[j] == nsq);
                }
            }
        }
        PlacedSquare { x: slot_x, y: slot_y, r: sq_size }
    }

    /// Places a square of side `size` first-fit: at the first slot, scanning the
    /// rows from the top and each row from the left, with room for it; when no
    /// slot has room, at the left edge of a new row below all others.
    #[verifier::rlimit(40)]
    pub fn place(&mut self, size: usize) -> (sq: PlacedSquare)
        requires
            old(self).wf(),
            old(self).rows@.len() + size + old(self).width + 1 <= usize::MAX,
        ensures
            final(self).wf(),
            final(self).width == old(self).width,
            final(self).placed@ == old(self).placed@.push(sq),
            sq.r == size,
            (exists|y: int| 0 <= y < old(self).rows@.len() && row_fits(#[trigger] old(self).rows@[y].slots@, size))
                ==> {
                &&& sq.y < old(self).rows@.len()
                &&& row_fits(old(self).rows@[sq.y as int].slots@, size)
                &&& forall|y: int| 0 <= y < sq.y ==> !row_fits(#[trigger] old(self).rows@[y].slots@, size)
                &&& exists|i: int| #[trigger] is_first_fit(old(self).rows@[sq.y as int].slots@, size, i)
                    && old(self).rows@[sq.y as int].slots@[i].x == sq.x
            },
            !(exists|y: int| 0 <= y < old(self).rows@.len() && row_fits(#[trigger] old(self).rows@[y].slots@, size))
                ==> sq.x == 0 && sq.y == old(self).rows@.len(),
            size <= old(self).width ==> sq.x + sq.r <= old(self).width,
            old(self).rows@.len() <= final(self).rows@.len() <= old(self).rows@.len() + size + 1,
            (sq, rows_view(final(self).rows@)) == placement(rows_view(old(self).rows@), old(self).width, size),
    {
        let ghost v0 = rows_view(self.rows@);
        let nrows = self.rows.len();
        let mut row_idx: usize = 0;
        while row_idx < nrows
            invariant
                self.wf(),
                *self == *old(self),
                v0 == rows_view(self.rows@),
                nrows == self.rows@.len(),
                row_idx <= nrows,
                old(self).rows@.len() + size + old(self).width + 1 <= usize::MAX,
                forall|y: int| 0 <= y < row_idx ==> !row_fits(#[trigger] self.rows@[y].slots@, size),
            decreases nrows - row_idx,
        {
            match self.rows[row_idx].first_fit(size) {
                Some(i) => {
                    let s = self.rows[row_idx].slots[i];
                    proof {
                        let row = self.rows@[row_idx as int].slots@;
                        assert(row_wf(row, row_idx as int, self.width as int));
                        assert(row_free(row, self.placed@));
                        assert(row[i as int] == s);
                        assert(row_fits(row, size));
                        assert forall|y: int, j: int| 0 <= y < crate::reshape::check_from(s.y, size) && 0 <= j < self.rows@[y].slots@.len()
                            implies !slot_meets(#[trigger] self.rows@[y].slots@[j], PlacedSquare { x: s.x, y: s.y, r: size }) by {
                            assert(!row_fits(self.rows@[y].slots@, size));
                            assert(self.rows@[y].slots@[j].r < size);
                            assert(row_wf(self.rows@[y].slots@, y, self.width as int));
                        }
                        assert forall|y: int, j: int| 0 <= y < row_idx && 0 <= j < v0[y].len()
                            implies #[trigger] v0[y][j].r < size by {
                            assert(!row_fits(self.rows@[y].slots@, size));
                            assert(v0[y] == self.rows@[y].slots@);
                        }
                        assert(v0[row_idx as int] == row);
                        lemma_fit_found(v0, size, row_idx as int, i as int);
                    }
                    let sq = self.fill_slot(s.x, s.y, s.r, size);
                    return sq;
                },
                None => {},
            }
            row_idx = row_idx + 1;
        }
        let new_y = self.add_row();
        let width = self.width;
        let full = Slot { x: 0, y: new_y, r: width };
        let ghost rows_before = self.rows@;
        proof {
            lemma_free_when_all_above(full, self.placed@, new_y as int);
        }
        self.rows[new_y].add(full);
        proof {
            let s = self.rows@[new_y as int].slots@;
            assert forall|t: int| 0 <= t < s.len() implies slot_free(#[trigger] s[t], self.placed@)
                && s[t].y == new_y && s[t].r > 0 && s[t].x + s[t].r <= width by {
                assert(s[t] == full);
            }
            assert forall|y: int| 0 <= y < self.rows@.len()
                implies row_wf(#[trigger] self.rows@[y].slots@, y, self.width as int)
                && row_free(self.rows@[y].slots@, self.placed@) by {
                if y != new_y {
                    assert(self.rows@[y] == rows_before[y]);
                }
            }
            assert forall|y: int, j: int| 0 <= y < crate::reshape::check_from(new_y, size) && 0 <= j < self.rows@[y].slots@.len()
                implies !slot_meets(#[trigger] self.rows@[y].slots@[j], PlacedSquare { x: 0, y: new_y, r: size }) by {
                assert(self.rows@[y] == old(self).rows@[y]);
                assert(!row_fits(old(self).rows@[y].slots@, size));
                assert(self.rows@[y].slots@[j].r < size);
                assert(row_wf(self.rows@[y].slots@, y, self.width as int));
            }
            assert forall|y: int, j: int| 0 <= y < v0.len() && 0 <= j < v0[y].len()
                implies #[trigger] v0[y][j].r < size by {
                assert(!row_fits(old(self).rows@[y].slots@, size));
                assert(v0[y] == old(self).rows@[y].slots@);
            }
            lemma_fit_none(v0, size);
            assert(rows_view(self.rows@) =~= v0.push(added(Seq::empty(), full)));
        }
        self.fill_slot(0, new_y, width, size)
    }
}

/// Packs squares of the given sides, in order, into a layout `width` columns
/// wide. With no squares at all, a single square of side 1 at the origin stands in.
#[verifier::rlimit(40)]
pub fn layout_squares(sizes: &Vec<usize>, width: usize) -> (squares: Vec<PlacedSquare>)
    requires
        sizes@.len() + sum_sizes(sizes@) + width + 1 <= usize::MAX,
    ensures
        sizes@.len() == 0 ==> squares@ == seq![PlacedSquare { x: 0, y: 0, r: 1 }],
        sizes@.len() > 0 ==> squares@.len() == sizes@.len(),
        sizes@.len() > 0 ==> forall|i: int| 0 <= i < sizes@.len() ==> #[trigger] squares@[i].r == sizes@[i],
        pairwise_disjoint(squares@),
        sizes@.len() > 0 ==> forall|i: int| 0 <= i < sizes@.len() && sizes@[i] <= width
            ==> #[trigger] squares@[i].x + squares@[i].r <= width,
        sizes@.len() > 0 ==> squares@ == packing(sizes@, width).0,
{
    let mut layout = MondrianLayout::new(width);
    let mut squares: Vec<PlacedSquare> = Vec::new();
    let n = sizes.len();
    let mut i: usize = 0;
    proof {
        assert(sizes@.take(0) =~= Seq::<usize>::empty());
        assert(rows_view(layout.rows@) =~= Seq::<Seq<Slot>>::empty());
    }
    while i < n
        invariant
            n == sizes@.len(),
            i <= n,
            n + sum_sizes(sizes@) + width + 1 <= usize::MAX,
            layout.wf(),
            layout.width == width,
            layout.placed@ == squares@,
            layout.rows@.len() <= i + sum_sizes(sizes@.take(i as int)),
            squares@.len() == i,
            forall|j: int| 0 <= j < i ==> #[trigger] squares@[j].r == sizes@[j],
            forall|j: int| 0 <= j < i && sizes@[j] <= width ==> #[trigger] squares@[j].x + squares@[j].r <= width,
            (squares@, rows_view(layout.rows@)) == packing(sizes@.take(i as int), width),
        decreases n - i,
    {
        proof {
            lemma_sum_sizes_prefix(sizes@, i as int);
            let t = sizes@.take(i + 1);
            assert(t.drop_last() =~= sizes@.take(i as int));
            assert(t.last() == sizes@[i as int]);
        }
        let sq = layout.place(sizes[i]);
        squares.push(sq);
        i = i + 1;
    }
    proof {
        assert(sizes@.take(n as int) =~= sizes@);
    }
    if squares.len() == 0 {
        squares.push(PlacedSquare { x: 0, y: 0, r: 1 });
        proof {
            assert(squares@ =~= seq![PlacedSquare { x: 0, y: 0, r: 1 }]);
        }
    }
    squares
}

} // verus!
