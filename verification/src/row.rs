//! One row of the Mondrian packer: the free slots that start in that row,
//! kept in order of their left edge.

use vstd::prelude::*;

verus! {

/// A free square region: its top-left corner is at column `x` of row `y`,
/// and a square of side up to `r` fits there.
#[derive(Clone, Copy, Debug)]
pub struct Slot {
    pub x: usize,
    pub y: usize,
    pub r: usize,
}

/// The free slots of one row.
pub struct MondrianRow {
    pub slots: Vec<Slot>,
}

/// Left edges strictly increase along the row (so no two slots share one).
pub open spec fn sorted_by_x(s: Seq<Slot>) -> bool {
    forall|i: int, j: int| 0 <= i < j < s.len() ==> #[trigger] s[i].x < #[trigger] s[j].x
}

/// Some slot of `s` has its left edge at `x`.
pub open spec fn has_x(s: Seq<Slot>, x: usize) -> bool {
    exists|i: int| 0 <= i < s.len() && #[trigger] s[i].x == x
}

/// `i` is the first index of `s` whose slot starts at `x`.
pub open spec fn is_first_x(s: Seq<Slot>, x: usize, i: int) -> bool {
    &&& 0 <= i < s.len()
    &&& s[i].x == x
    &&& forall|j: int| 0 <= j < i ==> #[trigger] s[j].x != x
}

/// `p` is the first index of `s` whose slot starts right of `x`
/// (or the length of `s` when there is none).
pub open spec fn is_first_right_of(s: Seq<Slot>, x: usize, p: int) -> bool {
    &&& 0 <= p <= s.len()
    &&& forall|j: int| 0 <= j < p ==> #[trigger] s[j].x <= x
    &&& p < s.len() ==> s[p].x > x
}

/// The index of the first slot of `s` that starts at `x`, or the length of `s`.
pub open spec fn x_index(s: Seq<Slot>, x: usize) -> int
    decreases s.len(),
{
    if s.len() == 0 {
        0
    } else if s[0].x == x {
        0
    } else {
        1 + x_index(s.drop_first(), x)
    }
}

/// The index of the first slot of `s` that starts right of `x`, or the length of `s`.
pub open spec fn right_index(s: Seq<Slot>, x: usize) -> int
    decreases s.len(),
{
    if s.len() == 0 {
        0
    } else if s[0].x > x {
        0
    } else {
        1 + right_index(s.drop_first(), x)
    }
}

/// The row after adding `slot`: unchanged for a slot of side 0; where a slot
/// already starts at `slot.x`, that slot keeps the larger side; otherwise `slot`
/// goes before the first slot that starts right of it.
pub open spec fn added(s: Seq<Slot>, slot: Slot) -> Seq<Slot> {
    if slot.r == 0 {
        s
    } else if x_index(s, slot.x) < s.len() {
        s.update(x_index(s, slot.x), grown(s[x_index(s, slot.x)], slot.r))
    } else {
        s.insert(right_index(s, slot.x), slot)
    }
}

/// The row without its first slot that starts at `x` (unchanged if there is none).
pub open spec fn removed(s: Seq<Slot>, x: usize) -> Seq<Slot> {
    if x_index(s, x) < s.len() {
        s.remove(x_index(s, x))
    } else {
        s
    }
}

/// The row with the side of its first slot that starts at `x` set to `r`
/// (unchanged if there is none).
pub open spec fn resized_at(s: Seq<Slot>, x: usize, r: usize) -> Seq<Slot> {
    if x_index(s, x) < s.len() {
        s.update(x_index(s, x), resized(s[x_index(s, x)], r))
    } else {
        s
    }
}

/// `x_index` is the first index that starts at `x`.
pub proof fn lemma_x_index(s: Seq<Slot>, x: usize)
    ensures
        0 <= x_index(s, x) <= s.len(),
        x_index(s, x) < s.len() ==> is_first_x(s, x, x_index(s, x)),
        x_index(s, x) == s.len() ==> !has_x(s, x),
    decreases s.len(),
{
    if s.len() > 0 && s[0].x != x {
        let t = s.drop_first();
        lemma_x_index(t, x);
        if x_index(s, x) < s.len() {
            assert forall|j: int| 0 <= j < x_index(s, x) implies #[trigger] s[j].x != x by {
                if j > 0 {
                    assert(s[j] == t[j - 1]);
                }
            }
        } else {
            if has_x(s, x) {
                let j = choose|j: int| 0 <= j < s.len() && #[trigger] s[j].x == x;
                assert(t[j - 1] == s[j]);
            }
        }
    }
}

/// The first index that starts at `x` is `x_index`.
pub proof fn lemma_first_x_is_x_index(s: Seq<Slot>, x: usize, i: int)
    requires
        is_first_x(s, x, i),
    ensures
        x_index(s, x) == i,
{
    lemma_x_index(s, x);
    let k = x_index(s, x);
    if k < i {
        assert(s[k].x != x);
    } else if k > i {
        if k < s.len() {
            assert(s[i].x != x);
        } else {
            assert(has_x(s, x));
        }
    }
}

/// `right_index` is the first index that starts right of `x`.
pub proof fn lemma_right_index(s: Seq<Slot>, x: usize)
    ensures
        is_first_right_of(s, x, right_index(s, x)),
    decreases s.len(),
{
    if s.len() > 0 && s[0].x <= x {
        let t = s.drop_first();
        lemma_right_index(t, x);
        assert forall|j: int| 0 <= j < right_index(s, x) implies #[trigger] s[j].x <= x by {
            if j > 0 {
                assert(s[j] == t[j - 1]);
            }
        }
    }
}

/// There is only one first index right of `x`.
pub proof fn lemma_first_right_unique(s: Seq<Slot>, x: usize, p: int)
    requires
        is_first_right_of(s, x, p),
    ensures
        right_index(s, x) == p,
{
    lemma_right_index(s, x);
    let q = right_index(s, x);
    if q < p {
        assert(s[q].x > x);
        assert(s[q].x <= x);
    } else if q > p {
        assert(s[p].x > x);
        assert(s[p].x <= x);
    }
}

/// Inserting a slot at a column where none starts makes it the first slot there.
proof fn lemma_inserted_first(s: Seq<Slot>, slot: Slot)
    requires
        !has_x(s, slot.x),
    ensures
        x_index(s.insert(right_index(s, slot.x), slot), slot.x) == right_index(s, slot.x),
{
    lemma_right_index(s, slot.x);
    let p = right_index(s, slot.x);
    let t = s.insert(p, slot);
    assert forall|j: int| 0 <= j < p implies #[trigger] t[j].x != slot.x by {
        assert(t[j] == s[j]);
        assert(s[j].x <= slot.x);
    }
    lemma_first_x_is_x_index(t, slot.x, p);
}

/// Removing a column undoes adding a slot at a column where none started.
pub proof fn lemma_remove_undoes_add(s: Seq<Slot>, slot: Slot)
    requires
        slot.r > 0,
        !has_x(s, slot.x),
    ensures
        removed(added(s, slot), slot.x) == s,
{
    lemma_x_index(s, slot.x);
    lemma_inserted_first(s, slot);
    let p = right_index(s, slot.x);
    lemma_right_index(s, slot.x);
    assert(s.insert(p, slot).remove(p) =~= s);
}

/// Adding the same slot twice leaves the row as adding it once.
pub proof fn lemma_add_twice(s: Seq<Slot>, slot: Slot)
    ensures
        added(added(s, slot), slot) == added(s, slot),
{
    lemma_x_index(s, slot.x);
    if slot.r > 0 {
        if x_index(s, slot.x) < s.len() {
            let i = x_index(s, slot.x);
            let a = s.update(i, grown(s[i], slot.r));
            assert forall|j: int| 0 <= j < i implies #[trigger] a[j].x != slot.x by {
                assert(a[j] == s[j]);
            }
            lemma_first_x_is_x_index(a, slot.x, i);
            assert(a.update(i, grown(a[i], slot.r)) =~= a);
        } else {
            lemma_inserted_first(s, slot);
            let p = right_index(s, slot.x);
            lemma_right_index(s, slot.x);
            let a = s.insert(p, slot);
            assert(a.update(p, grown(a[p], slot.r)) =~= a);
        }
    }
}

/// `t` with its side raised to `r` when `r` is the larger.
pub open spec fn grown(t: Slot, r: usize) -> Slot {
    Slot { x: t.x, y: t.y, r: if r > t.r { r } else { t.r } }
}

/// `t` with its side set to `r`.
pub open spec fn resized(t: Slot, r: usize) -> Slot {
    Slot { x: t.x, y: t.y, r: r }
}

impl MondrianRow {
    /// An empty row.
    pub fn new() -> (row: Self)
        ensures
            row.slots@ == Seq::<Slot>::empty(),
    {
        MondrianRow { slots: Vec::new() }
    }

    /// The index of the first slot that starts at `x`.
    pub fn find_idx(&self, x: usize) -> (res: Option<usize>)
        ensures
            match res {
                Some(i) => is_first_x(self.slots@, x, i as int) && i == x_index(self.slots@, x),
                None => !has_x(self.slots@, x) && x_index(self.slots@, x) == self.slots@.len(),
            },
    {
        proof {
            lemma_x_index(self.slots@, x);
        }
        let n = self.slots.len();
        let mut i: usize = 0;
        while i < n
            invariant
                n == self.slots@.len(),
                i <= n,
                forall|j: int| 0 <= j < i ==> #[trigger] self.slots@[j].x != x,
            decreases n - i,
        {
            if self.slots[i].x == x {
                proof {
                    lemma_first_x_is_x_index(self.slots@, x, i as int);
                }
                return Some(i);
            }
            i = i + 1;
        }
        None
    }

    /// Whether a slot starts at `x`.
    pub fn has(&self, x: usize) -> (res: bool)
        ensures
            res == has_x(self.slots@, x),
    {
        let n = self.slots.len();
        let mut i: usize = 0;
        while i < n
            invariant
                n == self.slots@.len(),
                i <= n,
                forall|j: int| 0 <= j < i ==> #[trigger] self.slots@[j].x != x,
            decreases n - i,
        {
            if self.slots[i].x == x {
                return true;
            }
            i = i + 1;
        }
        false
    }

    /// The index of the first slot that starts right of `x`, or the length.
    fn first_right_of(&self, x: usize) -> (p: usize)
        ensures
            is_first_right_of(self.slots@, x, p as int),
    {
        let n = self.slots.len();
        let mut i: usize = 0;
        while i < n
            invariant
                n == self.slots@.len(),
                i <= n,
                forall|j: int| 0 <= j < i ==> #[trigger] self.slots@[j].x <= x,
            decreases n - i,
        {
            if self.slots[i].x > x {
                return i;
            }
            i = i + 1;
        }
        n
    }

    /// Sets the side of the slot at index `idx`.
    pub fn set_r(&mut self, idx: usize, r: usize)
        requires
            idx < old(self).slots@.len(),
        ensures
            final(self).slots@ == old(self).slots@.update(idx as int, resized(old(self).slots@[idx as int], r)),
            is_first_x(old(self).slots@, old(self).slots@[idx as int].x, idx as int)
                ==> final(self).slots@ == resized_at(old(self).slots@, old(self).slots@[idx as int].x, r),
            sorted_by_x(old(self).slots@) ==> sorted_by_x(final(self).slots@),
    {
        let s = self.slots[idx];
        self.slots.set(idx, Slot { x: s.x, y: s.y, r: r });
        proof {
            if is_first_x(old(self).slots@, s.x, idx as int) {
                lemma_first_x_is_x_index(old(self).slots@, s.x, idx as int);
            }
            if sorted_by_x(old(self).slots@) {
                assert forall|i: int, j: int| 0 <= i < j < self.slots@.len() implies
                    #[trigger] self.slots@[i].x < #[trigger] self.slots@[j].x by {
                    assert(old(self).slots@[i].x < old(self).slots@[j].x);
                }
            }
        }
    }

    /// Adds a free slot. A slot of side 0 is ignored; where a slot already
    /// starts at the same column, that slot keeps the larger of the two sides;
    /// otherwise the slot is inserted before the first slot that starts right of it.
    #[verifier::rlimit(40)]
    pub fn add(&mut self, slot: Slot)
        ensures
            final(self).slots@ == added(old(self).slots@, slot),
            slot.r == 0 ==> final(self).slots@ == old(self).slots@,
            slot.r > 0 ==> forall|i: int| #[trigger] is_first_x(old(self).slots@, slot.x, i)
                ==> final(self).slots@ == old(self).slots@.update(i, grown(old(self).slots@[i], slot.r)),
            slot.r > 0 && !has_x(old(self).slots@, slot.x) ==> forall|p: int|
                #[trigger] is_first_right_of(old(self).slots@, slot.x, p)
                ==> final(self).slots@ == old(self).slots@.insert(p, slot),
            sorted_by_x(old(self).slots@) ==> sorted_by_x(final(self).slots@),
            forall|i: int| 0 <= i < final(self).slots@.len() ==> {
                ||| old(self).slots@.contains(#[trigger] final(self).slots@[i])
                ||| (final(self).slots@[i].x == slot.x && final(self).slots@[i].r == slot.r
                     && (final(self).slots@[i].y == slot.y || exists|j: int|
                        0 <= j < old(self).slots@.len() && #[trigger] old(self).slots@[j].x == slot.x
                        && old(self).slots@[j].y == final(self).slots@[i].y))
            },
    {
        if slot.r == 0 {
            return;
        }
        match self.find_idx(slot.x) {
            Some(idx) => {
                if slot.r > self.slots[idx].r {
                    self.set_r(idx, slot.r);
                }
                proof {
                    let o = old(self).slots@;
                    lemma_first_x_is_x_index(o, slot.x, idx as int);
                    assert(self.slots@ == o.update(idx as int, grown(o[idx as int], slot.r)));
                    assert forall|i: int| #[trigger] is_first_x(o, slot.x, i) implies
                        self.slots@ == o.update(i, grown(o[i], slot.r)) by {
                        if i < idx {
                            assert(o[i].x != slot.x);
                        } else if i > idx {
                            assert(o[idx as int].x != slot.x);
                        }
                    }
                    assert forall|i: int| 0 <= i < self.slots@.len() implies {
                        ||| o.contains(#[trigger] self.slots@[i])
                        ||| (self.slots@[i].x == slot.x && self.slots@[i].r == slot.r
                             && (self.slots@[i].y == slot.y || exists|j: int|
                                0 <= j < o.len() && #[trigger] o[j].x == slot.x
                                && o[j].y == self.slots@[i].y))
                    } by {
                        if i != idx {
                            assert(self.slots@[i] == o[i]);
                        } else if slot.r > o[idx as int].r {
                            assert(o[idx as int].x == slot.x);
                        } else {
                            assert(self.slots@[i] == o[i]);
                        }
                    }
                }
                return;
            },
            None => {},
        }
        let pos = self.first_right_of(slot.x);
        self.slots.insert(pos, slot);
        proof {
            let o = old(self).slots@;
            lemma_x_index(o, slot.x);
            lemma_first_right_unique(o, slot.x, pos as int);
            assert forall|p: int| #[trigger] is_first_right_of(o, slot.x, p) implies
                self.slots@ == o.insert(p, slot) by {
                if p < pos {
                    assert(o[p].x > slot.x);
                } else if p > pos {
                    assert(o[pos as int].x > slot.x);
                }
            }
            if sorted_by_x(o) {
                assert forall|i: int, j: int| 0 <= i < j < self.slots@.len() implies
                    #[trigger] self.slots@[i].x < #[trigger] self.slots@[j].x by {
                    if j < pos {
                        assert(o[i].x < o[j].x);
                    } else if j == pos {
                        assert(o[i].x <= slot.x);
                        assert(o[i].x != slot.x);
                    } else if i > pos {
                        assert(o[i - 1].x < o[j - 1].x);
                    } else if i == pos {
                        assert(o[j - 1].x >= o[pos as int].x);
                    } else {
                        assert(o[i].x <= slot.x);
                        assert(o[i].x != slot.x);
                        assert(o[j - 1].x >= o[pos as int].x);
                    }
                }
            }
            assert forall|i: int| 0 <= i < self.slots@.len() implies {
                ||| o.contains(#[trigger] self.slots@[i])
                ||| (self.slots@[i].x == slot.x && self.slots@[i].r == slot.r
                     && (self.slots@[i].y == slot.y || exists|j: int|
                        0 <= j < o.len() && #[trigger] o[j].x == slot.x
                        && o[j].y == self.slots@[i].y))
            } by {
                if i < pos {
                    assert(self.slots@[i] == o[i]);
                } else if i > pos {
                    assert(self.slots@[i] == o[i - 1]);
                }
            }
        }
    }

    /// Removes the first slot that starts at `x`, if there is one.
    #[verifier::rlimit(40)]
    pub fn remove(&mut self, x: usize)
        ensures
            final(self).slots@ == removed(old(self).slots@, x),
            forall|i: int| #[trigger] is_first_x(old(self).slots@, x, i)
                ==> final(self).slots@ == old(self).slots@.remove(i),
            !has_x(old(self).slots@, x) ==> final(self).slots@ == old(self).slots@,
            sorted_by_x(old(self).slots@) ==> sorted_by_x(final(self).slots@),
            sorted_by_x(old(self).slots@) ==> !has_x(final(self).slots@, x),
            forall|i: int| 0 <= i < final(self).slots@.len()
                ==> old(self).slots@.contains(#[trigger] final(self).slots@[i]),
    {
        match self.find_idx(x) {
            Some(idx) => {
                self.slots.remove(idx);
                proof {
                    let o = old(self).slots@;
                    lemma_first_x_is_x_index(o, x, idx as int);
                    assert forall|i: int| #[trigger] is_first_x(o, x, i) implies
                        self.slots@ == o.remove(i) by {
                        if i < idx {
                            assert(o[i].x != x);
                        } else if i > idx {
                            assert(o[idx as int].x != x);
                        }
                    }
                    assert forall|i: int| 0 <= i < self.slots@.len() implies
                        o.contains(#[trigger] self.slots@[i]) by {
                        if i < idx {
                            assert(self.slots@[i] == o[i]);
                        } else {
                            assert(self.slots@[i] == o[i + 1]);
                        }
                    }
                    if sorted_by_x(o) {
                        assert forall|i: int, j: int| 0 <= i < j < self.slots@.len() implies
                            #[trigger] self.slots@[i].x < #[trigger] self.slots@[j].x by {
                            let oi = if i < idx { i } else { i + 1 };
                            let oj = if j < idx { j } else { j + 1 };
                            assert(o[oi].x < o[oj].x);
                        }
                        if has_x(self.slots@, x) {
                            let k = choose|k: int| 0 <= k < self.slots@.len() && #[trigger] self.slots@[k].x == x;
                            let ok = if k < idx { k } else { k + 1 };
                            assert(self.slots@[k] == o[ok]);
                            if ok < idx {
                                assert(o[ok].x < o[idx as int].x);
                            } else {
                                assert(o[idx as int].x < o[ok].x);
                            }
                        }
                    }
                }
            },
            None => {
                proof {
                    let o = old(self).slots@;
                    lemma_x_index(o, x);
                    assert forall|i: int| 0 <= i < self.slots@.len() implies
                        o.contains(#[trigger] self.slots@[i]) by {
                        assert(self.slots@[i] == o[i]);
                    }
                }
            },
        }
    }
}

} // verus!
