//! A whole block: square sides from the transactions' values, the block's
//! width, the packed squares and how far they reach.

use vstd::prelude::*;
use crate::geometry::{PlacedSquare, pairwise_disjoint};
use crate::layout::layout_squares;
use crate::reshape::packing;
use crate::sizing::{
    lemma_area_le_total, sum_areas, sum_sizes, total_area, tx_size_spec, tx_sizes, block_width,
};

verus! {

/// The square side of each transaction, from the satoshis it moves (at least 1).
pub open spec fn tx_size_seq(tx_sats: Seq<u64>) -> Seq<usize> {
    Seq::new(tx_sats.len(), |i: int| tx_size_spec(if tx_sats[i] == 0 { 1nat } else { tx_sats[i] as nat }) as usize)
}

/// `w` is the block width for total area `area`: `ceil(sqrt(area))`, at least 1.
pub open spec fn is_block_width(w: int, area: int) -> bool {
    &&& w >= 1
    &&& w * w >= area
    &&& (w == 1 || (w - 1) * (w - 1) < area)
}

/// The packed block: its width in columns and one square per transaction.
pub struct BlockLayout {
    pub width: usize,
    pub squares: Vec<PlacedSquare>,
}

proof fn lemma_sums_bounded(s: Seq<usize>)
    requires
        forall|i: int| 0 <= i < s.len() ==> 1 <= #[trigger] s[i] <= 15,
    ensures
        sum_sizes(s) <= 15 * s.len(),
        sum_areas(s) <= 225 * s.len(),
    decreases s.len(),
{
    if s.len() > 0 {
        let t = s.drop_last();
        assert forall|i: int| 0 <= i < t.len() implies 1 <= #[trigger] t[i] <= 15 by {
            assert(t[i] == s[i]);
        }
        lemma_sums_bounded(t);
        let l = s.last();
        assert(l * l <= 225) by (nonlinear_arith)
            requires 1 <= l <= 15;
    }
}

/// Lays out a block whose transactions move `tx_sats[i]` satoshis each: sizes
/// every square, makes the block `ceil(sqrt(total area))` columns wide and packs
/// the squares first-fit in transaction order.
pub fn block_layout(tx_sats: &Vec<u64>) -> (layout: BlockLayout)
    requires
        tx_sats@.len() <= usize::MAX / 256,
    ensures
        is_block_width(layout.width as int, sum_areas(tx_size_seq(tx_sats@)) as int),
        pairwise_disjoint(layout.squares@),
        tx_sats@.len() == 0 ==> layout.squares@ == seq![PlacedSquare { x: 0, y: 0, r: 1 }],
        tx_sats@.len() > 0 ==> layout.squares@.len() == tx_sats@.len(),
        tx_sats@.len() > 0 ==> forall|i: int| 0 <= i < tx_sats@.len()
            ==> #[trigger] layout.squares@[i].r == tx_size_seq(tx_sats@)[i],
        forall|i: int| 0 <= i < layout.squares@.len()
            ==> #[trigger] layout.squares@[i].x + layout.squares@[i].r <= layout.width,
        tx_sats@.len() > 0 ==> layout.squares@ == packing(tx_size_seq(tx_sats@), layout.width).0,
{
    let sizes = tx_sizes(tx_sats);
    proof {
        assert(sizes@ =~= tx_size_seq(tx_sats@));
        lemma_sums_bounded(sizes@);
    }
    let area = total_area(&sizes);
    let width = block_width(area);
    proof {
        if area >= 1 {
            assert(width <= area) by (nonlinear_arith)
                requires
                    width >= 1,
                    area >= 1,
                    width == 1 || (width - 1) * (width - 1) < area;
        }
    }
    let squares = layout_squares(&sizes, width);
    proof {
        assert forall|i: int| 0 <= i < squares@.len()
            implies #[trigger] squares@[i].x + squares@[i].r <= width by {
            if sizes@.len() > 0 {
                lemma_area_le_total(sizes@, i);
                let s = sizes@[i];
                assert(s <= width) by (nonlinear_arith)
                    requires
                        s * s <= area,
                        area <= width * width,
                        width >= 1;
            }
        }
    }
    BlockLayout { width, squares }
}

/// How far the squares reach: the largest right edge and the largest bottom
/// edge (1 and 1 when there are no squares).
pub fn content_extent(squares: &Vec<PlacedSquare>) -> (extent: (usize, usize))
    requires
        forall|i: int| 0 <= i < squares@.len() ==> #[trigger] squares@[i].x + squares@[i].r <= usize::MAX
            && squares@[i].y + squares@[i].r <= usize::MAX,
    ensures
        squares@.len() == 0 ==> extent == (1usize, 1usize),
        squares@.len() > 0 ==> {
            &&& forall|i: int| 0 <= i < squares@.len() ==> #[trigger] squares@[i].x + squares@[i].r <= extent.0
            &&& exists|i: int| 0 <= i < squares@.len() && #[trigger] squares@[i].x + squares@[i].r == extent.0
            &&& forall|i: int| 0 <= i < squares@.len() ==> #[trigger] squares@[i].y + squares@[i].r <= extent.1
            &&& exists|i: int| 0 <= i < squares@.len() && #[trigger] squares@[i].y + squares@[i].r == extent.1
        },
{
    let n = squares.len();
    if n == 0 {
        return (1, 1);
    }
    let mut w: usize = squares[0].x + squares[0].r;
    let mut h: usize = squares[0].y + squares[0].r;
    let mut i: usize = 1;
    while i < n
        invariant
            n == squares@.len(),
            1 <= i <= n,
            forall|j: int| 0 <= j < squares@.len() ==> #[trigger] squares@[j].x + squares@[j].r <= usize::MAX
                && squares@[j].y + squares@[j].r <= usize::MAX,
            forall|j: int| 0 <= j < i ==> #[trigger] squares@[j].x + squares@[j].r <= w,
            exists|j: int| 0 <= j < i && #[trigger] squares@[j].x + squares@[j].r == w,
            forall|j: int| 0 <= j < i ==> #[trigger] squares@[j].y + squares@[j].r <= h,
            exists|j: int| 0 <= j < i && #[trigger] squares@[j].y + squares@[j].r == h,
        decreases n - i,
    {
        let sq = squares[i];
        if sq.x + sq.r > w {
            w = sq.x + sq.r;
        }
        if sq.y + sq.r > h {
            h = sq.y + sq.r;
        }
        i = i + 1;
    }
    (w, h)
}

} // verus!
