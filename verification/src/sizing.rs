//! Square sizes: how large a transaction's square is, how wide the block is.

use vstd::prelude::*;

verus! {

/// `10^k`.
pub open spec fn pow10(k: nat) -> nat
    decreases k,
{
    if k == 0 {
        1
    } else {
        10 * pow10((k - 1) as nat)
    }
}

/// `ceil(log10(n))` for `n >= 1`: the least `k` with `n <= 10^k`
/// (see `lemma_ceil_log10_bounds`).
pub open spec fn ceil_log10(n: nat) -> nat
    decreases n,
{
    if n <= 1 {
        0
    } else {
        1 + ceil_log10(((n + 9) / 10) as nat)
    }
}

/// Square side of a transaction that moves `total_sats` satoshis:
/// `ceil(log10(sats)) - 5`, clamped to at least 1.
pub open spec fn tx_size_spec(total_sats: nat) -> nat {
    if total_sats <= 100_000 {
        1
    } else if ceil_log10(total_sats) <= 6 {
        1
    } else {
        (ceil_log10(total_sats) - 5) as nat
    }
}

pub proof fn lemma_pow10_positive(k: nat)
    ensures
        pow10(k) >= 1,
    decreases k,
{
    if k > 0 {
        lemma_pow10_positive((k - 1) as nat);
    }
}

pub proof fn lemma_pow10_monotone(a: nat, b: nat)
    requires
        a <= b,
    ensures
        pow10(a) <= pow10(b),
    decreases b,
{
    if a < b {
        lemma_pow10_monotone(a, (b - 1) as nat);
        lemma_pow10_positive((b - 1) as nat);
    }
}

/// `ceil_log10(n)` is the least `k` with `n <= 10^k`.
pub proof fn lemma_ceil_log10_bounds(n: nat)
    requires
        n >= 1,
    ensures
        n <= pow10(ceil_log10(n)),
        ceil_log10(n) > 0 ==> pow10((ceil_log10(n) - 1) as nat) < n,
    decreases n,
{
    if n > 1 {
        let m = ((n + 9) / 10) as nat;
        lemma_ceil_log10_bounds(m);
        let k = ceil_log10(m);
        assert(pow10(k + 1) == 10 * pow10(k));
        if k > 0 {
            assert(pow10(k) == 10 * pow10((k - 1) as nat));
        } else {
            assert(pow10(0) == 1);
        }
    }
}

/// The least-`k` property pins `ceil_log10` down.
pub proof fn lemma_ceil_log10_unique(n: nat, k: nat)
    requires
        n >= 1,
        n <= pow10(k),
        k > 0 ==> pow10((k - 1) as nat) < n,
    ensures
        ceil_log10(n) == k,
{
    lemma_ceil_log10_bounds(n);
    let c = ceil_log10(n);
    if c < k {
        lemma_pow10_monotone(c, (k - 1) as nat);
    } else if c > k {
        lemma_pow10_monotone(k, (c - 1) as nat);
    }
}

/// `ceil_log10` never decreases as `n` grows.
pub proof fn lemma_ceil_log10_monotone(a: nat, b: nat)
    requires
        1 <= a <= b,
    ensures
        ceil_log10(a) <= ceil_log10(b),
{
    lemma_ceil_log10_bounds(a);
    lemma_ceil_log10_bounds(b);
    if ceil_log10(a) > ceil_log10(b) {
        lemma_pow10_monotone(ceil_log10(b), (ceil_log10(a) - 1) as nat);
    }
}

/// The size is `k - 5`, at least 1, where `k` is the least natural with
/// `n <= 10^k` (so `10^(k-1) < n` when `k > 0`).
pub proof fn lemma_tx_size_by_decimal_digits(n: nat, k: nat)
    requires
        n <= pow10(k),
        k > 0 ==> pow10((k - 1) as nat) < n,
    ensures
        tx_size_spec(n) == (if k > 6 { (k - 5) as nat } else { 1nat }),
{
    if n == 0 {
        assert(k == 0);
    } else {
        lemma_ceil_log10_unique(n, k);
        if n <= 100_000 && k > 6 {
            lemma_pow10_monotone(6, (k - 1) as nat);
            assert(pow10(6) == 1000000nat) by {
                reveal_with_fuel(pow10, 7);
            }
        }
    }
}

/// Value-based sizing: `ceil(log10(sats)) - 5`, clamped to `[1, ∞)`.
pub fn tx_size_by_value(total_sats: u64) -> (size: usize)
    ensures
        size == tx_size_spec(total_sats as nat),
        1 <= size <= 15,
        forall|k: nat|
            total_sats <= #[trigger] pow10(k) && (k > 0 ==> pow10((k - 1) as nat) < total_sats)
                ==> size == (if k > 6 { (k - 5) as nat } else { 1nat }),
{
    proof {
        assert forall|k: nat|
            total_sats <= #[trigger] pow10(k) && (k > 0 ==> pow10((k - 1) as nat) < total_sats)
            implies tx_size_spec(total_sats as nat) == (if k > 6 { (k - 5) as nat } else { 1nat }) by {
            lemma_tx_size_by_decimal_digits(total_sats as nat, k);
        }
    }
    if total_sats <= 100_000 {
        return 1;
    }
    let n: u128 = total_sats as u128;
    let mut p: u128 = 1;
    let mut k: usize = 0;
    while p < n
        invariant
            1 <= n <= u64::MAX,
            p == pow10(k as nat),
            k <= 20,
            k > 0 ==> pow10((k - 1) as nat) < n,
        decreases 20 - k,
    {
        proof {
            if k == 20 {
                assert(pow10(20) == 100000000000000000000nat) by {
                    reveal_with_fuel(pow10, 21);
                }
            }
            assert(pow10((k + 1) as nat) == 10 * pow10(k as nat));
        }
        p = p * 10;
        k = k + 1;
    }
    proof {
        lemma_ceil_log10_unique(n as nat, k as nat);
        if k <= 6 {
            lemma_pow10_monotone((k - 1) as nat, 5);
            assert(pow10(5) == 100000nat) by {
                reveal_with_fuel(pow10, 6);
            }
        }
    }
    if k <= 6 {
        1
    } else {
        k - 5
    }
}

/// Sizing never shrinks a square when the value moved grows.
pub proof fn lemma_tx_size_monotone(a: nat, b: nat)
    requires
        a <= b,
    ensures
        tx_size_spec(a) <= tx_size_spec(b),
{
    if a > 100_000 {
        lemma_ceil_log10_monotone(a, b);
    }
}

/// The sum of a sequence of satoshi amounts.
pub open spec fn sum_u64(s: Seq<u64>) -> nat
    decreases s.len(),
{
    if s.len() == 0 {
        0
    } else {
        (sum_u64(s.drop_last()) + s.last()) as nat
    }
}

/// The sum of the square sides.
pub open spec fn sum_sizes(s: Seq<usize>) -> nat
    decreases s.len(),
{
    if s.len() == 0 {
        0
    } else {
        (sum_sizes(s.drop_last()) + s.last()) as nat
    }
}

/// The total area of the squares: the sum of the squared sides.
pub open spec fn sum_areas(s: Seq<usize>) -> nat
    decreases s.len(),
{
    if s.len() == 0 {
        0
    } else {
        (sum_areas(s.drop_last()) + s.last() * s.last()) as nat
    }
}

pub proof fn lemma_sum_u64_prefix(s: Seq<u64>, i: int)
    requires
        0 <= i < s.len(),
    ensures
        sum_u64(s.take(i + 1)) == sum_u64(s.take(i)) + s[i],
        sum_u64(s.take(i + 1)) <= sum_u64(s),
    decreases s.len(),
{
    assert(s.take(i + 1).drop_last() =~= s.take(i));
    if i + 1 == s.len() {
        assert(s.take(i + 1) =~= s);
    } else {
        lemma_sum_u64_prefix(s.drop_last(), i);
        assert(s.drop_last().take(i + 1) =~= s.take(i + 1));
        assert(s.drop_last().take(i) =~= s.take(i));
    }
}

pub proof fn lemma_sum_sizes_prefix(s: Seq<usize>, i: int)
    requires
        0 <= i < s.len(),
    ensures
        sum_sizes(s.take(i + 1)) == sum_sizes(s.take(i)) + s[i],
        sum_sizes(s.take(i + 1)) <= sum_sizes(s),
    decreases s.len(),
{
    assert(s.take(i + 1).drop_last() =~= s.take(i));
    if i + 1 == s.len() {
        assert(s.take(i + 1) =~= s);
    } else {
        lemma_sum_sizes_prefix(s.drop_last(), i);
        assert(s.drop_last().take(i + 1) =~= s.take(i + 1));
        assert(s.drop_last().take(i) =~= s.take(i));
    }
}

pub proof fn lemma_sum_areas_prefix(s: Seq<usize>, i: int)
    requires
        0 <= i < s.len(),
    ensures
        sum_areas(s.take(i + 1)) == sum_areas(s.take(i)) + s[i] * s[i],
        sum_areas(s.take(i + 1)) <= sum_areas(s),
    decreases s.len(),
{
    assert(s.take(i + 1).drop_last() =~= s.take(i));
    if i + 1 == s.len() {
        assert(s.take(i + 1) =~= s);
    } else {
        lemma_sum_areas_prefix(s.drop_last(), i);
        assert(s.drop_last().take(i + 1) =~= s.take(i + 1));
        assert(s.drop_last().take(i) =~= s.take(i));
    }
}

/// Every single square's area is at most the total area.
pub proof fn lemma_area_le_total(s: Seq<usize>, i: int)
    requires
        0 <= i < s.len(),
    ensures
        s[i] * s[i] <= sum_areas(s),
{
    lemma_sum_areas_prefix(s, i);
}

/// Taking one amount out of a sequence lowers its sum by that amount.
pub proof fn lemma_sum_u64_remove(s: Seq<u64>, j: int)
    requires
        0 <= j < s.len(),
    ensures
        sum_u64(s) == sum_u64(s.remove(j)) + s[j],
    decreases s.len(),
{
    if j == s.len() - 1 {
        assert(s.remove(j) =~= s.drop_last());
    } else {
        lemma_sum_u64_remove(s.drop_last(), j);
        assert(s.remove(j).drop_last() =~= s.drop_last().remove(j));
        assert(s.remove(j).last() == s.last());
    }
}

/// The sum of the amounts does not depend on their order: two sequences
/// holding the same amounts, each as often, have the same sum.
pub proof fn lemma_sum_u64_order_free(s: Seq<u64>, t: Seq<u64>)
    requires
        s.to_multiset() == t.to_multiset(),
    ensures
        sum_u64(s) == sum_u64(t),
    decreases s.len(),
{
    broadcast use vstd::seq_lib::group_to_multiset_ensures, vstd::multiset::group_multiset_axioms;

    if s.len() == 0 {
        assert(t.len() == t.to_multiset().len());
        assert(s.len() == s.to_multiset().len());
    } else {
        let x = s.last();
        let rest = s.drop_last();
        assert(rest.push(x) =~= s);
        assert(s.to_multiset() == rest.to_multiset().insert(x));
        assert(t.to_multiset().count(x) > 0);
        assert(t.contains(x));
        let j = choose|j: int| 0 <= j < t.len() && t[j] == x;
        lemma_sum_u64_remove(t, j);
        assert(t.remove(j).to_multiset() == t.to_multiset().remove(x));
        assert(rest.to_multiset().insert(x).remove(x) =~= rest.to_multiset());
        lemma_sum_u64_order_free(rest, t.remove(j));
    }
}

/// An output of 0 satoshis, wherever it stands, leaves the sum as it is.
pub proof fn lemma_sum_u64_zero_output(s: Seq<u64>, i: int)
    requires
        0 <= i <= s.len(),
    ensures
        sum_u64(s.insert(i, 0)) == sum_u64(s),
{
    lemma_sum_u64_remove(s.insert(i, 0), i);
    assert(s.insert(i, 0).remove(i) =~= s);
}

/// The total of a transaction's outputs, in satoshis; `None` when it does not
/// fit in a `u64`.
pub fn checked_total(values: &Vec<u64>) -> (res: Option<u64>)
    ensures
        match res {
            Some(t) => t == sum_u64(values@),
            None => sum_u64(values@) > u64::MAX,
        },
{
    let n = values.len();
    let mut total: u64 = 0;
    let mut i: usize = 0;
    proof {
        assert(values@.take(0) =~= Seq::<u64>::empty());
    }
    while i < n
        invariant
            n == values@.len(),
            i <= n,
            total == sum_u64(values@.take(i as int)),
        decreases n - i,
    {
        proof {
            lemma_sum_u64_prefix(values@, i as int);
        }
        match total.checked_add(values[i]) {
            Some(t) => {
                total = t;
            },
            None => {
                return None;
            },
        }
        i = i + 1;
    }
    proof {
        assert(values@.take(n as int) =~= values@);
    }
    Some(total)
}

/// The square side of each transaction, from the satoshis it moves (counted as
/// at least 1).
pub fn tx_sizes(tx_sats: &Vec<u64>) -> (sizes: Vec<usize>)
    ensures
        sizes@.len() == tx_sats@.len(),
        forall|i: int| 0 <= i < tx_sats@.len() ==> #[trigger] sizes@[i]
            == tx_size_spec(if tx_sats@[i] == 0 { 1nat } else { tx_sats@[i] as nat }),
        forall|i: int| 0 <= i < sizes@.len() ==> 1 <= #[trigger] sizes@[i] <= 15,
{
    let n = tx_sats.len();
    let mut sizes: Vec<usize> = Vec::new();
    let mut i: usize = 0;
    while i < n
        invariant
            n == tx_sats@.len(),
            i <= n,
            sizes@.len() == i,
            forall|j: int| 0 <= j < i ==> #[trigger] sizes@[j]
                == tx_size_spec(if tx_sats@[j] == 0 { 1nat } else { tx_sats@[j] as nat }),
            forall|j: int| 0 <= j < i ==> 1 <= #[trigger] sizes@[j] <= 15,
        decreases n - i,
    {
        let sats = if tx_sats[i] > 1 { tx_sats[i] } else { 1 };
        sizes.push(tx_size_by_value(sats));
        i = i + 1;
    }
    sizes
}

/// The total area of the squares.
pub fn total_area(sizes: &Vec<usize>) -> (area: usize)
    requires
        sum_areas(sizes@) <= usize::MAX,
    ensures
        area == sum_areas(sizes@),
{
    let n = sizes.len();
    let mut total: usize = 0;
    let mut i: usize = 0;
    proof {
        assert(sizes@.take(0) =~= Seq::<usize>::empty());
    }
    while i < n
        invariant
            n == sizes@.len(),
            i <= n,
            total == sum_areas(sizes@.take(i as int)),
            sum_areas(sizes@) <= usize::MAX,
        decreases n - i,
    {
        proof {
            lemma_sum_areas_prefix(sizes@, i as int);
        }
        let s = sizes[i];
        total = total + s * s;
        i = i + 1;
    }
    proof {
        assert(sizes@.take(n as int) =~= sizes@);
    }
    total
}

/// The block is laid out `ceil(sqrt(total_area))` columns wide, and at least one.
pub fn block_width(area: usize) -> (w: usize)
    ensures
        w >= 1,
        w * w >= area,
        w == 1 || (w - 1) * (w - 1) < area,
{
    if area == 0 {
        return 1;
    }
    let n: u128 = area as u128;
    let mut lo: u128 = 0;
    let mut hi: u128 = n;
    proof {
        assert(n <= n * n) by (nonlinear_arith)
            requires n >= 1;
    }
    while hi - lo > 1
        invariant
            1 <= n <= usize::MAX,
            lo < hi <= n,
            lo * lo < n,
            n <= hi * hi,
        decreases hi - lo,
    {
        let mid = lo + (hi - lo) / 2;
        proof {
            assert(mid * mid <= 0xffff_ffff_ffff_ffffu128 as int * 0xffff_ffff_ffff_ffffu128 as int)
                by (nonlinear_arith)
                requires mid <= 0xffff_ffff_ffff_ffffu128;
        }
        if mid * mid >= n {
            hi = mid;
        } else {
            lo = mid;
        }
    }
    proof {
        assert(hi == lo + 1);
    }
    hi as usize
}

} // verus!
