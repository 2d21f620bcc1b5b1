//! Reading the requested block height out of the file name in the URL
//! (`<height>.png`).

use vstd::prelude::*;

verus! {

/// The bytes of `.png`.
pub open spec fn png_suffix() -> Seq<u8> {
    seq![46u8, 112u8, 110u8, 103u8]
}

/// `s` ends with `.png`.
pub open spec fn ends_with_png(s: Seq<u8>) -> bool {
    s.len() >= 4 && s.subrange(s.len() - 4, s.len() as int) == png_suffix()
}

/// `s` with every trailing `.png` removed.
pub open spec fn strip_png(s: Seq<u8>) -> Seq<u8>
    decreases s.len(),
{
    if ends_with_png(s) {
        strip_png(s.subrange(0, s.len() - 4))
    } else {
        s
    }
}

/// `b` is an ASCII decimal digit.
pub open spec fn is_digit(b: u8) -> bool {
    48 <= b <= 57
}

/// The number that the decimal digits `s` spell.
pub open spec fn digits_value(s: Seq<u8>) -> nat
    decreases s.len(),
{
    if s.len() == 0 {
        0
    } else {
        digits_value(s.drop_last()) * 10 + (s.last() - 48) as nat
    }
}

/// `s` without one leading `+`.
pub open spec fn unsigned_digits(s: Seq<u8>) -> Seq<u8> {
    if s.len() > 0 && s[0] == 43 {
        s.drop_first()
    } else {
        s
    }
}

/// `s` read as an unsigned 64-bit decimal: an optional `+`, then at least one
/// digit and nothing else, of a value that fits.
pub open spec fn parse_u64(s: Seq<u8>) -> Option<u64> {
    let d = unsigned_digits(s);
    if d.len() == 0 || !(forall|i: int| 0 <= i < d.len() ==> is_digit(#[trigger] d[i])) || digits_value(d) > u64::MAX {
        None
    } else {
        Some(digits_value(d) as u64)
    }
}

/// More digits never make a smaller number.
proof fn lemma_digits_value_prefix(d: Seq<u8>, i: int)
    requires
        0 <= i <= d.len(),
        forall|j: int| 0 <= j < d.len() ==> is_digit(#[trigger] d[j]),
    ensures
        digits_value(d.take(i)) <= digits_value(d),
    decreases d.len() - i,
{
    if i < d.len() {
        lemma_digits_value_prefix(d, i + 1);
        assert(d.take(i + 1).drop_last() =~= d.take(i));
    } else {
        assert(d.take(i) =~= d);
    }
}

/// The block height asked for by a file name such as `840000.png`: every
/// trailing `.png` is dropped and the rest read as an unsigned decimal;
/// `None` when it is not one.
pub fn parse_height(filename: &Vec<u8>) -> (h: Option<u64>)
    ensures
        h == parse_u64(strip_png(filename@)),
{
    let mut end: usize = filename.len();
    proof {
        assert(filename@.subrange(0, filename@.len() as int) =~= filename@);
    }
    while end >= 4 && filename[end - 4] == 46 && filename[end - 3] == 112 && filename[end - 2] == 110
        && filename[end - 1] == 103
        invariant
            end <= filename@.len(),
            strip_png(filename@.subrange(0, end as int)) == strip_png(filename@),
        decreases end,
    {
        proof {
            let s = filename@.subrange(0, end as int);
            assert(s.subrange(s.len() - 4, s.len() as int) =~= png_suffix());
            assert(s.subrange(0, s.len() - 4) =~= filename@.subrange(0, end - 4));
        }
        end = end - 4;
    }
    let ghost base = filename@.subrange(0, end as int);
    proof {
        if ends_with_png(base) {
            assert(base.subrange(base.len() - 4, base.len() as int)[0] == filename@[end - 4]);
            assert(base.subrange(base.len() - 4, base.len() as int)[1] == filename@[end - 3]);
            assert(base.subrange(base.len() - 4, base.len() as int)[2] == filename@[end - 2]);
            assert(base.subrange(base.len() - 4, base.len() as int)[3] == filename@[end - 1]);
        }
        assert(strip_png(base) == base);
    }
    let start: usize = if end > 0 && filename[0] == 43 { 1 } else { 0 };
    let ghost d = unsigned_digits(base);
    proof {
        if start == 1 {
            assert(d =~= filename@.subrange(1, end as int));
        } else {
            assert(d =~= filename@.subrange(0, end as int));
        }
    }
    if start == end {
        return None;
    }
    let mut value: u64 = 0;
    let mut i: usize = start;
    proof {
        assert(d.take(0) =~= Seq::<u8>::empty());
    }
    while i < end
        invariant
            start <= i <= end,
            end <= filename@.len(),
            d == unsigned_digits(strip_png(filename@)),
            d.len() == end - start,
            forall|j: int| 0 <= j < d.len() ==> #[trigger] d[j] == filename@[start + j],
            forall|j: int| 0 <= j < i - start ==> is_digit(#[trigger] d[j]),
            value == digits_value(d.take(i - start)),
        decreases end - i,
    {
        let b = filename[i];
        if b < 48 || b > 57 {
            proof {
                assert(!is_digit(d[i - start]));
            }
            return None;
        }
        proof {
            let t = d.take(i - start + 1);
            assert(t.drop_last() =~= d.take(i - start));
            assert(t.last() == b);
        }
        match value.checked_mul(10) {
            Some(v) => match v.checked_add((b - 48) as u64) {
                Some(w) => {
                    value = w;
                },
                None => {
                    proof {
                        if forall|j: int| 0 <= j < d.len() ==> is_digit(#[trigger] d[j]) {
                            lemma_digits_value_prefix(d, i - start + 1);
                        }
                    }
                    return None;
                },
            },
            None => {
                proof {
                    if forall|j: int| 0 <= j < d.len() ==> is_digit(#[trigger] d[j]) {
                        lemma_digits_value_prefix(d, i - start + 1);
                    }
                }
                return None;
            },
        }
        i = i + 1;
    }
    proof {
        assert(d.take(end - start) =~= d);
    }
    Some(value)
}

} // verus!
