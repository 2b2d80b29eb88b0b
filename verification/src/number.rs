//! Reading a non-negative decimal number of seconds, exactly as
//! `str::parse::<u64>` reads it: an optional leading `+`, then one or more
//! ASCII digits, rejected when the value does not fit in the type.

use vstd::prelude::*;
use vstd::string::StrSliceExecFns;

verus! {

/// An ASCII decimal digit.
pub open spec fn is_digit(c: char) -> bool {
    0x30 <= c as u32 && c as u32 <= 0x39
}

/// The numeric value of one digit.
pub open spec fn digit_val(c: char) -> int {
    c as u32 - 0x30
}

/// Every character of `s` is a digit.
pub open spec fn all_digits(s: Seq<char>) -> bool {
    forall|i: int| 0 <= i < s.len() ==> is_digit(#[trigger] s[i])
}

/// The value of a digit text, most significant digit first.
pub open spec fn digits_val(s: Seq<char>) -> int
    decreases s.len(),
{
    if s.len() == 0 {
        0
    } else {
        digits_val(s.drop_last()) * 10 + digit_val(s.last())
    }
}

/// How `u64::from_str` reads a text: an optional leading `+`, then at least
/// one decimal digit, and the value must fit in the type.
pub open spec fn spec_parse_u64(s: Seq<char>) -> Option<u64> {
    let ds = if s.len() > 0 && s[0] == '+' {
        s.drop_first()
    } else {
        s
    };
    if ds.len() > 0 && all_digits(ds) && digits_val(ds) <= u64::MAX {
        Some(digits_val(ds) as u64)
    } else {
        None
    }
}

/// A prefix of a digit text is all digits.
proof fn lemma_all_digits_take(s: Seq<char>, k: int)
    requires
        all_digits(s),
        0 <= k <= s.len(),
    ensures
        all_digits(s.take(k)),
{
    assert forall|i: int| 0 <= i < s.take(k).len() implies is_digit(#[trigger] s.take(k)[i]) by {
        assert(s.take(k)[i] == s[i]);
    }
}

/// The value of a digit text is never negative.
proof fn lemma_digits_val_nonneg(s: Seq<char>)
    requires
        all_digits(s),
    ensures
        digits_val(s) >= 0,
    decreases s.len(),
{
    if s.len() > 0 {
        lemma_all_digits_take(s, s.len() - 1);
        assert(s.drop_last() == s.take(s.len() - 1));
        lemma_digits_val_nonneg(s.drop_last());
    }
}

/// Appending digits never shrinks the value: the whole text is worth at least
/// any of its prefixes.
proof fn lemma_digits_val_prefix_mono(s: Seq<char>, k: int)
    requires
        all_digits(s),
        0 <= k <= s.len(),
    ensures
        digits_val(s) >= digits_val(s.take(k)),
    decreases s.len() - k,
{
    if k == s.len() {
        assert(s.take(k) =~= s);
    } else {
        assert(s.take(k + 1).drop_last() =~= s.take(k));
        assert(s.take(k + 1).last() == s[k]);
        lemma_all_digits_take(s, k);
        lemma_digits_val_nonneg(s.take(k));
        assert(digits_val(s.take(k + 1)) >= digits_val(s.take(k)));
        lemma_digits_val_prefix_mono(s, k + 1);
    }
}

/// Reads the characters `[lo, hi)` of `s` as a `u64`, returning exactly what
/// `spec_parse_u64` gives on that range.
pub(crate) fn parse_u64_in(s: &str, lo: usize, hi: usize) -> (r: Option<u64>)
    requires
        lo <= hi <= s@.len(),
    ensures
        r == spec_parse_u64(s@.subrange(lo as int, hi as int)),
{
    let ghost t = s@.subrange(lo as int, hi as int);
    if lo == hi {
        return None;
    }
    let mut i: usize = lo;
    let c0 = s.get_char(lo);
    if c0 == '+' {
        i = lo + 1;
    }
    let ghost ds = if t.len() > 0 && t[0] == '+' {
        t.drop_first()
    } else {
        t
    };
    proof {
        assert(t[0] == s@[lo as int]);
        assert(ds =~= s@.subrange(i as int, hi as int));
    }
    if i == hi {
        return None;
    }
    let mut acc: u64 = 0;
    let mut j: usize = i;
    while j < hi
        invariant
            lo <= i <= j <= hi <= s@.len(),
            i < hi,
            t == s@.subrange(lo as int, hi as int),
            ds == (if t.len() > 0 && t[0] == '+' {
                t.drop_first()
            } else {
                t
            }),
            ds == s@.subrange(i as int, hi as int),
            all_digits(ds.take(j - i)),
            acc as int == digits_val(ds.take(j - i)),
        decreases hi - j,
    {
        let c = s.get_char(j);
        let u: u32 = c as u32;
        proof {
            assert(ds[j - i] == s@[j as int]);
        }
        if u < 0x30 || u > 0x39 {
            proof {
                assert(!is_digit(ds[j - i]));
            }
            return None;
        }
        let d: u64 = (u - 0x30) as u64;
        proof {
            assert(ds.take(j - i + 1).drop_last() =~= ds.take(j - i));
            assert(ds.take(j - i + 1).last() == ds[j - i]);
            assert(digits_val(ds.take(j - i + 1)) == acc as int * 10 + d as int);
            assert forall|m: int| 0 <= m < j - i + 1 implies is_digit(
                #[trigger] ds.take(j - i + 1)[m],
            ) by {
                assert(ds.take(j - i + 1)[m] == ds[m]);
                if m < j - i {
                    assert(ds.take(j - i)[m] == ds[m]);
                }
            }
        }
        let q: u64 = u64::MAX / 10;
        if acc > q || (acc == q && d > 5) {
            proof {
                assert(digits_val(ds.take(j - i + 1)) > u64::MAX);
                if all_digits(ds) {
                    lemma_digits_val_prefix_mono(ds, j - i + 1);
                    assert(digits_val(ds) > u64::MAX);
                }
            }
            return None;
        }
        acc = acc * 10 + d;
        j += 1;
    }
    proof {
        assert(ds.take(hi - i) =~= ds);
    }
    Some(acc)
}

} // verus!
