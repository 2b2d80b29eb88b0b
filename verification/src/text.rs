//! Character-level scanning: white space, ASCII case folding, finding a
//! separator, trimming, and comparing a slice of the input against a literal.
//!
//! The executable functions work on an index range `[lo, hi)` of the
//! characters of a `&str`, so no substring is ever allocated; each is proved
//! against a spec function over the string's view, a `Seq<char>`.

use vstd::prelude::*;
use vstd::string::StrSliceExecFns;

verus! {

/// A character of the Unicode white space set, the set that `str::trim`
/// removes from both ends.
pub open spec fn is_ws(c: char) -> bool {
    let u = c as u32;
    u == 0x09 || u == 0x0a || u == 0x0b || u == 0x0c || u == 0x0d || u == 0x20 || u == 0x85
        || u == 0xa0 || u == 0x1680 || (0x2000 <= u && u <= 0x200a) || u == 0x2028 || u == 0x2029
        || u == 0x202f || u == 0x205f || u == 0x3000
}

fn is_ws_char(c: char) -> (r: bool)
    ensures
        r == is_ws(c),
{
    let u: u32 = c as u32;
    u == 0x09 || u == 0x0a || u == 0x0b || u == 0x0c || u == 0x0d || u == 0x20 || u == 0x85
        || u == 0xa0 || u == 0x1680 || (0x2000 <= u && u <= 0x200a) || u == 0x2028 || u == 0x2029
        || u == 0x202f || u == 0x205f || u == 0x3000
}

/// ASCII case folding of one character, as `str::eq_ignore_ascii_case`
/// compares: an upper-case ASCII letter maps to its lower-case form, every
/// other character is unchanged.
pub open spec fn fold_ascii(c: char) -> int {
    let u = c as u32;
    if 0x41 <= u && u <= 0x5a {
        u + 0x20
    } else {
        u as int
    }
}

/// Two texts are equal up to ASCII case.
pub open spec fn ascii_eq_ignore_case(a: Seq<char>, b: Seq<char>) -> bool {
    a.len() == b.len() && (forall|i: int| 0 <= i < a.len() ==> fold_ascii(a[i]) == fold_ascii(b[i]))
}

fn fold_ascii_char(c: char) -> (r: u32)
    ensures
        r as int == fold_ascii(c),
{
    let u: u32 = c as u32;
    if 0x41 <= u && u <= 0x5a {
        u + 0x20
    } else {
        u
    }
}

/// The index of the first occurrence of `c` in `s`, if there is one.
pub open spec fn spec_find(s: Seq<char>, c: char) -> Option<int>
    decreases s.len(),
{
    if s.len() == 0 {
        None
    } else if s[0] == c {
        Some(0)
    } else {
        match spec_find(s.drop_first(), c) {
            Some(i) => Some(i + 1),
            None => None,
        }
    }
}

/// A found index is in range, holds `c`, and nothing before it does.
pub proof fn lemma_find_some(s: Seq<char>, c: char, i: int)
    requires
        spec_find(s, c) == Some(i),
    ensures
        0 <= i < s.len(),
        s[i] == c,
        forall|j: int| 0 <= j < i ==> s[j] != c,
    decreases s.len(),
{
    if s.len() == 0 {
    } else if s[0] == c {
    } else {
        lemma_find_some(s.drop_first(), c, i - 1);
        assert forall|j: int| 0 <= j < i implies s[j] != c by {
            if j > 0 {
                assert(s.drop_first()[j - 1] != c);
            }
        }
    }
}

/// When nothing is found, `c` occurs nowhere in `s`.
pub proof fn lemma_find_none(s: Seq<char>, c: char)
    requires
        spec_find(s, c) is None,
    ensures
        forall|j: int| 0 <= j < s.len() ==> s[j] != c,
    decreases s.len(),
{
    if s.len() == 0 {
    } else {
        lemma_find_none(s.drop_first(), c);
        assert forall|j: int| 0 <= j < s.len() implies s[j] != c by {
            if j > 0 {
                assert(s.drop_first()[j - 1] != c);
            }
        }
    }
}

/// Skipping a prefix free of `c` shifts the found index by the prefix length.
pub proof fn lemma_find_skip(s: Seq<char>, c: char, k: int)
    requires
        0 <= k <= s.len(),
        forall|j: int| 0 <= j < k ==> s[j] != c,
    ensures
        spec_find(s, c) == (match spec_find(s.skip(k), c) {
            Some(i) => Some(i + k),
            None => None::<int>,
        }),
    decreases k,
{
    if k == 0 {
        assert(s.skip(0) =~= s);
    } else {
        assert(s.drop_first() =~= s.skip(1));
        lemma_find_skip(s.skip(1), c, k - 1);
        assert(s.skip(1).skip(k - 1) =~= s.skip(k));
    }
}

/// The first occurrence of `c` among the characters `[lo, hi)` of `s`,
/// as an absolute index.
pub(crate) fn find_char_in(s: &str, lo: usize, hi: usize, c: char) -> (r: Option<usize>)
    requires
        lo <= hi <= s@.len(),
    ensures
        (match r {
            Some(i) => lo <= i < hi && spec_find(s@.subrange(lo as int, hi as int), c) == Some(
                i - lo,
            ),
            None => spec_find(s@.subrange(lo as int, hi as int), c) is None,
        }),
{
    let ghost t = s@.subrange(lo as int, hi as int);
    let mut i: usize = lo;
    while i < hi
        invariant
            lo <= i <= hi <= s@.len(),
            t == s@.subrange(lo as int, hi as int),
            forall|j: int| lo <= j < i ==> s@[j] != c,
        decreases hi - i,
    {
        let ch = s.get_char(i);
        if ch == c {
            proof {
                assert forall|j: int| 0 <= j < i - lo implies t[j] != c by {
                    assert(t[j] == s@[lo + j]);
                }
                lemma_find_skip(t, c, i - lo);
                assert(t.skip((i - lo) as int)[0] == s@[i as int]);
                assert(spec_find(t.skip((i - lo) as int), c) == Some(0int));
            }
            return Some(i);
        }
        i += 1;
    }
    proof {
        assert forall|j: int| 0 <= j < hi - lo implies t[j] != c by {
            assert(t[j] == s@[lo + j]);
        }
        lemma_find_skip(t, c, (hi - lo) as int);
        assert(t.skip((hi - lo) as int) =~= Seq::<char>::empty());
    }
    None
}

/// What is left of `s` after the leading white space goes.
pub open spec fn spec_trim_start(s: Seq<char>) -> Seq<char>
    decreases s.len(),
{
    if s.len() == 0 {
        s
    } else if is_ws(s[0]) {
        spec_trim_start(s.drop_first())
    } else {
        s
    }
}

/// What is left of `s` after the trailing white space goes.
pub open spec fn spec_trim_end(s: Seq<char>) -> Seq<char>
    decreases s.len(),
{
    if s.len() == 0 {
        s
    } else if is_ws(s.last()) {
        spec_trim_end(s.drop_last())
    } else {
        s
    }
}

/// `s` without leading and trailing white space, as `str::trim` leaves it.
pub open spec fn spec_trim(s: Seq<char>) -> Seq<char> {
    spec_trim_end(spec_trim_start(s))
}

/// Narrows the range `[lo, hi)` of `s` to its trimmed core.
pub(crate) fn trim_in(s: &str, lo: usize, hi: usize) -> (r: (usize, usize))
    requires
        lo <= hi <= s@.len(),
    ensures
        lo <= r.0 && r.0 <= r.1 && r.1 <= hi,
        s@.subrange(r.0 as int, r.1 as int) == spec_trim(s@.subrange(lo as int, hi as int)),
{
    let mut a: usize = lo;
    let mut b: usize = hi;
    loop
        invariant
            lo <= a <= hi <= s@.len(),
            spec_trim_start(s@.subrange(a as int, hi as int)) == spec_trim_start(
                s@.subrange(lo as int, hi as int),
            ),
        ensures
            lo <= a <= hi,
            spec_trim_start(s@.subrange(a as int, hi as int)) == spec_trim_start(
                s@.subrange(lo as int, hi as int),
            ),
            spec_trim_start(s@.subrange(a as int, hi as int)) == s@.subrange(a as int, hi as int),
        decreases hi - a,
    {
        if a == hi {
            proof {
                assert(s@.subrange(a as int, hi as int).len() == 0);
            }
            break;
        }
        let c = s.get_char(a);
        if !is_ws_char(c) {
            proof {
                assert(s@.subrange(a as int, hi as int)[0] == s@[a as int]);
            }
            break;
        }
        proof {
            assert(s@.subrange(a as int, hi as int)[0] == s@[a as int]);
            assert(s@.subrange(a as int, hi as int).drop_first() =~= s@.subrange(
                a as int + 1,
                hi as int,
            ));
        }
        a += 1;
    }
    loop
        invariant
            lo <= a <= b <= hi <= s@.len(),
            spec_trim_end(s@.subrange(a as int, b as int)) == spec_trim_end(
                s@.subrange(a as int, hi as int),
            ),
        ensures
            a <= b <= hi,
            spec_trim_end(s@.subrange(a as int, b as int)) == spec_trim_end(
                s@.subrange(a as int, hi as int),
            ),
            spec_trim_end(s@.subrange(a as int, b as int)) == s@.subrange(a as int, b as int),
        decreases b - a,
    {
        if b == a {
            proof {
                assert(s@.subrange(a as int, b as int).len() == 0);
            }
            break;
        }
        let c = s.get_char(b - 1);
        if !is_ws_char(c) {
            proof {
                assert(s@.subrange(a as int, b as int).last() == s@[b as int - 1]);
            }
            break;
        }
        proof {
            assert(s@.subrange(a as int, b as int).last() == s@[b as int - 1]);
            assert(s@.subrange(a as int, b as int).drop_last() =~= s@.subrange(
                a as int,
                b as int - 1,
            ));
        }
        b -= 1;
    }
    (a, b)
}

/// Whether the characters `[lo, hi)` of `s` are exactly the literal `lit`.
pub(crate) fn range_eq_lit(s: &str, lo: usize, hi: usize, lit: &str) -> (r: bool)
    requires
        lo <= hi <= s@.len(),
    ensures
        r == (s@.subrange(lo as int, hi as int) == lit@),
{
    let n: usize = lit.unicode_len();
    let ghost t = s@.subrange(lo as int, hi as int);
    if hi - lo != n {
        proof {
            assert(t.len() == hi - lo);
        }
        return false;
    }
    let mut j: usize = 0;
    while j < n
        invariant
            0 <= j <= n,
            n == hi - lo,
            lo <= hi <= s@.len(),
            n == lit@.len(),
            t == s@.subrange(lo as int, hi as int),
            forall|k: int| 0 <= k < j ==> t[k] == lit@[k],
        decreases n - j,
    {
        let cs = s.get_char(lo + j);
        let cl = lit.get_char(j);
        if cs != cl {
            proof {
                assert(t[j as int] == s@[lo + j]);
            }
            return false;
        }
        proof {
            assert(t[j as int] == s@[lo + j]);
        }
        j += 1;
    }
    proof {
        assert(t =~= lit@);
    }
    true
}

/// Whether the characters `[lo, hi)` of `s` equal the literal `lit` up to
/// ASCII case, as `str::eq_ignore_ascii_case` decides.
pub(crate) fn range_eq_ignore_ascii_case_lit(s: &str, lo: usize, hi: usize, lit: &str) -> (r: bool)
    requires
        lo <= hi <= s@.len(),
    ensures
        r == ascii_eq_ignore_case(s@.subrange(lo as int, hi as int), lit@),
{
    let n: usize = lit.unicode_len();
    let ghost t = s@.subrange(lo as int, hi as int);
    if hi - lo != n {
        proof {
            assert(t.len() == hi - lo);
        }
        return false;
    }
    let mut j: usize = 0;
    while j < n
        invariant
            0 <= j <= n,
            n == hi - lo,
            lo <= hi <= s@.len(),
            n == lit@.len(),
            t == s@.subrange(lo as int, hi as int),
            forall|k: int| 0 <= k < j ==> fold_ascii(t[k]) == fold_ascii(lit@[k]),
        decreases n - j,
    {
        let fs = fold_ascii_char(s.get_char(lo + j));
        let fl = fold_ascii_char(lit.get_char(j));
        if fs != fl {
            proof {
                assert(t[j as int] == s@[lo + j]);
            }
            return false;
        }
        proof {
            assert(t[j as int] == s@[lo + j]);
        }
        j += 1;
    }
    true
}

} // verus!
