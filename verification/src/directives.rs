//! The directive grammar of the `Cache-Control` header and its parser.
//!
//! A header value is split on `,` into tokens; each token is split on its
//! first `=` into a key and an optional value, both trimmed of white space.
//! A known key sets one field of the [`CacheControl`] record — the last
//! occurrence of a single-valued directive wins — and an unknown key is
//! ignored. A numeric directive whose value is missing or unreadable makes
//! the whole parse fail. The spec functions here state that grammar over
//! `Seq<char>`, and the executable parser is proved to return exactly what
//! they prescribe.

use crate::number::spec_parse_u64;
use crate::number::parse_u64_in;
use crate::text::spec_find;
use crate::text::spec_trim;
use crate::text::ascii_eq_ignore_case;
use crate::text::lemma_find_some;
use crate::text::find_char_in;
use crate::text::trim_in;
use crate::text::range_eq_lit;
use crate::text::range_eq_ignore_ascii_case_lit;
use vstd::prelude::*;
use vstd::string::StrSliceExecFns;

verus! {

/// How the data may be cached.
#[derive(Clone, Copy, PartialEq, Eq, Debug)]
pub enum Cachability {
    /// Any cache can cache this data.
    Public,
    /// Data cannot be cached in shared caches.
    Private,
    /// No one can cache this data.
    NoCache,
    /// Cache the data the first time, and use the cache from then on.
    OnlyIfCached,
}

/// The directives of one `Cache-Control` header value. Durations are whole
/// seconds; a field is `None` or `false` until a directive sets it.
#[derive(Clone, Copy, PartialEq, Eq, Debug)]
pub struct CacheControl {
    /// The last visibility directive seen, if any.
    pub cachability: Option<Cachability>,
    /// The maximum time in seconds a resource is considered fresh,
    /// relative to the time of the request.
    pub max_age: Option<u64>,
    /// A shared-cache override of `max_age`. No directive of the grammar
    /// sets it, so a parse always leaves it absent.
    pub s_max_age: Option<u64>,
    /// The upper limit in seconds of staleness the client will accept.
    pub max_stale: Option<u64>,
    /// How many seconds the response must still stay fresh for the client.
    pub min_fresh: Option<u64>,
    /// A stale copy may not be used without revalidation at the origin.
    pub must_revalidate: bool,
    /// Like `must_revalidate`, but only for shared caches.
    pub proxy_revalidate: bool,
    /// The response body will not change over time.
    pub immutable: bool,
    /// The response may not be stored in any cache.
    pub no_store: bool,
    /// An intermediary may not edit the response body or its encoding.
    pub no_transform: bool,
}

impl CacheControl {
    /// The record before any directive is seen: nothing present, every flag
    /// false.
    pub open spec fn spec_default() -> CacheControl {
        CacheControl {
            cachability: None,
            max_age: None,
            s_max_age: None,
            max_stale: None,
            min_fresh: None,
            must_revalidate: false,
            proxy_revalidate: false,
            immutable: false,
            no_store: false,
            no_transform: false,
        }
    }
}

impl Default for CacheControl {
    fn default() -> (r: Self)
        ensures
            r == CacheControl::spec_default(),
    {
        CacheControl {
            cachability: None,
            max_age: None,
            s_max_age: None,
            max_stale: None,
            min_fresh: None,
            must_revalidate: false,
            proxy_revalidate: false,
            immutable: false,
            no_store: false,
            no_transform: false,
        }
    }
}

/// The key of a token: what stands before its first `=` (or all of it),
/// trimmed.
pub open spec fn spec_token_key(tok: Seq<char>) -> Seq<char> {
    match spec_find(tok, '=') {
        Some(i) => spec_trim(tok.take(i)),
        None => spec_trim(tok),
    }
}

/// The value of a token: what stands after its first `=`, trimmed; absent
/// when the token has no `=`.
pub open spec fn spec_token_val(tok: Seq<char>) -> Option<Seq<char>> {
    match spec_find(tok, '=') {
        Some(i) => Some(spec_trim(tok.skip(i + 1))),
        None => None,
    }
}

/// What one token does to the record built so far: a cachability name
/// overwrites `cachability`, a numeric directive needs a readable value and
/// overwrites its field, a boolean directive sets its flag (any value is
/// ignored), and an unknown key changes nothing.
pub open spec fn spec_apply_token(r: CacheControl, tok: Seq<char>) -> Option<CacheControl> {
    let key = spec_token_key(tok);
    let val = spec_token_val(tok);
    if key == "public"@ {
        Some(CacheControl { cachability: Some(Cachability::Public), ..r })
    } else if key == "private"@ {
        Some(CacheControl { cachability: Some(Cachability::Private), ..r })
    } else if key == "no-cache"@ {
        Some(CacheControl { cachability: Some(Cachability::NoCache), ..r })
    } else if key == "only-if-cached"@ {
        Some(CacheControl { cachability: Some(Cachability::OnlyIfCached), ..r })
    } else if key == "max-age"@ {
        match val {
            Some(v) => match spec_parse_u64(v) {
                Some(secs) => Some(CacheControl { max_age: Some(secs), ..r }),
                None => None,
            },
            None => None,
        }
    } else if key == "max-stale"@ {
        match val {
            Some(v) => match spec_parse_u64(v) {
                Some(secs) => Some(CacheControl { max_stale: Some(secs), ..r }),
                None => None,
            },
            None => None,
        }
    } else if key == "min-fresh"@ {
        match val {
            Some(v) => match spec_parse_u64(v) {
                Some(secs) => Some(CacheControl { min_fresh: Some(secs), ..r }),
                None => None,
            },
            None => None,
        }
    } else if key == "must-revalidate"@ {
        Some(CacheControl { must_revalidate: true, ..r })
    } else if key == "proxy-revalidate"@ {
        Some(CacheControl { proxy_revalidate: true, ..r })
    } else if key == "immutable"@ {
        Some(CacheControl { immutable: true, ..r })
    } else if key == "no-store"@ {
        Some(CacheControl { no_store: true, ..r })
    } else if key == "no-transform"@ {
        Some(CacheControl { no_transform: true, ..r })
    } else {
        Some(r)
    }
}

/// Applies the comma-separated tokens of `s` to `r` from left to right,
/// failing as soon as one token fails.
pub open spec fn spec_parse_tokens(r: CacheControl, s: Seq<char>) -> Option<CacheControl>
    decreases s.len(),
    via spec_parse_tokens_decreases
{
    match spec_find(s, ',') {
        Some(i) => match spec_apply_token(r, s.take(i)) {
            Some(r2) => spec_parse_tokens(r2, s.skip(i + 1)),
            None => None,
        },
        None => spec_apply_token(r, s),
    }
}

#[via_fn]
proof fn spec_parse_tokens_decreases(r: CacheControl, s: Seq<char>) {
    if let Some(i) = spec_find(s, ',') {
        lemma_find_some(s, ',', i);
    }
}

/// The whole grammar of a header value, from the all-default record.
pub open spec fn spec_parse_value(s: Seq<char>) -> Option<CacheControl> {
    spec_parse_tokens(CacheControl::spec_default(), s)
}

/// The grammar of a whole header line: a name before the first `:`, which
/// must be `Cache-Control` up to ASCII case after trimming, then the value.
pub open spec fn spec_parse_header(s: Seq<char>) -> Option<CacheControl> {
    match spec_find(s, ':') {
        Some(i) => {
            if ascii_eq_ignore_case(spec_trim(s.take(i)), "cache-control"@) {
                spec_parse_value(s.skip(i + 1))
            } else {
                None
            }
        },
        None => None,
    }
}

/// Applies the token in the characters `[lo, hi)` of `s` to `r0`.
fn apply_token_in(r0: CacheControl, s: &str, lo: usize, hi: usize) -> (res: Option<CacheControl>)
    requires
        lo <= hi <= s@.len(),
    ensures
        res == spec_apply_token(r0, s@.subrange(lo as int, hi as int)),
{
    let ghost tok = s@.subrange(lo as int, hi as int);
    let mut klo: usize = lo;
    let mut khi: usize = hi;
    let mut has_val: bool = false;
    let mut vlo: usize = lo;
    let mut vhi: usize = hi;
    match find_char_in(s, lo, hi, '=') {
        Some(e) => {
            proof {
                assert(tok.take(e - lo) =~= s@.subrange(lo as int, e as int));
                assert(tok.skip(e - lo + 1) =~= s@.subrange(e as int + 1, hi as int));
            }
            let (a, b) = trim_in(s, lo, e);
            let (c, d) = trim_in(s, e + 1, hi);
            klo = a;
            khi = b;
            has_val = true;
            vlo = c;
            vhi = d;
        },
        None => {
            let (a, b) = trim_in(s, lo, hi);
            klo = a;
            khi = b;
        },
    }
    proof {
        assert(klo <= khi <= s@.len());
        assert(s@.subrange(klo as int, khi as int) == spec_token_key(tok));
        assert(has_val == (spec_token_val(tok) is Some));
        if has_val {
            assert(vlo <= vhi <= s@.len());
            assert(Some(s@.subrange(vlo as int, vhi as int)) == spec_token_val(tok));
        }
    }
    if range_eq_lit(s, klo, khi, "public") {
        Some(CacheControl { cachability: Some(Cachability::Public), ..r0 })
    } else if range_eq_lit(s, klo, khi, "private") {
        Some(CacheControl { cachability: Some(Cachability::Private), ..r0 })
    } else if range_eq_lit(s, klo, khi, "no-cache") {
        Some(CacheControl { cachability: Some(Cachability::NoCache), ..r0 })
    } else if range_eq_lit(s, klo, khi, "only-if-cached") {
        Some(CacheControl { cachability: Some(Cachability::OnlyIfCached), ..r0 })
    } else if range_eq_lit(s, klo, khi, "max-age") {
        if has_val {
            match parse_u64_in(s, vlo, vhi) {
                Some(secs) => Some(CacheControl { max_age: Some(secs), ..r0 }),
                None => None,
            }
        } else {
            None
        }
    } else if range_eq_lit(s, klo, khi, "max-stale") {
        if has_val {
            match parse_u64_in(s, vlo, vhi) {
                Some(secs) => Some(CacheControl { max_stale: Some(secs), ..r0 }),
                None => None,
            }
        } else {
            None
        }
    } else if range_eq_lit(s, klo, khi, "min-fresh") {
        if has_val {
            match parse_u64_in(s, vlo, vhi) {
                Some(secs) => Some(CacheControl { min_fresh: Some(secs), ..r0 }),
                None => None,
            }
        } else {
            None
        }
    } else if range_eq_lit(s, klo, khi, "must-revalidate") {
        Some(CacheControl { must_revalidate: true, ..r0 })
    } else if range_eq_lit(s, klo, khi, "proxy-revalidate") {
        Some(CacheControl { proxy_revalidate: true, ..r0 })
    } else if range_eq_lit(s, klo, khi, "immutable") {
        Some(CacheControl { immutable: true, ..r0 })
    } else if range_eq_lit(s, klo, khi, "no-store") {
        Some(CacheControl { no_store: true, ..r0 })
    } else if range_eq_lit(s, klo, khi, "no-transform") {
        Some(CacheControl { no_transform: true, ..r0 })
    } else {
        Some(r0)
    }
}

/// Parses the tokens in the characters `[lo, hi)` of `s`, from the
/// all-default record.
fn parse_value_in(s: &str, lo: usize, hi: usize) -> (r: Option<CacheControl>)
    requires
        lo <= hi <= s@.len(),
    ensures
        r == spec_parse_tokens(CacheControl::spec_default(), s@.subrange(lo as int, hi as int)),
{
    let ghost whole = s@.subrange(lo as int, hi as int);
    let mut cur = CacheControl::default();
    let mut pos: usize = lo;
    loop
        invariant
            lo <= pos <= hi <= s@.len(),
            whole == s@.subrange(lo as int, hi as int),
            spec_parse_tokens(cur, s@.subrange(pos as int, hi as int)) == spec_parse_tokens(
                CacheControl::spec_default(),
                whole,
            ),
        decreases hi - pos,
    {
        let ghost rem = s@.subrange(pos as int, hi as int);
        match find_char_in(s, pos, hi, ',') {
            None => {
                let res = apply_token_in(cur, s, pos, hi);
                proof {
                    assert(spec_parse_tokens(cur, rem) == spec_apply_token(cur, rem));
                }
                return res;
            },
            Some(i) => {
                proof {
                    assert(rem.take(i - pos) =~= s@.subrange(pos as int, i as int));
                    assert(rem.skip(i - pos + 1) =~= s@.subrange(i as int + 1, hi as int));
                }
                match apply_token_in(cur, s, pos, i) {
                    None => {
                        proof {
                            assert(spec_parse_tokens(cur, rem) is None);
                        }
                        return None;
                    },
                    Some(r2) => {
                        proof {
                            assert(spec_parse_tokens(cur, rem) == spec_parse_tokens(
                                r2,
                                s@.subrange(i as int + 1, hi as int),
                            ));
                        }
                        cur = r2;
                        pos = i + 1;
                    },
                }
            },
        }
    }
}

impl CacheControl {
    /// Parses the value of a `Cache-Control` header, everything after the
    /// field name and colon. Returns `None` exactly when some token names a
    /// numeric directive whose value is missing or unreadable; every other
    /// input yields the record the grammar prescribes.
    pub fn from_value(value: &str) -> (r: Option<Self>)
        ensures
            r == spec_parse_value(value@),
    {
        let n: usize = value.unicode_len();
        let r = parse_value_in(value, 0, n);
        proof {
            assert(value@.subrange(0, n as int) =~= value@);
        }
        r
    }

    /// Parses a whole `Cache-Control` header line. Returns `None` when the
    /// line has no colon or the name before the first colon is not
    /// `Cache-Control` up to ASCII case; otherwise parses the rest of the
    /// line as `from_value` does.
    pub fn from_header(value: &str) -> (r: Option<Self>)
        ensures
            r == spec_parse_header(value@),
    {
        let n: usize = value.unicode_len();
        proof {
            assert(value@.subrange(0, n as int) =~= value@);
        }
        match find_char_in(value, 0, n, ':') {
            None => None,
            Some(i) => {
                proof {
                    assert(value@.take(i as int) =~= value@.subrange(0, i as int));
                }
                let (a, b) = trim_in(value, 0, i);
                if range_eq_ignore_ascii_case_lit(value, a, b, "cache-control") {
                    let r = parse_value_in(value, i + 1, n);
                    proof {
                        assert(value@.skip(i as int + 1) =~= value@.subrange(
                            i as int + 1,
                            n as int,
                        ));
                    }
                    r
                } else {
                    None
                }
            },
        }
    }
}

} // verus!
