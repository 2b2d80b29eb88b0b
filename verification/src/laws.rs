//! Laws of the parser, proved once over every input: the parse is a pure
//! function of the text, tokens compose from left to right over a comma, the
//! last occurrence of a single-valued directive decides its field, boolean
//! flags only accumulate, a header line named `Cache-Control` parses exactly
//! as its value alone, and no directive ever populates `s_max_age`.

use crate::directives::CacheControl;
use crate::directives::Cachability;
use crate::directives::spec_apply_token;
use crate::directives::spec_parse_header;
use crate::directives::spec_parse_tokens;
use crate::directives::spec_parse_value;
use crate::directives::spec_token_key;
use crate::directives::spec_token_val;
use crate::number::spec_parse_u64;
use crate::text::lemma_find_none;
use crate::text::lemma_find_skip;
use crate::text::lemma_find_some;
use crate::text::spec_find;
use vstd::prelude::*;

verus! {

/// The parse result is a function of the input text alone: equal texts parse
/// to equal results, so re-parsing the same input always yields an equal
/// record.
pub proof fn lemma_parse_deterministic(a: Seq<char>, b: Seq<char>)
    requires
        a == b,
    ensures
        spec_parse_value(a) == spec_parse_value(b),
        spec_parse_header(a) == spec_parse_header(b),
{
}

/// Tokens apply from left to right: parsing `s1`, a comma, then `s2` is
/// parsing `s1` and feeding the record it built into the parse of `s2`, and
/// fails exactly when either part fails.
pub proof fn lemma_parse_tokens_append(r: CacheControl, s1: Seq<char>, s2: Seq<char>)
    ensures
        spec_parse_tokens(r, s1 + seq![','] + s2) == (match spec_parse_tokens(r, s1) {
            Some(r1) => spec_parse_tokens(r1, s2),
            None => None::<CacheControl>,
        }),
    decreases s1.len(),
{
    let s = s1 + seq![','] + s2;
    assert(s.len() == s1.len() + 1 + s2.len());
    match spec_find(s1, ',') {
        None => {
            lemma_find_none(s1, ',');
            assert forall|j: int| 0 <= j < s1.len() implies s[j] != ',' by {
                assert(s[j] == s1[j]);
            }
            lemma_find_skip(s, ',', s1.len() as int);
            assert(s.skip(s1.len() as int)[0] == ',');
            assert(spec_find(s.skip(s1.len() as int), ',') == Some(0int));
            assert(spec_find(s, ',') == Some(s1.len() as int));
            assert(s.take(s1.len() as int) =~= s1);
            assert(s.skip(s1.len() as int + 1) =~= s2);
        },
        Some(i) => {
            lemma_find_some(s1, ',', i);
            assert forall|j: int| 0 <= j < i implies s[j] != ',' by {
                assert(s[j] == s1[j]);
            }
            lemma_find_skip(s, ',', i);
            assert(s.skip(i)[0] == ',');
            assert(spec_find(s.skip(i), ',') == Some(0int));
            assert(spec_find(s, ',') == Some(i));
            assert(s.take(i) =~= s1.take(i));
            assert(s.skip(i + 1) =~= s1.skip(i + 1) + seq![','] + s2);
            match spec_apply_token(r, s1.take(i)) {
                Some(r2) => {
                    lemma_parse_tokens_append(r2, s1.skip(i + 1), s2);
                },
                None => {
                },
            }
        },
    }
}

/// A comma-free token appended after earlier input is applied last: whatever
/// the earlier input set, the final token rewrites the record as
/// `spec_apply_token` says, so of two settings of one field the later wins.
pub proof fn lemma_last_token_wins(
    r0: CacheControl,
    earlier: Seq<char>,
    tok: Seq<char>,
    r1: CacheControl,
)
    requires
        spec_parse_tokens(r0, earlier) == Some(r1),
        spec_find(tok, ',') is None,
    ensures
        spec_parse_tokens(r0, earlier + seq![','] + tok) == spec_apply_token(r1, tok),
{
    lemma_parse_tokens_append(r0, earlier, tok);
}

/// When the last token is `max-age` with a readable value, that value is the
/// one recorded, whatever any earlier `max-age` directive said. The other
/// numeric directives behave alike, each on its own field.
pub proof fn lemma_numeric_last_wins(
    r0: CacheControl,
    earlier: Seq<char>,
    tok: Seq<char>,
    r1: CacheControl,
    v: u64,
)
    requires
        spec_parse_tokens(r0, earlier) == Some(r1),
        spec_find(tok, ',') is None,
        spec_token_key(tok) == "max-age"@,
        (spec_token_val(tok) matches Some(vs) && spec_parse_u64(vs) == Some(v)),
    ensures
        (spec_parse_tokens(r0, earlier + seq![','] + tok) matches Some(r) && r.max_age == Some(v)),
{
    lemma_last_token_wins(r0, earlier, tok, r1);
    reveal_strlit("max-age");
    reveal_strlit("public");
    reveal_strlit("private");
    reveal_strlit("no-cache");
    reveal_strlit("only-if-cached");
    assert("max-age"@[0] != "public"@[0]);
    assert("max-age"@[0] != "private"@[0]);
    assert("max-age"@[0] != "no-cache"@[0]);
    assert("max-age"@[0] != "only-if-cached"@[0]);
}

/// When the last token is the cachability directive `private`, the record's
/// cachability is `Private`, whatever any earlier cachability directive said.
/// The other three cachability names behave alike.
pub proof fn lemma_cachability_last_wins(
    r0: CacheControl,
    earlier: Seq<char>,
    tok: Seq<char>,
    r1: CacheControl,
)
    requires
        spec_parse_tokens(r0, earlier) == Some(r1),
        spec_find(tok, ',') is None,
        spec_token_key(tok) == "private"@,
    ensures
        (spec_parse_tokens(r0, earlier + seq![','] + tok) matches Some(r) && r.cachability
            == Some(Cachability::Private)),
{
    lemma_last_token_wins(r0, earlier, tok, r1);
    reveal_strlit("private");
    reveal_strlit("public");
    assert("private"@[1] != "public"@[1]);
}

/// A token can set a boolean flag, but nothing clears one.
proof fn lemma_apply_token_keeps_flags(r: CacheControl, tok: Seq<char>)
    ensures
        (spec_apply_token(r, tok) matches Some(r2) ==> {
            &&& (r.must_revalidate ==> r2.must_revalidate)
            &&& (r.proxy_revalidate ==> r2.proxy_revalidate)
            &&& (r.immutable ==> r2.immutable)
            &&& (r.no_store ==> r2.no_store)
            &&& (r.no_transform ==> r2.no_transform)
        }),
{
}

/// Boolean flags only accumulate across tokens: a successful parse records
/// the logical OR of all boolean directives seen, never un-setting one.
pub proof fn lemma_flags_accumulate(r: CacheControl, s: Seq<char>)
    ensures
        (spec_parse_tokens(r, s) matches Some(out) ==> {
            &&& (r.must_revalidate ==> out.must_revalidate)
            &&& (r.proxy_revalidate ==> out.proxy_revalidate)
            &&& (r.immutable ==> out.immutable)
            &&& (r.no_store ==> out.no_store)
            &&& (r.no_transform ==> out.no_transform)
        }),
    decreases s.len(),
{
    match spec_find(s, ',') {
        None => {
            lemma_apply_token_keeps_flags(r, s);
        },
        Some(i) => {
            lemma_find_some(s, ',', i);
            lemma_apply_token_keeps_flags(r, s.take(i));
            match spec_apply_token(r, s.take(i)) {
                Some(r2) => {
                    lemma_flags_accumulate(r2, s.skip(i + 1));
                },
                None => {
                },
            }
        },
    }
}

/// A token never touches `s_max_age`.
proof fn lemma_apply_token_keeps_s_max_age(r: CacheControl, tok: Seq<char>)
    ensures
        (spec_apply_token(r, tok) matches Some(r2) ==> r2.s_max_age == r.s_max_age),
{
}

/// Parsing can only carry `s_max_age` through unchanged.
pub proof fn lemma_parse_keeps_s_max_age(r: CacheControl, s: Seq<char>)
    ensures
        (spec_parse_tokens(r, s) matches Some(out) ==> out.s_max_age == r.s_max_age),
    decreases s.len(),
{
    match spec_find(s, ',') {
        None => {
            lemma_apply_token_keeps_s_max_age(r, s);
        },
        Some(i) => {
            lemma_find_some(s, ',', i);
            lemma_apply_token_keeps_s_max_age(r, s.take(i));
            match spec_apply_token(r, s.take(i)) {
                Some(r2) => {
                    lemma_parse_keeps_s_max_age(r2, s.skip(i + 1));
                },
                None => {
                },
            }
        },
    }
}

/// No directive of the grammar populates `s_max_age`: a successful parse of a
/// header value always leaves it absent.
pub proof fn lemma_s_max_age_always_absent(s: Seq<char>)
    ensures
        (spec_parse_value(s) matches Some(out) ==> out.s_max_age is None),
{
    lemma_parse_keeps_s_max_age(CacheControl::spec_default(), s);
}

/// A header line whose name is literally `Cache-Control` parses exactly as
/// its value alone does, whatever the value holds.
pub proof fn lemma_header_delegates(v: Seq<char>)
    ensures
        spec_parse_header("Cache-Control"@ + seq![':'] + v) == spec_parse_value(v),
{
    let line = "Cache-Control"@ + seq![':'] + v;
    reveal_strlit("Cache-Control");
    reveal_strlit("cache-control");
    assert forall|j: int| 0 <= j < 13 implies line[j] != ':' by {
        assert(line[j] == "Cache-Control"@[j]);
    }
    lemma_find_skip(line, ':', 13);
    assert(line.skip(13)[0] == ':');
    assert(spec_find(line.skip(13), ':') == Some(0int));
    assert(spec_find(line, ':') == Some(13int));
    assert(line.take(13) =~= "Cache-Control"@);
    assert(line.skip(14) =~= v);
}

} // verus!
