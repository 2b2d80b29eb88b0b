use cache_control::Cachability;
use cache_control::CacheControl;

fn default_record() -> CacheControl {
    CacheControl {
        cachability: None,
        max_age: None,
        s_max_age: None,
        max_stale: None,
        min_fresh: None,
        must_revalidate: false,
        proxy_revalidate: false,
        immutable: false,
        no_store: false,
        no_transform: false,
    }
}

#[test]
fn empty_value_is_all_default() {
    assert_eq!(CacheControl::from_value("").unwrap(), default_record());
    assert_eq!(CacheControl::default(), default_record());
}

#[test]
fn each_boolean_directive_sets_only_its_flag() {
    let r = CacheControl::from_value("must-revalidate").unwrap();
    assert_eq!(r, CacheControl { must_revalidate: true, ..default_record() });
    let r = CacheControl::from_value("proxy-revalidate").unwrap();
    assert_eq!(r, CacheControl { proxy_revalidate: true, ..default_record() });
    let r = CacheControl::from_value("immutable").unwrap();
    assert_eq!(r, CacheControl { immutable: true, ..default_record() });
    let r = CacheControl::from_value("no-store").unwrap();
    assert_eq!(r, CacheControl { no_store: true, ..default_record() });
    let r = CacheControl::from_value("no-transform").unwrap();
    assert_eq!(r, CacheControl { no_transform: true, ..default_record() });
}

#[test]
fn each_cachability_directive_sets_only_cachability() {
    let r = CacheControl::from_value("public").unwrap();
    assert_eq!(r, CacheControl { cachability: Some(Cachability::Public), ..default_record() });
    let r = CacheControl::from_value("private").unwrap();
    assert_eq!(r, CacheControl { cachability: Some(Cachability::Private), ..default_record() });
    let r = CacheControl::from_value("no-cache").unwrap();
    assert_eq!(r, CacheControl { cachability: Some(Cachability::NoCache), ..default_record() });
    let r = CacheControl::from_value("only-if-cached").unwrap();
    assert_eq!(
        r,
        CacheControl { cachability: Some(Cachability::OnlyIfCached), ..default_record() }
    );
}

#[test]
fn max_age_sets_only_max_age() {
    let r = CacheControl::from_value("max-age=60").unwrap();
    assert_eq!(r, CacheControl { max_age: Some(60), ..default_record() });
}

#[test]
fn other_numeric_directives_set_their_fields() {
    let r = CacheControl::from_value("max-stale=30").unwrap();
    assert_eq!(r, CacheControl { max_stale: Some(30), ..default_record() });
    let r = CacheControl::from_value("min-fresh=0").unwrap();
    assert_eq!(r, CacheControl { min_fresh: Some(0), ..default_record() });
}

#[test]
fn bad_numeric_value_fails_the_whole_parse() {
    assert_eq!(CacheControl::from_value("max-age="), None);
    assert_eq!(CacheControl::from_value("max-age"), None);
    assert_eq!(CacheControl::from_value("max-age=abc"), None);
    assert_eq!(CacheControl::from_value("max-age=-1"), None);
    assert_eq!(CacheControl::from_value("max-stale="), None);
    assert_eq!(CacheControl::from_value("min-fresh=x"), None);
    // one bad numeric directive invalidates already-valid ones
    assert_eq!(CacheControl::from_value("public, max-age=60, min-fresh"), None);
}

#[test]
fn numeric_value_bounds() {
    // the largest value that fits, and the first that does not
    let r = CacheControl::from_value("max-age=18446744073709551615").unwrap();
    assert_eq!(r.max_age, Some(u64::MAX));
    assert_eq!(CacheControl::from_value("max-age=18446744073709551616"), None);
    assert_eq!(CacheControl::from_value("max-age=99999999999999999999999"), None);
    // a leading plus sign is part of the integer syntax
    assert_eq!(CacheControl::from_value("max-age=+60").unwrap().max_age, Some(60));
    assert_eq!(CacheControl::from_value("max-age=+"), None);
}

#[test]
fn last_occurrence_wins() {
    assert_eq!(CacheControl::from_value("max-age=1, max-age=2").unwrap().max_age, Some(2));
    assert_eq!(CacheControl::from_value("max-age=100, max-age=7").unwrap().max_age, Some(7));
    assert_eq!(
        CacheControl::from_value("public, private").unwrap().cachability,
        Some(Cachability::Private)
    );
    assert_eq!(
        CacheControl::from_value("no-cache, only-if-cached, public").unwrap().cachability,
        Some(Cachability::Public)
    );
}

#[test]
fn header_with_empty_value_equals_empty_parse() {
    let a = CacheControl::from_header("Cache-Control: ").unwrap();
    let b = CacheControl::from_value("").unwrap();
    assert_eq!(a, b);
    assert_eq!(a, default_record());
}

#[test]
fn header_name_is_case_insensitive_and_trimmed() {
    assert_eq!(
        CacheControl::from_header("cache-control: no-store").unwrap().no_store,
        true
    );
    assert_eq!(
        CacheControl::from_header("CACHE-CONTROL: no-store").unwrap().no_store,
        true
    );
    assert_eq!(
        CacheControl::from_header("  Cache-Control  : no-store").unwrap().no_store,
        true
    );
    assert_eq!(CacheControl::from_header("Cache-Control:max-age=5").unwrap().max_age, Some(5));
}

#[test]
fn header_without_colon_or_with_wrong_name_fails() {
    assert_eq!(CacheControl::from_header("foo"), None);
    assert_eq!(CacheControl::from_header(""), None);
    assert_eq!(CacheControl::from_header("bar: max-age=60"), None);
    assert_eq!(CacheControl::from_header(": max-age=60"), None);
    assert_eq!(CacheControl::from_header("Cache-Controls: max-age=60"), None);
}

#[test]
fn directive_names_are_case_sensitive() {
    // unlike the header name, directive names match exactly
    assert_eq!(CacheControl::from_value("Public").unwrap(), default_record());
    assert_eq!(CacheControl::from_value("NO-STORE").unwrap(), default_record());
    // an upper-case numeric directive is an unknown key, not a failure
    assert_eq!(CacheControl::from_value("MAX-AGE=60").unwrap(), default_record());
}

#[test]
fn unknown_and_empty_tokens_are_ignored() {
    assert_eq!(CacheControl::from_value("foo, bar=2, stale-if-error=3").unwrap(), default_record());
    assert_eq!(CacheControl::from_value(",,").unwrap(), default_record());
    assert_eq!(CacheControl::from_value("=").unwrap(), default_record());
    assert_eq!(CacheControl::from_value("=x").unwrap(), default_record());
    let r = CacheControl::from_value("foo, public ,").unwrap();
    assert_eq!(r, CacheControl { cachability: Some(Cachability::Public), ..default_record() });
}

#[test]
fn keys_and_values_are_trimmed() {
    let r = CacheControl::from_value("  max-age = 60  ").unwrap();
    assert_eq!(r.max_age, Some(60));
    let r = CacheControl::from_value("\tno-store , must-revalidate\t").unwrap();
    assert!(r.no_store);
    assert!(r.must_revalidate);
}

#[test]
fn boolean_directive_ignores_its_value() {
    let r = CacheControl::from_value("no-store=0").unwrap();
    assert!(r.no_store);
    let r = CacheControl::from_value("immutable=no").unwrap();
    assert!(r.immutable);
}

#[test]
fn value_is_everything_after_the_first_equals() {
    // a second `=` lands in the value part, which is then not a number
    assert_eq!(CacheControl::from_value("max-age=60=70"), None);
    assert_eq!(CacheControl::from_value("foo=bar=baz").unwrap(), default_record());
}

#[test]
fn commas_split_inside_quotes_too() {
    // the grammar has no quoted-string awareness: the comma still splits,
    // so a quoted value that holds a comma cannot feed a numeric directive
    assert_eq!(CacheControl::from_value("max-age=\"1,2\""), None);
    // around an unknown key the fragments are merely ignored
    assert_eq!(CacheControl::from_value("foo=\"a,b\", public").unwrap().cachability,
        Some(Cachability::Public));
}

#[test]
fn s_max_age_is_never_populated() {
    let r = CacheControl::from_value(
        "public, max-age=1, s-maxage=2, max-stale=3, min-fresh=4, no-store",
    )
    .unwrap();
    assert_eq!(r.s_max_age, None);
    assert_eq!(r.max_age, Some(1));
}

#[test]
fn reparsing_gives_an_equal_record() {
    let inputs = ["", "public, max-age=600", "no-cache, no-store, must-revalidate", "max-age="];
    for input in inputs {
        assert_eq!(CacheControl::from_value(input), CacheControl::from_value(input));
    }
    let line = "Cache-Control: public, max-age=600";
    assert_eq!(CacheControl::from_header(line), CacheControl::from_header(line));
}
