use cache_control::Cachability;
use cache_control::CacheControl;

#[test]
fn test_from_value() {
    assert_eq!(CacheControl::from_value("").unwrap(), CacheControl::default());
    assert_eq!(
        CacheControl::from_value("private").unwrap().cachability.unwrap(),
        Cachability::Private
    );
    assert_eq!(CacheControl::from_value("max-age=60").unwrap().max_age.unwrap(), 60);
}

#[test]
fn test_from_value_multi() {
    let test1 = &CacheControl::from_value("no-cache, no-store, must-revalidate").unwrap();
    assert_eq!(test1.cachability, Some(Cachability::NoCache));
    assert!(test1.no_store);
    assert!(test1.must_revalidate);
    assert_eq!(
        *test1,
        CacheControl {
            cachability: Some(Cachability::NoCache),
            max_age: None,
            s_max_age: None,
            max_stale: None,
            min_fresh: None,
            must_revalidate: true,
            proxy_revalidate: false,
            immutable: false,
            no_store: true,
            no_transform: false,
        }
    );
}

#[test]
fn test_from_header() {
    assert_eq!(CacheControl::from_header("Cache-Control: ").unwrap(), CacheControl::default());
    assert_eq!(
        CacheControl::from_header("Cache-Control: private").unwrap().cachability.unwrap(),
        Cachability::Private
    );
    assert_eq!(
        CacheControl::from_header("Cache-Control: max-age=60").unwrap().max_age.unwrap(),
        60
    );
    assert_eq!(CacheControl::from_header("foo"), None);
    assert_eq!(CacheControl::from_header("bar: max-age=60"), None);
}

#[test]
fn test_from_header_multi() {
    let test1 = &CacheControl::from_header("Cache-Control: public, max-age=600").unwrap();
    assert_eq!(test1.cachability, Some(Cachability::Public));
    assert_eq!(test1.max_age, Some(600));
    assert_eq!(
        *test1,
        CacheControl {
            cachability: Some(Cachability::Public),
            max_age: Some(600),
            s_max_age: None,
            max_stale: None,
            min_fresh: None,
            must_revalidate: false,
            proxy_revalidate: false,
            immutable: false,
            no_store: false,
            no_transform: false,
        }
    );
}
