//! Cache loading, saving and the round trip of the persistent
//! format.

use listprojects::cache::Cache;
use listprojects::cache::CacheError;
use listprojects::codec::decode;
use listprojects::record::ProjectRecord;

fn rec(path: &str, short_name: &str, prefix: Option<&str>) -> ProjectRecord {
    ProjectRecord {
        path: path.to_string(),
        short_name: short_name.to_string(),
        prefix: prefix.map(|p| p.to_string()),
    }
}

#[test]
fn load_empty() {
    let contents = "[]".to_string();
    let cache = Cache::open(Some(&contents), false).unwrap();
    assert!(cache.is_empty());
}

#[test]
fn load_blank() {
    let contents = r#"[{"path": "", "short_name": ""}]"#.to_string();
    let cache = Cache::open(Some(&contents), false).unwrap();
    let items = cache.initial_items();
    assert_eq!(items, vec![rec("", "", None)]);
}

#[test]
fn load_with_values() {
    let contents = r#"[{"path": "/a/b/c", "short_name": "something", "prefix": "a/"}]"#.to_string();
    let cache = Cache::open(Some(&contents), false).unwrap();
    let items = cache.initial_items();
    assert_eq!(items, vec![rec("/a/b/c", "something", Some("a/"))]);
}

#[test]
fn load_with_no_cache_present() {
    let cache = Cache::open(None, false).unwrap();
    assert!(cache.is_empty());
}

#[test]
fn saving() {
    let mut cache = Cache::new();
    cache.add_to_cache(rec("/a/b/c", "short-name", None));
    let saved = cache.save();
    let read_cache = Cache::open(Some(&saved), false).unwrap();
    assert_eq!(read_cache.initial_items(), cache.initial_items());
}

#[test]
fn saving_multiple_round_trips() {
    let mut cache = Cache::new();
    cache.add_to_cache(rec("/a/b/c", "b/c", None));
    cache.add_to_cache(rec("/x/y", "x/y", Some("work/")));
    cache.add_to_cache(rec("/q", "q", None));
    let saved = cache.save();
    let read_cache = Cache::open(Some(&saved), false).unwrap();
    assert_eq!(read_cache.initial_items(), cache.initial_items());
}

#[test]
fn round_trip_escapes_quotes_and_backslashes() {
    let mut cache = Cache::new();
    cache.add_to_cache(rec("/odd/\"name\"/back\\slash", "strange", Some("a\\b\"c")));
    let saved = cache.save();
    let read_cache = Cache::open(Some(&saved), false).unwrap();
    assert_eq!(read_cache.initial_items(), cache.initial_items());
}

#[test]
fn corrupt_cache_is_rejected() {
    let contents = "not a cache".to_string();
    assert!(matches!(Cache::open(Some(&contents), false), Err(CacheError::Corrupt)));
}

#[test]
fn truncated_cache_is_rejected() {
    let contents = r#"[{"path": "/a""#.to_string();
    assert!(matches!(Cache::open(Some(&contents), false), Err(CacheError::Corrupt)));
}

#[test]
fn trailing_text_is_rejected() {
    let contents = "[]x".to_string();
    assert!(matches!(Cache::open(Some(&contents), false), Err(CacheError::Corrupt)));
}

#[test]
fn non_canonical_spacing_is_rejected() {
    let contents = r#"[{"path":"/a/b","short_name":"b"}]"#.to_string();
    assert!(matches!(Cache::open(Some(&contents), false), Err(CacheError::Corrupt)));
}

#[test]
fn clear_discards_in_memory_records() {
    let mut cache = Cache::new();
    cache.add_to_cache(rec("/a/b", "a/b", None));
    cache.clear();
    assert!(cache.is_empty());
    assert_eq!(cache.save(), "[]");
}

#[test]
fn clear_empties_a_loaded_cache() {
    let contents = r#"[{"path": "/a/b/c", "short_name": "something", "prefix": "a/"}]"#.to_string();
    let cache = Cache::open(Some(&contents), true).unwrap();
    assert!(cache.is_empty());
}

#[test]
fn decode_returns_records_in_order() {
    let contents = r#"[{"path": "/a/b", "short_name": "a/b"}, {"path": "/c/d", "short_name": "c/d"}]"#;
    let recs = decode(contents).unwrap();
    assert_eq!(recs, vec![rec("/a/b", "a/b", None), rec("/c/d", "c/d", None)]);
}

#[test]
fn duplicate_paths_are_deduplicated_on_open() {
    let contents = r#"[{"path": "/a/b", "short_name": "a/b"}, {"path": "/a/b", "short_name": "other"}]"#
        .to_string();
    let cache = Cache::open(Some(&contents), false).unwrap();
    assert_eq!(cache.initial_items(), vec![rec("/a/b", "a/b", None)]);
}

#[test]
fn save_emits_canonical_text() {
    let mut cache = Cache::new();
    cache.add_to_cache(rec("/a/b/c", "something", Some("a/")));
    assert_eq!(
        cache.save(),
        r#"[{"path": "/a/b/c", "short_name": "something", "prefix": "a/"}]"#
    );
}

#[test]
fn save_of_empty_cache_is_empty_list() {
    let cache = Cache::new();
    assert_eq!(cache.save(), "[]");
}
