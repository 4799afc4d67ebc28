use folder_size::cache::SizeCache;
use folder_size::search::{search, search_all, CancelFlag};

fn key(s: &str) -> Vec<u8> {
    s.as_bytes().to_vec()
}

fn sample_cache() -> SizeCache {
    let mut cache = SizeCache::new();
    cache.insert_new(key("/a/b/report.txt"), 100, true);
    cache.insert_new(key("/a/c/report.txt"), 200, true);
    cache.insert_new(key("/a/b/notes.md"), 5, true);
    cache
}

#[test]
fn search_filters_by_name_and_path() {
    let cache = sample_cache();
    let f = search_all(&cache, &key("report"), &key("/a/b"));
    assert_eq!(f.entries, vec![(100, key("/a/b/report.txt"), true)]);
    assert_eq!(f.size, 0);
    assert!(f.root.is_empty());
}

#[test]
fn search_ranks_by_size_descending() {
    let cache = sample_cache();
    let f = search_all(&cache, &key("report"), &key("/a"));
    assert_eq!(
        f.entries,
        vec![(200, key("/a/c/report.txt"), true), (100, key("/a/b/report.txt"), true)]
    );
}

#[test]
fn search_with_empty_patterns_returns_everything() {
    let cache = sample_cache();
    let f = search_all(&cache, &key(""), &key(""));
    assert_eq!(f.entries.len(), 3);
    assert_eq!(f.entries[0].0, 200);
}

#[test]
fn search_pattern_matches_name_not_path() {
    let cache = sample_cache();
    // "b" occurs in the directory part of /a/b/... but in no file name
    let f = search_all(&cache, &key("b"), &key(""));
    assert!(f.entries.is_empty());
}

#[test]
fn uncancelled_search_equals_full_search() {
    let cache = sample_cache();
    let flag = CancelFlag::new();
    let f = search(&cache, &key("report"), &key("/a"), &flag);
    let g = search_all(&cache, &key("report"), &key("/a"));
    assert_eq!(f.entries, g.entries);
}

#[test]
fn cancelled_search_stops_before_a_full_pass() {
    let cache = sample_cache();
    let flag = CancelFlag::new();
    flag.cancel();
    let f = search(&cache, &key("report"), &key("/a"), &flag);
    // the full search finds two entries; the cancelled one surrendered
    assert!(f.entries.is_empty());
    assert_eq!(search_all(&cache, &key("report"), &key("/a")).entries.len(), 2);
}

#[test]
fn cancel_flag_is_sticky_until_dropped() {
    let flag = CancelFlag::new();
    assert!(!flag.is_set());
    flag.cancel();
    assert!(flag.is_set());
    assert!(flag.is_set());
}
