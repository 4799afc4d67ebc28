use folder_size::cache::SizeCache;
use folder_size::folder::Folder;
use folder_size::pathkey::{clone_key, contains_sub, file_name_key, keys_equal, parent_key};

fn key(s: &str) -> Vec<u8> {
    s.as_bytes().to_vec()
}

#[test]
fn substring_search_over_path_bytes() {
    assert!(contains_sub(&key("/a/b/report.txt"), &key("repo")));
    assert!(contains_sub(&key("/a/b/report.txt"), &key("/a/b")));
    assert!(contains_sub(&key("abc"), &key("")));
    assert!(contains_sub(&key(""), &key("")));
    assert!(!contains_sub(&key("abc"), &key("abcd")));
    assert!(!contains_sub(&key("/a/c/x"), &key("/a/b")));
    assert!(contains_sub(&key("aab"), &key("ab")));
}

#[test]
fn file_name_is_the_last_component() {
    assert_eq!(file_name_key(&key("/a/b/report.txt")), key("report.txt"));
    assert_eq!(file_name_key(&key("report.txt")), key("report.txt"));
    assert_eq!(file_name_key(&key("/a/b/")), key(""));
    assert_eq!(file_name_key(&key("")), key(""));
}

#[test]
fn parent_strips_the_last_component() {
    assert_eq!(parent_key(&key("/a/b/report.txt")), key("/a/b"));
    assert_eq!(parent_key(&key("/a")), key("/"));
    // the filesystem root has no parent
    assert_eq!(parent_key(&key("/")), key(""));
    assert_eq!(parent_key(&key("plain")), key(""));
    assert_eq!(parent_key(&key("")), key(""));
}

#[test]
fn key_helpers_copy_and_compare() {
    let a = key("/x/y");
    let b = clone_key(&a);
    assert!(keys_equal(&a, &b));
    assert!(!keys_equal(&a, &key("/x/z")));
    assert!(!keys_equal(&a, &key("/x/y/")));
}

#[test]
fn cache_is_write_once_per_key() {
    let mut cache = SizeCache::new();
    assert_eq!(cache.num_entries(), 0);
    assert!(!cache.contains(&key("/p")));
    cache.insert_new(key("/p"), 10, false);
    assert!(cache.contains(&key("/p")));
    assert_eq!(cache.get(&key("/p")), Some(10));
    // putting the same measurement again changes nothing
    cache.put(key("/p"), 10, false);
    assert_eq!(cache.num_entries(), 1);
    assert_eq!(cache.get(&key("/p")), Some(10));
    cache.put(key("/q"), 3, true);
    assert_eq!(cache.num_entries(), 2);
    assert_eq!(cache.get(&key("/q")), Some(3));
}

#[test]
fn folder_sort_orders_by_size_descending() {
    let mut f = Folder {
        size: 0,
        root: Vec::new(),
        parent: Vec::new(),
        entries: vec![
            (3, key("/c"), true),
            (100, key("/a"), false),
            (7, key("/b"), true),
            (0, key("/d"), true),
        ],
    };
    f.sort();
    assert_eq!(
        f.entries,
        vec![
            (100, key("/a"), false),
            (7, key("/b"), true),
            (3, key("/c"), true),
            (0, key("/d"), true),
        ]
    );
}

#[test]
fn folder_new_is_empty() {
    let f = Folder::new();
    assert_eq!(f.size, 0);
    assert!(f.root.is_empty());
    assert!(f.parent.is_empty());
    assert!(f.entries.is_empty());
}
