use folder_size::aggregate::FolderSize;
use folder_size::cache::SizeCache;
use folder_size::snapshot::{FsEntry, FsSnapshot};

fn key(s: &str) -> Vec<u8> {
    s.as_bytes().to_vec()
}

/// `/root` holding `a.txt` (3 bytes) and `sub/b.txt` (5 bytes).
fn two_level() -> FsSnapshot {
    FsSnapshot {
        nodes: vec![
            FsEntry::Dir { path: key("/root"), children: vec![1, 2] },
            FsEntry::File { path: key("/root/a.txt"), size: 3 },
            FsEntry::Dir { path: key("/root/sub"), children: vec![3] },
            FsEntry::File { path: key("/root/sub/b.txt"), size: 5 },
        ],
    }
}

#[test]
fn scan_returns_exact_sum() {
    let fs = two_level();
    let mut cache = SizeCache::new();
    let out = FolderSize::run(&fs, 0, &mut cache, 400, vec![]);
    assert_eq!(out.size, 8);
    assert_eq!(out.folder.size, 8);
    assert_eq!(out.folder.root, key("/root"));
    // "/root"'s parent "/" was never scanned, so it resolves to empty
    assert_eq!(out.folder.parent, key(""));
    // children sorted by non-increasing size
    assert_eq!(
        out.folder.entries,
        vec![(5, key("/root/sub"), false), (3, key("/root/a.txt"), true)]
    );
}

#[test]
fn scan_of_single_file_root() {
    let fs = FsSnapshot {
        nodes: vec![FsEntry::File { path: key("/data.bin"), size: 42 }],
    };
    let mut cache = SizeCache::new();
    let out = FolderSize::run(&fs, 0, &mut cache, 400, vec![]);
    assert_eq!(out.size, 42);
    assert!(out.folder.entries.is_empty());
    // a file is memoized as soon as it is measured
    assert_eq!(cache.get(&key("/data.bin")), Some(42));
    // a rescan of a file root measures it again, matching the live check
    let again = FolderSize::run(&fs, 0, &mut cache, 400, vec![]);
    assert_eq!(again.size, 42);
    assert_eq!(again.reads, 1);
}

#[test]
fn scan_at_the_filesystem_root_has_no_parent() {
    let fs = FsSnapshot {
        nodes: vec![
            FsEntry::Dir { path: key("/"), children: vec![1] },
            FsEntry::File { path: key("/a"), size: 7 },
        ],
    };
    let mut cache = SizeCache::new();
    let out = FolderSize::run(&fs, 0, &mut cache, 400, vec![]);
    assert_eq!(out.size, 7);
    // "/" is its own prefix but not its own parent: the empty sentinel
    assert_eq!(out.folder.parent, key(""));
}

#[test]
fn scan_of_empty_dir() {
    let fs = FsSnapshot {
        nodes: vec![FsEntry::Dir { path: key("/empty"), children: vec![] }],
    };
    let mut cache = SizeCache::new();
    let out = FolderSize::run(&fs, 0, &mut cache, 400, vec![]);
    assert_eq!(out.size, 0);
    assert!(out.folder.entries.is_empty());
}

#[test]
fn scan_of_vanished_entry() {
    let fs = FsSnapshot {
        nodes: vec![FsEntry::Other { path: key("/gone") }],
    };
    let mut cache = SizeCache::new();
    let out = FolderSize::run(&fs, 0, &mut cache, 400, vec![]);
    assert_eq!(out.size, 0);
}

#[test]
fn second_scan_hits_cache_and_reads_nothing() {
    let fs = two_level();
    let mut cache = SizeCache::new();
    let first = FolderSize::run(&fs, 0, &mut cache, 400, vec![]);
    assert!(first.reads > 0);
    let second = FolderSize::run(&fs, 0, &mut cache, 400, vec![]);
    assert_eq!(first.size, second.size);
    // the root was memoized, so the rescan touches no filesystem node
    assert_eq!(second.reads, 0);
    assert!(second.events.is_empty());
}

#[test]
fn subdirectory_scan_served_from_cache() {
    let fs = two_level();
    let mut cache = SizeCache::new();
    let _ = FolderSize::run(&fs, 0, &mut cache, 400, vec![]);
    // drilling into a subdirectory of an already-scanned tree is instant
    let sub = FolderSize::run(&fs, 2, &mut cache, 400, vec![]);
    assert_eq!(sub.size, 5);
    assert_eq!(sub.reads, 0);
    // and its parent is a known path now
    assert_eq!(sub.folder.parent, key("/root"));
}

#[test]
fn unreadable_directory_counts_as_zero() {
    let fs = FsSnapshot {
        nodes: vec![
            FsEntry::Dir { path: key("/top"), children: vec![1, 2] },
            FsEntry::File { path: key("/top/ok.txt"), size: 4 },
            FsEntry::UnreadableDir { path: key("/top/locked") },
        ],
    };
    let mut cache = SizeCache::new();
    let out = FolderSize::run(&fs, 0, &mut cache, 400, vec![]);
    // the readable sibling alone, not a failure
    assert_eq!(out.size, 4);
    let locked = cache.get(&key("/top/locked"));
    assert_eq!(locked, Some(0));
}

#[test]
fn progress_events_monotone_and_bounded() {
    let mut nodes = vec![FsEntry::Dir {
        path: key("/bulk"),
        children: (1..=10).collect(),
    }];
    for i in 1..=10u64 {
        nodes.push(FsEntry::File {
            path: key(&format!("/bulk/f{}", i)),
            size: i,
        });
    }
    let fs = FsSnapshot { nodes };
    let mut cache = SizeCache::new();
    // one full interval elapses before every measurement
    let out = FolderSize::run(&fs, 0, &mut cache, 400, vec![400; 10]);
    assert_eq!(out.size, 55);
    assert_eq!(out.events.len(), 10);
    for w in out.events.windows(2) {
        assert!(w[0] <= w[1]);
    }
    for e in &out.events {
        assert!(*e <= out.size);
    }
    // a clock that never advances emits nothing
    let mut cache2 = SizeCache::new();
    let quiet = FolderSize::run(&fs, 0, &mut cache2, 400, vec![0; 10]);
    assert!(quiet.events.is_empty());
}

#[test]
fn cached_sizes_match_scan_totals() {
    let fs = two_level();
    let mut cache = SizeCache::new();
    let _ = FolderSize::run(&fs, 0, &mut cache, 400, vec![]);
    assert_eq!(cache.get(&key("/root")), Some(8));
    assert_eq!(cache.get(&key("/root/sub")), Some(5));
    assert_eq!(cache.get(&key("/root/a.txt")), Some(3));
    assert_eq!(cache.get(&key("/root/sub/b.txt")), Some(5));
    assert_eq!(cache.get(&key("/nowhere")), None);
}
