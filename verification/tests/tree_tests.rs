use folder_size::aggregate::FolderSize;
use folder_size::cache::SizeCache;
use folder_size::snapshot::{FsEntry, FsSnapshot};
use folder_size::tree::TreeIndex;

fn key(s: &str) -> Vec<u8> {
    s.as_bytes().to_vec()
}

#[test]
fn tree_scan_mirrors_two_level_directory() {
    let fs = FsSnapshot {
        nodes: vec![
            FsEntry::Dir { path: key("/root"), children: vec![1, 2] },
            FsEntry::File { path: key("/root/a.txt"), size: 3 },
            FsEntry::Dir { path: key("/root/sub"), children: vec![3] },
            FsEntry::File { path: key("/root/sub/b.txt"), size: 5 },
        ],
    };
    let mut cache = SizeCache::new();
    let out = FolderSize::run_tree(&fs, 0, &mut cache, 400, vec![]);
    assert_eq!(out.size, 8);
    let tree = &out.tree;
    let root = tree.node_at(0);
    assert_eq!(root.path, key("/root"));
    assert_eq!(root.size, 8);
    assert!(root.parent.is_none());
    assert_eq!(root.children.len(), 2);

    let a = tree.node_at(root.children[0]);
    assert_eq!(a.path, key("/root/a.txt"));
    assert_eq!(a.size, 3);
    assert!(a.is_file);
    assert_eq!(a.parent, Some(0));
    assert!(a.children.is_empty());

    let sub_idx = root.children[1];
    let sub = tree.node_at(sub_idx);
    assert_eq!(sub.path, key("/root/sub"));
    assert_eq!(sub.size, 5);
    assert!(!sub.is_file);
    assert_eq!(sub.children.len(), 1);

    let b = tree.node_at(sub.children[0]);
    assert_eq!(b.path, key("/root/sub/b.txt"));
    assert_eq!(b.size, 5);
    assert!(b.is_file);
    assert_eq!(b.parent, Some(sub_idx));
}

#[test]
fn tree_scan_on_warm_cache_collapses_to_root() {
    let fs = FsSnapshot {
        nodes: vec![
            FsEntry::Dir { path: key("/d"), children: vec![1] },
            FsEntry::File { path: key("/d/f"), size: 9 },
        ],
    };
    let mut cache = SizeCache::new();
    let _ = FolderSize::run(&fs, 0, &mut cache, 400, vec![]);
    // the root is already memoized, so nothing is discovered anew
    let out = FolderSize::run_tree(&fs, 0, &mut cache, 400, vec![]);
    assert_eq!(out.size, 9);
    assert_eq!(out.tree.len(), 1);
    assert_eq!(out.reads, 0);
}

#[test]
fn cursor_protocol_descend_jump_ascend() {
    let mut tree = TreeIndex::new(key("/r"), 0, false);
    assert_eq!(tree.current_index(), 0);

    // create a child under the cursor: the cursor does not move
    let child = tree.descend_to_new_child(key("/r/x"), 7, true);
    assert_eq!(tree.current_index(), 0);
    assert_eq!(child, 1);

    // jump the cursor to the new child by its key
    assert!(tree.jump_to(&key("/r/x")));
    assert_eq!(tree.current_index(), 1);

    // overwrite its value with the final computed size
    tree.set_current_size(11);
    assert_eq!(tree.node_at(1).size, 11);

    // ascend back to the parent; at the root ascending is a no-op
    tree.ascend();
    assert_eq!(tree.current_index(), 0);
    tree.ascend();
    assert_eq!(tree.current_index(), 0);

    // jumping to an unregistered key reports not-found and stays put
    assert!(tree.jump_to(&key("/r/x")));
    assert!(!tree.jump_to(&key("/r/missing")));
    assert_eq!(tree.current_index(), 1);
    tree.reset_to_root();
    assert_eq!(tree.current_index(), 0);
}

#[test]
fn find_locates_registered_keys() {
    let mut tree = TreeIndex::new(key("/r"), 0, false);
    let a = tree.descend_to_new_child(key("/r/a"), 1, true);
    assert!(tree.jump_to(&key("/r/a")));
    let b = tree.descend_to_new_child(key("/r/a/b"), 2, true);
    assert_eq!(tree.find(&key("/r/a")), Some(a));
    assert_eq!(tree.find(&key("/r/a/b")), Some(b));
    assert_eq!(tree.find(&key("/r/zz")), None);
    assert_eq!(tree.len(), 3);
}
