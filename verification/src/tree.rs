use crate::aggregate::{closed, consistent, events_ok, lemma_prefix_trans, par_sum, FolderSize};
use crate::cache::SizeCache;
use crate::pathkey::{clone_key, keys_equal};
use crate::snapshot::{
    children_count, children_size, lemma_children_count_end, lemma_children_count_nonneg,
    lemma_children_count_step, lemma_children_size_end, lemma_children_size_nonneg,
    lemma_children_size_step, lemma_subtree_count_pos, lemma_subtree_size_nonneg,
    lemma_sum_u64_push, lemma_sum_u64_take_bound, subtree_count, subtree_size, sum_u64, FsEntry,
    FsSnapshot,
};
use crate::timer::Timer;
use vstd::prelude::*;

verus! {

/// One node of the visited-subtree index: its value triple, a back-reference
/// to its parent, and its children in discovery order. Parent and children
/// are arena indices, never owning references.
pub struct TreeNode {
    pub path: Vec<u8>,
    pub size: u64,
    pub is_file: bool,
    pub parent: Option<usize>,
    pub children: Vec<usize>,
}

/// A rooted tree of visited paths held in a growing arena, with a cursor
/// ("current") used by the discovery protocol. The root lives at index 0;
/// indices never dangle because the arena only grows.
pub struct TreeIndex {
    pub nodes: Vec<TreeNode>,
    pub current: usize,
}

impl TreeIndex {
    pub open spec fn spec_len(self) -> int {
        self.nodes@.len() as int
    }

    pub open spec fn path_at(self, i: int) -> Seq<u8> {
        self.nodes@[i].path@
    }

    pub open spec fn children_of(self, i: int) -> Seq<usize> {
        self.nodes@[i].children@
    }

    pub open spec fn child_at(self, i: int, k: int) -> int {
        self.children_of(i)[k] as int
    }

    pub open spec fn has_path(self, p: Seq<u8>) -> bool {
        exists|i: int| 0 <= i < self.spec_len() && self.path_at(i) == p
    }

    /// The root has no parent; every other node's parent is an earlier node
    /// whose child list records it; children point forward, in creation
    /// order.
    pub open spec fn wf(self) -> bool {
        &&& 1 <= self.spec_len()
        &&& self.current < self.spec_len()
        &&& self.nodes@[0].parent is None
        &&& forall|j: int|
            1 <= j < self.spec_len() ==> (#[trigger] self.nodes@[j].parent) is Some
                && self.nodes@[j].parent.unwrap() < j
        &&& forall|i: int, k: int|
            0 <= i < self.spec_len() && 0 <= k < self.children_of(i).len() ==> i
                < #[trigger] self.child_at(i, k) < self.spec_len() && self.nodes@[self.child_at(
                i,
                k,
            )].parent == Some(i as usize)
        &&& forall|i: int, k: int|
            0 <= i < self.spec_len() && 0 < k < self.children_of(i).len() ==> #[trigger] self.child_at(
                i,
                k,
            ) > self.child_at(i, k - 1)
        &&& forall|j: int|
            1 <= j < self.spec_len() ==> exists|k: int|
                0 <= k < self.children_of(#[trigger] self.nodes@[j].parent.unwrap() as int).len()
                    && self.child_at(self.nodes@[j].parent.unwrap() as int, k) == j
    }

    /// Well-formedness depends on the nodes and a cursor bound alone, so it
    /// survives any cursor move.
    proof fn lemma_wf_cursor_move(a: TreeIndex, b: TreeIndex)
        requires
            a.wf(),
            b.nodes == a.nodes,
            b.current < b.spec_len(),
        ensures
            b.wf(),
    {
        assert forall|j: int| 1 <= j < b.spec_len() implies (#[trigger] b.nodes@[j].parent)
            is Some && b.nodes@[j].parent.unwrap() < j by {
            assert(a.nodes@[j].parent is Some && a.nodes@[j].parent.unwrap() < j);
        }
        assert forall|i: int, k: int|
            0 <= i < b.spec_len() && 0 <= k < b.children_of(i).len() implies i
            < #[trigger] b.child_at(i, k) < b.spec_len() && b.nodes@[b.child_at(i, k)].parent
            == Some(i as usize) by {
            assert(a.child_at(i, k) == b.child_at(i, k));
            assert(i < a.child_at(i, k) < a.spec_len());
        }
        assert forall|i: int, k: int|
            0 <= i < b.spec_len() && 0 < k < b.children_of(i).len() implies #[trigger] b.child_at(
            i,
            k,
        ) > b.child_at(i, k - 1) by {
            assert(a.child_at(i, k) > a.child_at(i, k - 1));
        }
        assert forall|j: int| 1 <= j < b.spec_len() implies exists|k: int|
            0 <= k < b.children_of(#[trigger] b.nodes@[j].parent.unwrap() as int).len()
                && b.child_at(b.nodes@[j].parent.unwrap() as int, k) == j by {
            let p = a.nodes@[j].parent.unwrap() as int;
            let kw = choose|k: int|
                0 <= k < a.children_of(p).len() && a.child_at(p, k) == j;
            assert(b.child_at(p, kw) == j);
        }
    }

    /// A fresh index holding only the scanned root.
    pub fn new(path: Vec<u8>, size: u64, is_file: bool) -> (t: TreeIndex)
        ensures
            t.wf(),
            t.spec_len() == 1,
            t.current == 0,
            t.nodes@[0].path == path,
            t.nodes@[0].size == size,
            t.nodes@[0].is_file == is_file,
            t.children_of(0).len() == 0,
    {
        let mut nodes: Vec<TreeNode> = Vec::new();
        nodes.push(TreeNode { path, size, is_file, parent: None, children: Vec::new() });
        TreeIndex { nodes, current: 0 }
    }

    pub fn len(&self) -> (n: usize)
        ensures
            n == self.spec_len(),
    {
        self.nodes.len()
    }

    pub fn current_index(&self) -> (i: usize)
        ensures
            i == self.current,
    {
        self.current
    }

    pub fn node_at(&self, i: usize) -> (n: &TreeNode)
        requires
            i < self.spec_len(),
        ensures
            n == self.nodes@[i as int],
    {
        &self.nodes[i]
    }

    /// Arena index of the node registered for a path, if any.
    pub fn find(&self, path: &Vec<u8>) -> (r: Option<usize>)
        ensures
            match r {
                Some(i) => 0 <= i < self.spec_len() && self.path_at(i as int) == path@,
                None => !self.has_path(path@),
            },
    {
        let mut i: usize = 0;
        while i < self.nodes.len()
            invariant
                i <= self.spec_len(),
                forall|j: int| 0 <= j < i ==> #[trigger] self.path_at(j) != path@,
            decreases self.spec_len() - i,
        {
            if keys_equal(&self.nodes[i].path, path) {
                return Some(i);
            }
            i = i + 1;
        }
        None
    }

    /// Append a node under the given parent and return its index. The cursor
    /// does not move.
    pub fn add_child(&mut self, parent: usize, path: Vec<u8>, size: u64, is_file: bool) -> (idx:
        usize)
        requires
            old(self).wf(),
            parent < old(self).spec_len(),
            old(self).spec_len() < usize::MAX,
        ensures
            final(self).wf(),
            idx == old(self).spec_len(),
            final(self).spec_len() == old(self).spec_len() + 1,
            final(self).current == old(self).current,
            final(self).nodes@[idx as int].path == path,
            final(self).nodes@[idx as int].size == size,
            final(self).nodes@[idx as int].is_file == is_file,
            final(self).nodes@[idx as int].parent == Some(parent),
            final(self).children_of(idx as int).len() == 0,
            forall|j: int|
                0 <= j < old(self).spec_len() && j != parent ==> final(self).nodes@[j] == old(self).nodes@[j],
            final(self).nodes@[parent as int].path == old(self).nodes@[parent as int].path,
            final(self).nodes@[parent as int].size == old(self).nodes@[parent as int].size,
            final(self).nodes@[parent as int].is_file == old(self).nodes@[parent as int].is_file,
            final(self).nodes@[parent as int].parent == old(self).nodes@[parent as int].parent,
            final(self).children_of(parent as int) == old(self).children_of(parent as int).push(
                idx,
            ),
    {
        let idx = self.nodes.len();
        self.nodes.push(
            TreeNode { path, size, is_file, parent: Some(parent), children: Vec::new() },
        );
        let ghost mid = *self;
        self.nodes[parent].children.push(idx);
        proof {
            let new = *self;
            let n = old(self).spec_len();
            assert(new.spec_len() == n + 1);
            assert(forall|j: int|
                0 <= j < n && j != parent ==> new.nodes@[j] == old(self).nodes@[j]);
            assert(new.children_of(parent as int) =~= old(self).children_of(parent as int).push(
                idx,
            ));
            assert forall|j: int|
                1 <= j < new.spec_len() implies (#[trigger] new.nodes@[j].parent) is Some
                && new.nodes@[j].parent.unwrap() < j by {
                if j < n {
                    assert(new.nodes@[j].parent == old(self).nodes@[j].parent);
                }
            }
            assert forall|i: int, k: int|
                0 <= i < new.spec_len() && 0 <= k < new.children_of(i).len() implies i
                < #[trigger] new.child_at(i, k) < new.spec_len() && new.nodes@[new.child_at(
                i,
                k,
            )].parent == Some(i as usize) by {
                if i == parent && k == new.children_of(i).len() - 1 {
                    assert(new.child_at(i, k) == idx);
                } else {
                    assert(new.child_at(i, k) == old(self).child_at(i, k));
                    assert(old(self).child_at(i, k) < n);
                    assert(new.nodes@[old(self).child_at(i, k)].parent == old(self).nodes@[old(self).child_at(i, k)].parent);
                }
            }
            assert forall|i: int, k: int|
                0 <= i < new.spec_len() && 0 < k < new.children_of(i).len() implies
            #[trigger] new.child_at(i, k) > new.child_at(i, k - 1) by {
                if i == parent && k == new.children_of(i).len() - 1 {
                    assert(new.child_at(i, k) == idx);
                    assert(new.child_at(i, k - 1) == old(self).child_at(i, k - 1));
                    assert(old(self).child_at(i, k - 1) < n);
                } else {
                    assert(new.child_at(i, k) == old(self).child_at(i, k));
                    assert(new.child_at(i, k - 1) == old(self).child_at(i, k - 1));
                }
            }
            assert forall|j: int| 1 <= j < new.spec_len() implies exists|k: int|
                0 <= k < new.children_of(#[trigger] new.nodes@[j].parent.unwrap() as int).len()
                    && new.child_at(new.nodes@[j].parent.unwrap() as int, k) == j by {
                if j == idx {
                    let p = parent as int;
                    let kw = new.children_of(p).len() - 1;
                    assert(new.child_at(p, kw) == j);
                } else {
                    let p = old(self).nodes@[j].parent.unwrap() as int;
                    let kw = choose|k: int|
                        0 <= k < old(self).children_of(p).len() && old(self).child_at(p, k) == j;
                    assert(new.child_at(p, kw) == j);
                }
            }
        }
        idx
    }

    /// Append a new child of the cursor node and register it; the cursor
    /// stays where it is.
    pub fn descend_to_new_child(&mut self, path: Vec<u8>, size: u64, is_file: bool) -> (idx: usize)
        requires
            old(self).wf(),
            old(self).spec_len() < usize::MAX,
        ensures
            final(self).wf(),
            idx == old(self).spec_len(),
            final(self).spec_len() == old(self).spec_len() + 1,
            final(self).current == old(self).current,
            final(self).nodes@[idx as int].path == path,
            final(self).nodes@[idx as int].size == size,
            final(self).nodes@[idx as int].is_file == is_file,
            final(self).nodes@[idx as int].parent == Some(old(self).current),
            final(self).children_of(idx as int).len() == 0,
            forall|j: int|
                0 <= j < old(self).spec_len() && j != old(self).current ==> final(self).nodes@[j]
                    == old(self).nodes@[j],
            final(self).children_of(old(self).current as int) == old(self).children_of(
                old(self).current as int,
            ).push(idx),
    {
        let cur = self.current;
        self.add_child(cur, path, size, is_file)
    }

    /// Move the cursor to the node registered for a path; report whether one
    /// exists (the cursor stays put when it does not).
    pub fn jump_to(&mut self, path: &Vec<u8>) -> (found: bool)
        requires
            old(self).wf(),
        ensures
            final(self).nodes == old(self).nodes,
            final(self).wf(),
            found == old(self).has_path(path@),
            found ==> final(self).path_at(final(self).current as int) == path@,
            !found ==> final(self).current == old(self).current,
    {
        let r = self.find(path);
        match r {
            Some(i) => {
                self.current = i;
                proof {
                    Self::lemma_wf_cursor_move(*old(self), *self);
                }
                true
            },
            None => false,
        }
    }

    /// Move the cursor to the parent of the current node; at the root this
    /// does nothing.
    pub fn ascend(&mut self)
        requires
            old(self).wf(),
        ensures
            final(self).nodes == old(self).nodes,
            final(self).wf(),
            final(self).current == (match old(self).nodes@[old(self).current as int].parent {
                Some(p) => p,
                None => old(self).current,
            }),
    {
        let p = self.nodes[self.current].parent;
        match p {
            Some(p) => {
                proof {
                    assert(old(self).nodes@[old(self).current as int].parent.unwrap() == p);
                    if old(self).current >= 1 {
                        assert(p < old(self).current);
                    }
                }
                self.current = p;
                proof {
                    Self::lemma_wf_cursor_move(*old(self), *self);
                }
            },
            None => {},
        }
    }

    /// Move the cursor back to the root.
    pub fn reset_to_root(&mut self)
        requires
            old(self).wf(),
        ensures
            final(self).nodes == old(self).nodes,
            final(self).wf(),
            final(self).current == 0,
    {
        self.current = 0;
        proof {
            Self::lemma_wf_cursor_move(*old(self), *self);
        }
    }

    /// Overwrite the recorded size of node `i`, once its recursion is done.
    pub fn set_size(&mut self, i: usize, size: u64)
        requires
            old(self).wf(),
            i < old(self).spec_len(),
        ensures
            final(self).wf(),
            final(self).spec_len() == old(self).spec_len(),
            final(self).current == old(self).current,
            forall|j: int|
                0 <= j < old(self).spec_len() && j != i ==> final(self).nodes@[j] == old(self).nodes@[j],
            final(self).nodes@[i as int].path == old(self).nodes@[i as int].path,
            final(self).nodes@[i as int].size == size,
            final(self).nodes@[i as int].is_file == old(self).nodes@[i as int].is_file,
            final(self).nodes@[i as int].parent == old(self).nodes@[i as int].parent,
            final(self).nodes@[i as int].children == old(self).nodes@[i as int].children,
    {
        self.nodes[i].size = size;
        proof {
            let new = *self;
            assert(new.nodes@[i as int].parent == old(self).nodes@[i as int].parent);
            assert forall|j: int| 1 <= j < new.spec_len() implies (#[trigger] new.nodes@[j].parent)
                is Some && new.nodes@[j].parent.unwrap() < j by {
                assert(new.nodes@[j].parent == old(self).nodes@[j].parent);
            }
            assert forall|i2: int, k: int|
                0 <= i2 < new.spec_len() && 0 < k < new.children_of(i2).len() implies
            #[trigger] new.child_at(i2, k) > new.child_at(i2, k - 1) by {
                assert(new.children_of(i2) == old(self).children_of(i2));
                assert(old(self).child_at(i2, k) > old(self).child_at(i2, k - 1));
            }
            assert forall|i2: int, k: int|
                0 <= i2 < new.spec_len() && 0 <= k < new.children_of(i2).len() implies i2
                < #[trigger] new.child_at(i2, k) < new.spec_len() && new.nodes@[new.child_at(
                i2,
                k,
            )].parent == Some(i2 as usize) by {
                assert(new.children_of(i2) == old(self).children_of(i2));
                assert(old(self).child_at(i2, k) < old(self).spec_len());
                assert(new.nodes@[old(self).child_at(i2, k)].parent == old(self).nodes@[old(self).child_at(i2, k)].parent);
            }
            assert forall|j: int| 1 <= j < new.spec_len() implies exists|k: int|
                0 <= k < new.children_of(#[trigger] new.nodes@[j].parent.unwrap() as int).len()
                    && new.child_at(new.nodes@[j].parent.unwrap() as int, k) == j by {
                let p = old(self).nodes@[j].parent.unwrap() as int;
                let kw = choose|k: int|
                    0 <= k < old(self).children_of(p).len() && old(self).child_at(p, k) == j;
                assert(new.children_of(p) == old(self).children_of(p));
                assert(new.child_at(p, kw) == j);
            }
        }
    }

    /// Overwrite the size of the cursor node.
    pub fn set_current_size(&mut self, size: u64)
        requires
            old(self).wf(),
        ensures
            final(self).wf(),
            final(self).spec_len() == old(self).spec_len(),
            final(self).current == old(self).current,
            forall|j: int|
                0 <= j < old(self).spec_len() && j != old(self).current ==> final(self).nodes@[j]
                    == old(self).nodes@[j],
            final(self).nodes@[old(self).current as int].size == size,
            final(self).nodes@[old(self).current as int].path == old(self).nodes@[old(self).current as int].path,
    {
        let cur = self.current;
        self.set_size(cur, size);
    }
}

/// Tree node `t` reports some snapshot node faithfully: same path, that
/// node's full subtree size, its file flag, and — when the tree node was
/// expanded — exactly its children, in discovery order.
pub open spec fn node_reports(tree: TreeIndex, t: int, fs: FsSnapshot) -> bool {
    exists|j: int|
        #![trigger fs.path_at(j)]
        0 <= j < fs.spec_len() && tree.path_at(t) == fs.path_at(j) && tree.nodes@[t].size
            == subtree_size(fs.nodes@, j) && tree.nodes@[t].is_file == (fs.nodes@[j] is File)
            && children_report(tree, t, fs, j)
}

/// When tree node `t` (standing for snapshot node `j`) has children at all,
/// they are exactly the snapshot children of `j`, by path and in order.
pub open spec fn children_report(tree: TreeIndex, t: int, fs: FsSnapshot, j: int) -> bool {
    tree.children_of(t).len() > 0 ==> {
        &&& tree.children_of(t).len() == fs.children_of(j).len()
        &&& forall|k: int|
            0 <= k < fs.children_of(j).len() ==> tree.path_at(#[trigger] tree.child_at(t, k))
                == fs.path_at(fs.child_at(j, k))
    }
}

/// What one tree-variant scan returns: the total, the visited tree, the
/// throttled running-total events, and how many filesystem reads it took.
pub struct TreeScanOutcome {
    pub size: u64,
    pub tree: TreeIndex,
    pub events: Vec<u64>,
    pub reads: u64,
}

impl FolderSize {
    /// The tree-variant scan: like `run`, but the final snapshot is the full
    /// visited tree rather than a flat listing of the root's children.
    pub fn run_tree(
        fs: &FsSnapshot,
        root: usize,
        cache: &mut SizeCache,
        interval_ms: u64,
        clock: Vec<u64>,
    ) -> (out: TreeScanOutcome)
        requires
            fs.wf(),
            root < fs.spec_len(),
            old(cache).wf(),
            consistent(*old(cache), *fs),
            closed(*old(cache), *fs),
            interval_ms > 0,
            subtree_size(fs.nodes@, root as int) <= u64::MAX,
            subtree_count(fs.nodes@, root as int) < usize::MAX,
        ensures
            out.size == subtree_size(fs.nodes@, root as int),
            final(cache).wf(),
            consistent(*final(cache), *fs),
            closed(*final(cache), *fs),
            forall|q: Seq<u8>|
                #[trigger] old(cache).has_key(q) ==> final(cache).has_key(q)
                    && final(cache).spec_size(q) == old(cache).spec_size(q)
                    && final(cache).spec_is_file(q) == old(cache).spec_is_file(q),
            forall|q: Seq<u8>|
                #[trigger] final(cache).has_key(q) ==> old(cache).has_key(q) || exists|j: int|
                    root <= j < fs.spec_len() && q == fs.path_at(j),
            !(fs.nodes@[root as int] is Other) ==> final(cache).has_key(fs.path_at(root as int)),
            events_ok(out.events@, out.size),
            out.events@.len() * interval_ms <= 2 * sum_u64(clock@),
            (fs.nodes@[root as int] is Dir || fs.nodes@[root as int] is UnreadableDir) && old(cache).has_key(fs.path_at(root as int)) ==> out.reads == 0 && out.events@.len() == 0
                && *final(cache) == *old(cache) && out.tree.spec_len() == 1,
            out.tree.wf(),
            out.tree.path_at(0) == fs.path_at(root as int),
            out.tree.nodes@[0].size == out.size,
            out.tree.nodes@[0].is_file == (fs.nodes@[root as int] is File),
            children_report(out.tree, 0, *fs, root as int),
            forall|u: int| 1 <= u < out.tree.spec_len() ==> node_reports(out.tree, u, *fs),
    {
        let ghost clock_view = clock@;
        let mut state = FolderSize {
            timer: Timer::new(interval_ms),
            size: 0,
            events: Vec::new(),
            reads: 0,
            clock,
            clock_pos: 0,
        };
        proof {
            assert(state.clock@.take(0) =~= Seq::empty());
        }
        let root_path = clone_key(fs.path_ref(root));
        let isf = fs.is_file(root);
        let mut tree = TreeIndex::new(root_path, 0, isf);
        let total = state.recurse_tree(fs, root, cache, &mut tree, 0);
        proof {
            assert(state.timer.interval_ms == interval_ms);
            assert(state.events@.len() * interval_ms + (interval_ms - state.timer.left_ms) <= 2
                * sum_u64(state.clock@.take(state.clock_pos as int)));
            lemma_sum_u64_take_bound(clock_view, state.clock_pos as int);
            assert(state.events@.len() * interval_ms <= 2 * sum_u64(clock_view));
        }
        let ghost mid = tree;
        tree.set_size(0, total);
        proof {
            assert forall|u: int| 1 <= u < tree.spec_len() implies node_reports(
                tree,
                u,
                *fs,
            ) by {
                assert(node_reports(mid, u, *fs));
                let j = choose|j: int|
                    #![trigger fs.path_at(j)]
                    0 <= j < fs.spec_len() && mid.path_at(u) == fs.path_at(j) && mid.nodes@[u].size
                        == subtree_size(fs.nodes@, j) && mid.nodes@[u].is_file == (fs.nodes@[j]
                        is File) && children_report(mid, u, *fs, j);
                assert(children_report(mid, u, *fs, j));
                assert(tree.nodes@[u] == mid.nodes@[u]);
                assert(children_report(tree, u, *fs, j)) by {
                    if tree.children_of(u).len() > 0 {
                        assert(tree.children_of(u) == mid.children_of(u));
                        assert(mid.children_of(u).len() == fs.children_of(j).len());
                        assert forall|k: int|
                            0 <= k < fs.children_of(j).len() implies tree.path_at(
                            #[trigger] tree.child_at(u, k),
                        ) == fs.path_at(fs.child_at(j, k)) by {
                            assert(u < mid.child_at(u, k) < mid.spec_len());
                            assert(mid.child_at(u, k) > u >= 1);
                            assert(tree.nodes@[mid.child_at(u, k)] == mid.nodes@[mid.child_at(
                                u,
                                k,
                            )]);
                        }
                    }
                }
            }
            assert(children_report(tree, 0, *fs, root as int)) by {
                if tree.children_of(0).len() > 0 {
                    assert(tree.children_of(0) == mid.children_of(0));
                    assert(mid.children_of(0).len() == fs.children_of(root as int).len());
                    assert forall|k: int|
                        0 <= k < fs.children_of(root as int).len() implies tree.path_at(
                        #[trigger] tree.child_at(0, k),
                    ) == fs.path_at(fs.child_at(root as int, k)) by {
                        assert(0 < mid.child_at(0, k) < mid.spec_len());
                        assert(tree.nodes@[mid.child_at(0, k)] == mid.nodes@[mid.child_at(0, k)]);
                    }
                }
            }
        }
        TreeScanOutcome { size: total, tree, events: state.events, reads: state.reads }
    }

    /// Recursive size of node `i` in the tree variant: like `recurse`, and in
    /// addition every entry discovered under an expanded directory is
    /// appended to the visited tree under the node that stands for the
    /// directory, then overwritten with its final size once known.
    #[verifier::rlimit(100)]
    #[verifier::spinoff_prover]
    pub fn recurse_tree(
        &mut self,
        fs: &FsSnapshot,
        i: usize,
        cache: &mut SizeCache,
        tree: &mut TreeIndex,
        t: usize,
    ) -> (size: u64)
        requires
            fs.wf(),
            i < fs.spec_len(),
            old(cache).wf(),
            consistent(*old(cache), *fs),
            closed(*old(cache), *fs),
            old(self).wf(),
            old(self).size + subtree_size(fs.nodes@, i as int) <= u64::MAX,
            old(tree).wf(),
            t < old(tree).spec_len(),
            old(tree).path_at(t as int) == fs.path_at(i as int),
            old(tree).children_of(t as int).len() == 0,
            old(tree).spec_len() + subtree_count(fs.nodes@, i as int) <= usize::MAX,
        ensures
            size == subtree_size(fs.nodes@, i as int),
            final(cache).wf(),
            consistent(*final(cache), *fs),
            closed(*final(cache), *fs),
            forall|q: Seq<u8>|
                #[trigger] old(cache).has_key(q) ==> final(cache).has_key(q)
                    && final(cache).spec_size(q) == old(cache).spec_size(q)
                    && final(cache).spec_is_file(q) == old(cache).spec_is_file(q),
            forall|q: Seq<u8>|
                #[trigger] final(cache).has_key(q) ==> old(cache).has_key(q) || exists|j: int|
                    i <= j < fs.spec_len() && q == fs.path_at(j),
            !(fs.nodes@[i as int] is Other) ==> final(cache).has_key(fs.path_at(i as int)),
            final(self).wf(),
            final(self).timer.interval_ms == old(self).timer.interval_ms,
            old(self).size <= final(self).size,
            final(self).size <= old(self).size + subtree_size(fs.nodes@, i as int),
            old(self).events@.is_prefix_of(final(self).events@),
            final(self).reads >= old(self).reads,
            final(self).clock == old(self).clock,
            final(tree).wf(),
            final(tree).current == old(tree).current,
            old(tree).spec_len() <= final(tree).spec_len(),
            final(tree).spec_len() <= old(tree).spec_len() + subtree_count(fs.nodes@, i as int)
                - 1,
            forall|j: int|
                0 <= j < old(tree).spec_len() && j != t ==> final(tree).nodes@[j] == old(tree).nodes@[j],
            final(tree).nodes@[t as int].path == old(tree).nodes@[t as int].path,
            final(tree).nodes@[t as int].size == old(tree).nodes@[t as int].size,
            final(tree).nodes@[t as int].is_file == old(tree).nodes@[t as int].is_file,
            final(tree).nodes@[t as int].parent == old(tree).nodes@[t as int].parent,
            children_report(*final(tree), t as int, *fs, i as int),
            forall|u: int|
                old(tree).spec_len() <= u < final(tree).spec_len() ==> node_reports(
                    *final(tree),
                    u,
                    *fs,
                ),
            (fs.nodes@[i as int] is Dir || fs.nodes@[i as int] is UnreadableDir) && old(cache).has_key(fs.path_at(i as int)) ==> *final(self) == *old(self) && *final(cache)
                == *old(cache) && *final(tree) == *old(tree),
            fs.nodes@[i as int] is File ==> final(self).size == old(self).size + subtree_size(
                fs.nodes@,
                i as int,
            ) && *final(tree) == *old(tree) && forall|q: Seq<u8>|
                #[trigger] final(cache).has_key(q) == (old(cache).has_key(q) || q == fs.path_at(
                    i as int,
                )),
            fs.nodes@[i as int] is Other ==> final(self).events == old(self).events && final(self).size == old(self).size && *final(cache) == *old(cache) && *final(tree) == *old(tree),
        decreases fs.spec_len() - i, 1int,
    {
        proof {
            lemma_subtree_size_nonneg(fs.nodes@, i as int);
            lemma_subtree_count_pos(fs.nodes@, i as int);
            assert(self.events@.is_prefix_of(self.events@)) by {
                assert(self.events@ =~= self.events@.subrange(0, self.events@.len() as int));
            }
        }
        match &fs.nodes[i] {
            FsEntry::File { size, .. } => {
                self.bump_reads();
                self.measure_file(*size);
                // a file is memoized as soon as it is measured
                let own_path = clone_key(fs.path_ref(i));
                proof {
                    if cache.has_key(fs.path_at(i as int)) {
                        assert(cache.spec_size(fs.path_at(i as int)) == subtree_size(
                            fs.nodes@,
                            i as int,
                        ));
                        assert(cache.spec_is_file(fs.path_at(i as int)) == (fs.nodes@[i as int]
                            is File));
                    }
                }
                cache.put(own_path, *size, true);
                proof {
                    assert forall|q: Seq<u8>| old(cache).has_key(q) implies cache.has_key(q)
                        && cache.spec_size(q) == old(cache).spec_size(q) && cache.spec_is_file(q)
                        == old(cache).spec_is_file(q) by {
                        assert(cache.has_key(q));
                        assert(cache.spec_size(q) == old(cache).spec_size(q));
                        assert(cache.spec_is_file(q) == old(cache).spec_is_file(q));
                    }
                    assert forall|j: int|
                        0 <= j < fs.spec_len() && cache.has_key(#[trigger] fs.path_at(j)) implies
                    cache.spec_size(fs.path_at(j)) == subtree_size(fs.nodes@, j)
                        && cache.spec_is_file(fs.path_at(j)) == (fs.nodes@[j] is File) by {
                        if old(cache).has_key(fs.path_at(j)) {
                            assert(old(cache).spec_size(fs.path_at(j)) == subtree_size(
                                fs.nodes@,
                                j,
                            ));
                            assert(cache.spec_size(fs.path_at(j)) == old(cache).spec_size(
                                fs.path_at(j),
                            ));
                            assert(cache.spec_is_file(fs.path_at(j)) == old(cache).spec_is_file(
                                fs.path_at(j),
                            ));
                        } else {
                            assert(fs.path_at(j) == fs.path_at(i as int));
                            assert(j == i);
                            assert(cache.spec_size(fs.path_at(j)) == *size);
                            assert(cache.spec_is_file(fs.path_at(j)));
                        }
                    }
                    assert forall|j: int, k2: int|
                        0 <= j < fs.spec_len() && cache.has_key(#[trigger] fs.path_at(j)) && 0
                            <= k2 < fs.children_of(j).len() implies cache.has_key(
                        fs.path_at(#[trigger] fs.child_at(j, k2)),
                    ) by {
                        if old(cache).has_key(fs.path_at(j)) {
                            assert(old(cache).has_key(fs.path_at(fs.child_at(j, k2))));
                        } else {
                            assert(fs.path_at(j) == fs.path_at(i as int));
                            assert(j == i);
                            assert(fs.children_of(j).len() == 0);
                        }
                    }
                    assert forall|q: Seq<u8>| #[trigger] cache.has_key(q) implies old(cache).has_key(q) || exists|j: int|
                        i <= j < fs.spec_len() && q == fs.path_at(j) by {
                        if !old(cache).has_key(q) {
                            assert(q == fs.path_at(i as int));
                        }
                    }
                }
                *size
            },
            FsEntry::Dir { children, .. } => {
                let hit = cache.get(fs.path_ref(i));
                match hit {
                    Some(v) => {
                        proof {
                            assert(cache.has_key(fs.path_at(i as int)));
                            assert(v == subtree_size(fs.nodes@, i as int));
                        }
                        v
                    },
                    None => { self.expand_dir_tree(fs, i, cache, tree, t) },
                }
            },
            FsEntry::UnreadableDir { .. } => {
                let hit = cache.get(fs.path_ref(i));
                match hit {
                    Some(v) => {
                        proof {
                            assert(cache.has_key(fs.path_at(i as int)));
                            assert(v == subtree_size(fs.nodes@, i as int));
                        }
                        v
                    },
                    None => {
                        self.bump_reads();
                        let own_path = clone_key(fs.path_ref(i));
                        cache.put(own_path, 0, false);
                        proof {
                            assert forall|j: int|
                                0 <= j < fs.spec_len() && cache.has_key(
                                    #[trigger] fs.path_at(j),
                                ) implies cache.spec_size(fs.path_at(j)) == subtree_size(
                                fs.nodes@,
                                j,
                            ) && cache.spec_is_file(fs.path_at(j)) == (fs.nodes@[j] is File) by {
                                if old(cache).has_key(fs.path_at(j)) {
                                } else {
                                    assert(fs.path_at(j) == fs.path_at(i as int));
                                    assert(j == i);
                                }
                            }
                            assert forall|j: int, k2: int|
                                0 <= j < fs.spec_len() && cache.has_key(#[trigger] fs.path_at(j))
                                    && 0 <= k2 < fs.children_of(j).len() implies cache.has_key(
                                fs.path_at(#[trigger] fs.child_at(j, k2)),
                            ) by {
                                if old(cache).has_key(fs.path_at(j)) {
                                    assert(old(cache).has_key(fs.path_at(fs.child_at(j, k2))));
                                } else {
                                    assert(fs.path_at(j) == fs.path_at(i as int));
                                    assert(j == i);
                                    assert(fs.children_of(j).len() == 0);
                                }
                            }
                            assert forall|q: Seq<u8>| #[trigger] cache.has_key(q) implies old(cache).has_key(q) || exists|j: int|
                                i <= j < fs.spec_len() && q == fs.path_at(j) by {
                                if !old(cache).has_key(q) {
                                    assert(q == fs.path_at(i as int));
                                }
                            }
                        }
                        0
                    },
                }
            },
            FsEntry::Other { .. } => {
                self.bump_reads();
                0
            },
        }
    }


    /// Expand one uncached directory: fan out over its children, memoizing
    /// each and finally the directory itself, while appending each discovered
    /// entry to the visited tree under the directory's node.
    #[verifier::rlimit(100)]
    #[verifier::spinoff_prover]
    fn expand_dir_tree(
        &mut self,
        fs: &FsSnapshot,
        i: usize,
        cache: &mut SizeCache,
        tree: &mut TreeIndex,
        t: usize,
    ) -> (size: u64)
        requires
            fs.nodes@[i as int] is Dir,
            !old(cache).has_key(fs.path_at(i as int)),
            fs.wf(),
            i < fs.spec_len(),
            old(cache).wf(),
            consistent(*old(cache), *fs),
            closed(*old(cache), *fs),
            old(self).wf(),
            old(self).size + subtree_size(fs.nodes@, i as int) <= u64::MAX,
            old(tree).wf(),
            t < old(tree).spec_len(),
            old(tree).path_at(t as int) == fs.path_at(i as int),
            old(tree).children_of(t as int).len() == 0,
            old(tree).spec_len() + subtree_count(fs.nodes@, i as int) <= usize::MAX,
        ensures
            size == subtree_size(fs.nodes@, i as int),
            final(cache).wf(),
            consistent(*final(cache), *fs),
            closed(*final(cache), *fs),
            forall|q: Seq<u8>|
                #[trigger] old(cache).has_key(q) ==> final(cache).has_key(q)
                    && final(cache).spec_size(q) == old(cache).spec_size(q)
                    && final(cache).spec_is_file(q) == old(cache).spec_is_file(q),
            forall|q: Seq<u8>|
                #[trigger] final(cache).has_key(q) ==> old(cache).has_key(q) || exists|j: int|
                    i <= j < fs.spec_len() && q == fs.path_at(j),
            (fs.nodes@[i as int] is Dir || fs.nodes@[i as int] is UnreadableDir)
                ==> final(cache).has_key(fs.path_at(i as int)),
            final(self).wf(),
            final(self).timer.interval_ms == old(self).timer.interval_ms,
            old(self).size <= final(self).size,
            final(self).size <= old(self).size + subtree_size(fs.nodes@, i as int),
            old(self).events@.is_prefix_of(final(self).events@),
            final(self).reads >= old(self).reads,
            final(self).clock == old(self).clock,
            final(tree).wf(),
            final(tree).current == old(tree).current,
            old(tree).spec_len() <= final(tree).spec_len(),
            final(tree).spec_len() <= old(tree).spec_len() + subtree_count(fs.nodes@, i as int)
                - 1,
            forall|j: int|
                0 <= j < old(tree).spec_len() && j != t ==> final(tree).nodes@[j] == old(tree).nodes@[j],
            final(tree).nodes@[t as int].path == old(tree).nodes@[t as int].path,
            final(tree).nodes@[t as int].size == old(tree).nodes@[t as int].size,
            final(tree).nodes@[t as int].is_file == old(tree).nodes@[t as int].is_file,
            final(tree).nodes@[t as int].parent == old(tree).nodes@[t as int].parent,
            children_report(*final(tree), t as int, *fs, i as int),
            forall|u: int|
                old(tree).spec_len() <= u < final(tree).spec_len() ==> node_reports(
                    *final(tree),
                    u,
                    *fs,
                ),
        decreases fs.spec_len() - i, 0int,
    {
        proof {
            lemma_subtree_size_nonneg(fs.nodes@, i as int);
            lemma_subtree_count_pos(fs.nodes@, i as int);
            assert(self.events@.is_prefix_of(self.events@)) by {
                assert(self.events@ =~= self.events@.subrange(0, self.events@.len() as int));
            }
        }
        match &fs.nodes[i] {
            FsEntry::Dir { children, .. } => {
                        self.bump_reads();
                        let ghost cs = fs.children_of(i as int);
                        let ghost cache1 = *cache;
                        let ghost self1 = *self;
                        let ghost tree1 = *tree;
                        let mut child_sizes: Vec<u64> = Vec::new();
                        let mut k: usize = 0;
                        proof {
                            assert(cs.skip(0) =~= cs);
                            assert(subtree_size(fs.nodes@, i as int) == children_size(
                                fs.nodes@,
                                cs,
                                i as int,
                            ));
                            assert(subtree_count(fs.nodes@, i as int) == 1 + children_count(
                                fs.nodes@,
                                cs,
                                i as int,
                            ));
                        }
                        while k < children.len()
                            invariant
                                fs.wf(),
                                i < fs.spec_len(),
                                fs.nodes@[i as int] is Dir,
                                cs == fs.children_of(i as int),
                                children@ == cs,
                                k <= cs.len(),
                                cache.wf(),
                                consistent(*cache, *fs),
                                closed(*cache, *fs),
                                forall|q: Seq<u8>|
                                    cache1.has_key(q) ==> #[trigger] cache.has_key(q)
                                        && cache.spec_size(q) == cache1.spec_size(q)
                                        && cache.spec_is_file(q) == cache1.spec_is_file(q),
                                forall|q: Seq<u8>|
                                    #[trigger] cache.has_key(q) ==> cache1.has_key(q) || exists|
                                        j: int,
                                    | i < j < fs.spec_len() && q == fs.path_at(j),
                                forall|k2: int|
                                    0 <= k2 < k ==> cache.has_key(
                                        fs.path_at(#[trigger] fs.child_at(i as int, k2)),
                                    ),
                                child_sizes@.len() == k,
                                sum_u64(child_sizes@) + children_size(
                                    fs.nodes@,
                                    cs.skip(k as int),
                                    i as int,
                                ) == children_size(fs.nodes@, cs, i as int),
                                self.wf(),
                                self.timer.interval_ms == self1.timer.interval_ms,
                                self1.size <= self.size,
                                self.size + children_size(fs.nodes@, cs.skip(k as int), i as int)
                                    <= u64::MAX,
                                self.size <= self1.size + children_size(fs.nodes@, cs, i as int)
                                    - children_size(fs.nodes@, cs.skip(k as int), i as int),
                                self1.events@.is_prefix_of(self.events@),
                                self.reads >= self1.reads,
                                self.clock == self1.clock,
                                tree.wf(),
                                tree.current == tree1.current,
                                t < tree1.spec_len(),
                                tree1.spec_len() <= tree.spec_len(),
                                tree1.wf(),
                                tree1.spec_len() + 1 + children_count(fs.nodes@, cs, i as int)
                                    <= usize::MAX,
                                tree.spec_len() <= tree1.spec_len() + children_count(
                                    fs.nodes@,
                                    cs,
                                    i as int,
                                ) - children_count(fs.nodes@, cs.skip(k as int), i as int),
                                forall|j: int|
                                    0 <= j < tree1.spec_len() && j != t ==> tree.nodes@[j]
                                        == tree1.nodes@[j],
                                tree.nodes@[t as int].path == tree1.nodes@[t as int].path,
                                tree.nodes@[t as int].size == tree1.nodes@[t as int].size,
                                tree.nodes@[t as int].is_file == tree1.nodes@[t as int].is_file,
                                tree.nodes@[t as int].parent == tree1.nodes@[t as int].parent,
                                tree.children_of(t as int).len() == k,
                                forall|k2: int|
                                    0 <= k2 < k ==> tree.path_at(
                                        #[trigger] tree.child_at(t as int, k2),
                                    ) == fs.path_at(fs.child_at(i as int, k2)),
                                forall|u: int|
                                    tree1.spec_len() <= u < tree.spec_len() ==> node_reports(
                                        *tree,
                                        u,
                                        *fs,
                                    ),
                            decreases cs.len() - k,
                        {
                            let c = children[k];
                            proof {
                                assert(fs.child_at(i as int, k as int) == c);
                                assert(i < c < fs.spec_len());
                                lemma_children_size_step(fs.nodes@, cs, i as int, k as int);
                                lemma_children_count_step(fs.nodes@, cs, i as int, k as int);
                                lemma_subtree_size_nonneg(fs.nodes@, c as int);
                                lemma_subtree_count_pos(fs.nodes@, c as int);
                                lemma_children_size_nonneg(
                                    fs.nodes@,
                                    cs.skip(k as int + 1),
                                    i as int,
                                );
                                lemma_children_count_nonneg(
                                    fs.nodes@,
                                    cs.skip(k as int + 1),
                                    i as int,
                                );
                            }
                            let ghost pre_sizes = child_sizes@;
                            let ghost tree_a = *tree;
                            let s_val: u64;
                            let cpath_owned = clone_key(fs.path_ref(c));
                            let isf = fs.is_file(c);
                            let hit_c = cache.get(fs.path_ref(c));
                            match hit_c {
                                Some(v) => {
                                    proof {
                                        assert(cache.has_key(fs.path_at(c as int)));
                                        assert(v == subtree_size(fs.nodes@, c as int));
                                    }
                                    let t_c = tree.add_child(t, cpath_owned, v, isf);
                                    proof {
                                        assert(node_reports(*tree, t_c as int, *fs)) by {
                                            assert(tree.path_at(t_c as int) == fs.path_at(
                                                c as int,
                                            ));
                                            assert(tree.children_of(t_c as int).len() == 0);
                                        }
                                        assert forall|u: int|
                                            tree1.spec_len() <= u < tree.spec_len() && u != t_c
                                                implies node_reports(*tree, u, *fs) by {
                                            Self::lemma_reports_stable(tree_a, *tree, u, *fs, t as int);
                                        }
                                        assert forall|k2: int| 0 <= k2 < k + 1 implies tree.path_at(
                                            #[trigger] tree.child_at(t as int, k2),
                                        ) == fs.path_at(fs.child_at(i as int, k2)) by {
                                            if k2 < k {
                                                assert(tree.child_at(t as int, k2)
                                                    == tree_a.child_at(t as int, k2));
                                                assert(tree_a.child_at(t as int, k2) != t);
                                                assert(tree.nodes@[tree_a.child_at(t as int, k2)]
                                                    == tree_a.nodes@[tree_a.child_at(
                                                    t as int,
                                                    k2,
                                                )]);
                                            } else {
                                                assert(tree.child_at(t as int, k2) == t_c);
                                            }
                                        }
                                    }
                                    s_val = v;
                                },
                                None => {
                                    let t_c = tree.add_child(t, cpath_owned, 0, isf);
                                    let ghost cache_a = *cache;
                                    let ghost self_a = *self;
                                    let ghost tree_b = *tree;
                                    let v = self.recurse_tree(fs, c, cache, tree, t_c);
                                    let ghost cache_b = *cache;
                                    let ghost tree_c = *tree;
                                    let cpath_two = clone_key(fs.path_ref(c));
                                    proof {
                                        if cache.has_key(fs.path_at(c as int)) {
                                            assert(cache.spec_size(fs.path_at(c as int))
                                                == subtree_size(fs.nodes@, c as int));
                                        }
                                        lemma_prefix_trans(
                                            self1.events@,
                                            self_a.events@,
                                            self.events@,
                                        );
                                    }
                                    cache.put(cpath_two, v, isf);
                                    tree.set_size(t_c, v);
                                    proof {
                                        assert forall|q: Seq<u8>| cache1.has_key(q) implies
                                        cache.has_key(q) && cache.spec_size(q) == cache1.spec_size(
                                            q,
                                        ) && cache.spec_is_file(q) == cache1.spec_is_file(q) by {
                                            assert(cache_a.has_key(q));
                                            assert(cache_b.has_key(q));
                                            assert(cache.has_key(q));
                                            assert(cache.spec_size(q) == cache1.spec_size(q));
                                            assert(cache.spec_is_file(q) == cache1.spec_is_file(
                                                q,
                                            ));
                                        }
                                        assert forall|q: Seq<u8>| #[trigger] cache.has_key(q)
                                            implies cache1.has_key(q) || exists|j: int|
                                            i < j < fs.spec_len() && q == fs.path_at(j) by {
                                            if cache_b.has_key(q) {
                                                if cache_a.has_key(q) {
                                                } else {
                                                    let j = choose|j: int|
                                                        c <= j < fs.spec_len() && q == fs.path_at(
                                                            j,
                                                        );
                                                    assert(i < j < fs.spec_len() && q
                                                        == fs.path_at(j));
                                                }
                                            } else {
                                                assert(q == fs.path_at(c as int));
                                            }
                                        }
                                        assert forall|j: int|
                                            0 <= j < fs.spec_len() && cache.has_key(
                                                #[trigger] fs.path_at(j),
                                            ) implies cache.spec_size(fs.path_at(j))
                                            == subtree_size(fs.nodes@, j) && cache.spec_is_file(
                                            fs.path_at(j),
                                        ) == (fs.nodes@[j] is File) by {
                                            if cache_b.has_key(fs.path_at(j)) {
                                            } else {
                                                assert(fs.path_at(j) == fs.path_at(c as int));
                                                assert(j == c);
                                            }
                                        }
                                        assert forall|j: int, k2: int|
                                            0 <= j < fs.spec_len() && cache.has_key(
                                                #[trigger] fs.path_at(j),
                                            ) && 0 <= k2 < fs.children_of(j).len() implies
                                        cache.has_key(
                                            fs.path_at(#[trigger] fs.child_at(j, k2)),
                                        ) by {
                                            if cache_b.has_key(fs.path_at(j)) {
                                                assert(cache_b.has_key(
                                                    fs.path_at(fs.child_at(j, k2)),
                                                ));
                                            } else {
                                                assert(fs.path_at(j) == fs.path_at(c as int));
                                                assert(j == c);
                                                assert(fs.nodes@[c as int] is Dir
                                                    || fs.nodes@[c as int] is UnreadableDir
                                                    ==> cache_b.has_key(fs.path_at(c as int)));
                                                assert(fs.children_of(j).len() == 0);
                                            }
                                        }
                                        // the completed child now reports its node
                                        assert(node_reports(*tree, t_c as int, *fs)) by {
                                            assert(tree.path_at(t_c as int) == fs.path_at(
                                                c as int,
                                            ));
                                            assert(tree.nodes@[t_c as int].size == v);
                                            assert(children_report(*tree, t_c as int, *fs, c as int))
                                                by {
                                                if tree.children_of(t_c as int).len() > 0 {
                                                    assert(tree.children_of(t_c as int)
                                                        == tree_c.children_of(t_c as int));
                                                    assert forall|k2: int|
                                                        0 <= k2 < fs.children_of(c as int).len()
                                                            implies tree.path_at(
                                                        #[trigger] tree.child_at(t_c as int, k2),
                                                    ) == fs.path_at(fs.child_at(c as int, k2)) by {
                                                        assert(tree_c.child_at(t_c as int, k2)
                                                            > t_c);
                                                        assert(tree.nodes@[tree_c.child_at(
                                                            t_c as int,
                                                            k2,
                                                        )] == tree_c.nodes@[tree_c.child_at(
                                                            t_c as int,
                                                            k2,
                                                        )]);
                                                    }
                                                }
                                            }
                                        }
                                        assert forall|u: int|
                                            tree1.spec_len() <= u < tree.spec_len() && u != t_c
                                                implies node_reports(*tree, u, *fs) by {
                                            if u < tree_b.spec_len() {
                                                Self::lemma_reports_stable(
                                                    tree_a,
                                                    tree_b,
                                                    u,
                                                    *fs,
                                                    t as int,
                                                );
                                                Self::lemma_reports_stable(
                                                    tree_b,
                                                    tree_c,
                                                    u,
                                                    *fs,
                                                    t_c as int,
                                                );
                                                Self::lemma_reports_stable(
                                                    tree_c,
                                                    *tree,
                                                    u,
                                                    *fs,
                                                    t_c as int,
                                                );
                                            } else {
                                                Self::lemma_reports_stable(
                                                    tree_c,
                                                    *tree,
                                                    u,
                                                    *fs,
                                                    t_c as int,
                                                );
                                            }
                                        }
                                        assert forall|k2: int| 0 <= k2 < k + 1 implies tree.path_at(
                                            #[trigger] tree.child_at(t as int, k2),
                                        ) == fs.path_at(fs.child_at(i as int, k2)) by {
                                            assert(tree.children_of(t as int) == tree_b.children_of(
                                                t as int,
                                            ));
                                            if k2 < k {
                                                assert(tree_b.child_at(t as int, k2)
                                                    == tree_a.child_at(t as int, k2));
                                                assert(tree_a.child_at(t as int, k2) != t);
                                                let w = tree_a.child_at(t as int, k2);
                                                assert(w < tree_b.spec_len());
                                                assert(w != t_c) by {
                                                    assert(tree_a.nodes@[w].parent == Some(t));
                                                }
                                                assert(tree.nodes@[w] == tree_a.nodes@[w]);
                                            } else {
                                                assert(tree_b.child_at(t as int, k2) == t_c);
                                                assert(tree.path_at(t_c as int) == fs.path_at(
                                                    c as int,
                                                ));
                                            }
                                        }
                                        assert(tree.nodes@[t as int] == tree_b.nodes@[t as int]);
                                    }
                                    s_val = v;
                                },
                            }
                            child_sizes.push(s_val);
                            proof {
                                lemma_sum_u64_push(pre_sizes, s_val);
                            }
                            k = k + 1;
                        }
                        proof {
                            lemma_children_size_end(fs.nodes@, cs, i as int);
                            lemma_children_count_end(fs.nodes@, cs, i as int);
                            assert(cs.skip(cs.len() as int) == cs.skip(k as int));
                            assert(sum_u64(child_sizes@) == children_size(fs.nodes@, cs, i as int));
                        }
                        let total = par_sum(&child_sizes);
                        let own_path = clone_key(fs.path_ref(i));
                        let ghost cache_c = *cache;
                        proof {
                            if cache.has_key(fs.path_at(i as int)) {
                                assert(cache.spec_size(fs.path_at(i as int)) == subtree_size(
                                    fs.nodes@,
                                    i as int,
                                ));
                            }
                        }
                        cache.put(own_path, total, false);
                        proof {
                            assert forall|q: Seq<u8>| old(cache).has_key(q) implies
                            cache.has_key(q) && cache.spec_size(q) == old(cache).spec_size(q)
                                && cache.spec_is_file(q) == old(cache).spec_is_file(q) by {
                                assert(cache_c.has_key(q));
                                assert(cache_c.spec_size(q) == old(cache).spec_size(q));
                                assert(cache.has_key(q));
                                assert(cache.spec_size(q) == cache_c.spec_size(q));
                                assert(cache.spec_is_file(q) == cache_c.spec_is_file(q));
                            }
                            assert forall|q: Seq<u8>| #[trigger] cache.has_key(q) implies old(cache).has_key(q) || exists|j: int|
                                i <= j < fs.spec_len() && q == fs.path_at(j) by {
                                if cache_c.has_key(q) {
                                    if !old(cache).has_key(q) {
                                        let j = choose|j: int|
                                            i < j < fs.spec_len() && q == fs.path_at(j);
                                        assert(i <= j < fs.spec_len() && q == fs.path_at(j));
                                    }
                                } else {
                                    assert(q == fs.path_at(i as int));
                                }
                            }
                            assert forall|j: int|
                                0 <= j < fs.spec_len() && cache.has_key(
                                    #[trigger] fs.path_at(j),
                                ) implies cache.spec_size(fs.path_at(j)) == subtree_size(
                                fs.nodes@,
                                j,
                            ) && cache.spec_is_file(fs.path_at(j)) == (fs.nodes@[j] is File) by {
                                if cache_c.has_key(fs.path_at(j)) {
                                    assert(cache_c.spec_size(fs.path_at(j)) == subtree_size(
                                        fs.nodes@,
                                        j,
                                    ));
                                    assert(cache.spec_size(fs.path_at(j)) == cache_c.spec_size(
                                        fs.path_at(j),
                                    ));
                                } else {
                                    assert(fs.path_at(j) == fs.path_at(i as int));
                                    assert(j == i);
                                    assert(total == subtree_size(fs.nodes@, i as int));
                                    assert(cache.spec_size(fs.path_at(j)) == total);
                                    assert(!(fs.nodes@[j] is File));
                                }
                            }
                            assert forall|j: int, k2: int|
                                0 <= j < fs.spec_len() && cache.has_key(#[trigger] fs.path_at(j))
                                    && 0 <= k2 < fs.children_of(j).len() implies cache.has_key(
                                fs.path_at(#[trigger] fs.child_at(j, k2)),
                            ) by {
                                if cache_c.has_key(fs.path_at(j)) {
                                    assert(cache_c.has_key(fs.path_at(fs.child_at(j, k2))));
                                } else {
                                    assert(fs.path_at(j) == fs.path_at(i as int));
                                    assert(j == i);
                                    assert(cache_c.has_key(
                                        fs.path_at(fs.child_at(i as int, k2)),
                                    ));
                                }
                            }
                        }
                        total
            },
            _ => {
                proof {
                    assert(false);
                }
                0
            },
        }
    }

    /// A node's faithful report survives edits that touch neither it nor any
    /// of its children.
    proof fn lemma_reports_stable(a: TreeIndex, b: TreeIndex, u: int, fs: FsSnapshot, touched: int)
        requires
            a.wf(),
            0 <= u < a.spec_len(),
            node_reports(a, u, fs),
            a.spec_len() <= b.spec_len(),
            forall|j: int| 0 <= j < a.spec_len() && j != touched ==> b.nodes@[j] == a.nodes@[j],
            touched != u,
            forall|k: int|
                0 <= k < a.children_of(u).len() ==> #[trigger] a.child_at(u, k) != touched,
        ensures
            node_reports(b, u, fs),
    {
        let j = choose|j: int|
            #![trigger fs.path_at(j)]
            0 <= j < fs.spec_len() && a.path_at(u) == fs.path_at(j) && a.nodes@[u].size
                == subtree_size(fs.nodes@, j) && a.nodes@[u].is_file == (fs.nodes@[j] is File)
                && children_report(a, u, fs, j);
        assert(b.nodes@[u] == a.nodes@[u]);
        assert(children_report(b, u, fs, j)) by {
            if b.children_of(u).len() > 0 {
                assert forall|k: int|
                    0 <= k < fs.children_of(j).len() implies b.path_at(
                    #[trigger] b.child_at(u, k),
                ) == fs.path_at(fs.child_at(j, k)) by {
                    assert(b.child_at(u, k) == a.child_at(u, k));
                    assert(a.child_at(u, k) != touched);
                    assert(u < a.child_at(u, k) < a.spec_len());
                    assert(b.nodes@[a.child_at(u, k)] == a.nodes@[a.child_at(u, k)]);
                }
            }
        }
        assert(fs.path_at(j) == b.path_at(u));
    }
}

} // verus!
