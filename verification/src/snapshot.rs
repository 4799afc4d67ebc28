use vstd::prelude::*;

verus! {

/// One filesystem node, as a scan sees it: a regular file with its byte
/// length (zero when its metadata could not be read), a readable directory
/// with its immediate entries, a directory whose listing fails, or a path
/// that is neither (vanished or special).
pub enum FsEntry {
    File { path: Vec<u8>, size: u64 },
    Dir { path: Vec<u8>, children: Vec<usize> },
    UnreadableDir { path: Vec<u8> },
    Other { path: Vec<u8> },
}

/// An immutable snapshot of a directory tree. Nodes live in an arena;
/// a directory's children are arena indices. Every child index is strictly
/// greater than its parent's, paths are unique, and no node is the child of
/// two parents, as on a real filesystem.
pub struct FsSnapshot {
    pub nodes: Vec<FsEntry>,
}

/// Recursive byte size of the subtree rooted at node `i`: a file counts its
/// length, a readable directory the sum of its children, and everything else
/// zero (unreadable entries contribute nothing, by the best-effort policy).
pub open spec fn subtree_size(fs: Seq<FsEntry>, i: int) -> int
    decreases fs.len() - i, 1int, 0int,
{
    if 0 <= i < fs.len() {
        match fs[i] {
            FsEntry::File { size, .. } => size as int,
            FsEntry::Dir { children, .. } => children_size(fs, children@, i),
            FsEntry::UnreadableDir { .. } => 0,
            FsEntry::Other { .. } => 0,
        }
    } else {
        0
    }
}

/// Sum of the subtree sizes of a directory's children.
pub open spec fn children_size(fs: Seq<FsEntry>, cs: Seq<usize>, parent: int) -> int
    decreases fs.len() - parent, 0int, cs.len(),
{
    if cs.len() == 0 {
        0
    } else if parent < cs[0] < fs.len() {
        subtree_size(fs, cs[0] as int) + children_size(fs, cs.drop_first(), parent)
    } else {
        children_size(fs, cs.drop_first(), parent)
    }
}

/// Sum of a sequence of measured sizes.
pub open spec fn sum_u64(s: Seq<u64>) -> int
    decreases s.len(),
{
    if s.len() == 0 {
        0
    } else {
        s[0] + sum_u64(s.drop_first())
    }
}

pub proof fn lemma_subtree_size_nonneg(fs: Seq<FsEntry>, i: int)
    ensures
        subtree_size(fs, i) >= 0,
    decreases fs.len() - i, 1int, 0int,
{
    if 0 <= i < fs.len() {
        match fs[i] {
            FsEntry::Dir { children, .. } => {
                lemma_children_size_nonneg(fs, children@, i);
            },
            _ => {},
        }
    }
}

pub proof fn lemma_children_size_nonneg(fs: Seq<FsEntry>, cs: Seq<usize>, parent: int)
    ensures
        children_size(fs, cs, parent) >= 0,
    decreases fs.len() - parent, 0int, cs.len(),
{
    if cs.len() == 0 {
    } else if parent < cs[0] < fs.len() {
        lemma_subtree_size_nonneg(fs, cs[0] as int);
        lemma_children_size_nonneg(fs, cs.drop_first(), parent);
    } else {
        lemma_children_size_nonneg(fs, cs.drop_first(), parent);
    }
}

/// Peeling one child off the remaining child list.
pub proof fn lemma_children_size_step(fs: Seq<FsEntry>, cs: Seq<usize>, parent: int, k: int)
    requires
        0 <= k < cs.len(),
        parent < cs[k] < fs.len(),
    ensures
        children_size(fs, cs.skip(k), parent) == subtree_size(fs, cs[k] as int) + children_size(
            fs,
            cs.skip(k + 1),
            parent,
        ),
{
    assert(cs.skip(k)[0] == cs[k]);
    assert(cs.skip(k).drop_first() =~= cs.skip(k + 1));
}

/// How many nodes a scan may visit below and including node `i`: one for the
/// node itself and one per discovered descendant.
pub open spec fn subtree_count(fs: Seq<FsEntry>, i: int) -> int
    decreases fs.len() - i, 1int, 0int,
{
    if 0 <= i < fs.len() {
        match fs[i] {
            FsEntry::Dir { children, .. } => 1 + children_count(fs, children@, i),
            _ => 1,
        }
    } else {
        1
    }
}

/// Sum of the subtree node counts of a directory's children.
pub open spec fn children_count(fs: Seq<FsEntry>, cs: Seq<usize>, parent: int) -> int
    decreases fs.len() - parent, 0int, cs.len(),
{
    if cs.len() == 0 {
        0
    } else if parent < cs[0] < fs.len() {
        subtree_count(fs, cs[0] as int) + children_count(fs, cs.drop_first(), parent)
    } else {
        1 + children_count(fs, cs.drop_first(), parent)
    }
}

pub proof fn lemma_subtree_count_pos(fs: Seq<FsEntry>, i: int)
    ensures
        subtree_count(fs, i) >= 1,
    decreases fs.len() - i, 1int, 0int,
{
    if 0 <= i < fs.len() {
        match fs[i] {
            FsEntry::Dir { children, .. } => {
                lemma_children_count_nonneg(fs, children@, i);
            },
            _ => {},
        }
    }
}

pub proof fn lemma_children_count_nonneg(fs: Seq<FsEntry>, cs: Seq<usize>, parent: int)
    ensures
        children_count(fs, cs, parent) >= 0,
    decreases fs.len() - parent, 0int, cs.len(),
{
    if cs.len() == 0 {
    } else if parent < cs[0] < fs.len() {
        lemma_subtree_count_pos(fs, cs[0] as int);
        lemma_children_count_nonneg(fs, cs.drop_first(), parent);
    } else {
        lemma_children_count_nonneg(fs, cs.drop_first(), parent);
    }
}

/// Peeling one child off the remaining child list, for node counts.
pub proof fn lemma_children_count_step(fs: Seq<FsEntry>, cs: Seq<usize>, parent: int, k: int)
    requires
        0 <= k < cs.len(),
        parent < cs[k] < fs.len(),
    ensures
        children_count(fs, cs.skip(k), parent) == subtree_count(fs, cs[k] as int) + children_count(
            fs,
            cs.skip(k + 1),
            parent,
        ),
{
    assert(cs.skip(k)[0] == cs[k]);
    assert(cs.skip(k).drop_first() =~= cs.skip(k + 1));
}

/// The empty remainder of a child list counts zero nodes.
pub proof fn lemma_children_count_end(fs: Seq<FsEntry>, cs: Seq<usize>, parent: int)
    ensures
        children_count(fs, cs.skip(cs.len() as int), parent) == 0,
{
    assert(cs.skip(cs.len() as int).len() == 0);
}

/// One more consumed clock value extends the prefix sum by that value.
pub proof fn lemma_sum_u64_take_step(s: Seq<u64>, pos: int)
    requires
        0 <= pos < s.len(),
    ensures
        sum_u64(s.take(pos + 1)) == sum_u64(s.take(pos)) + s[pos],
{
    assert(s.take(pos + 1) =~= s.take(pos).push(s[pos]));
    lemma_sum_u64_push(s.take(pos), s[pos]);
}

/// A prefix of the clock sums to no more than the whole clock.
pub proof fn lemma_sum_u64_take_bound(s: Seq<u64>, pos: int)
    requires
        0 <= pos <= s.len(),
    ensures
        sum_u64(s.take(pos)) <= sum_u64(s),
    decreases s.len() - pos,
{
    if pos < s.len() {
        lemma_sum_u64_take_step(s, pos);
        lemma_sum_u64_take_bound(s, pos + 1);
    } else {
        assert(s.take(pos) =~= s);
    }
}

pub proof fn lemma_sum_u64_push(s: Seq<u64>, x: u64)
    ensures
        sum_u64(s.push(x)) == sum_u64(s) + x,
    decreases s.len(),
{
    if s.len() == 0 {
        assert(s.push(x)[0] == x);
        assert(s.push(x).drop_first() =~= Seq::<u64>::empty());
        assert(sum_u64(s.push(x)) == x + sum_u64(Seq::<u64>::empty()));
    } else {
        assert(s.push(x)[0] == s[0]);
        assert(s.push(x).drop_first() =~= s.drop_first().push(x));
        lemma_sum_u64_push(s.drop_first(), x);
        assert(sum_u64(s.push(x)) == s[0] + sum_u64(s.drop_first().push(x)));
    }
}

/// The empty remainder of a child list sums to zero.
pub proof fn lemma_children_size_end(fs: Seq<FsEntry>, cs: Seq<usize>, parent: int)
    ensures
        children_size(fs, cs.skip(cs.len() as int), parent) == 0,
{
    assert(cs.skip(cs.len() as int).len() == 0);
}

impl FsSnapshot {
    pub open spec fn spec_len(self) -> int {
        self.nodes@.len() as int
    }

    pub open spec fn path_at(self, i: int) -> Seq<u8> {
        match self.nodes@[i] {
            FsEntry::File { path, .. } => path@,
            FsEntry::Dir { path, .. } => path@,
            FsEntry::UnreadableDir { path } => path@,
            FsEntry::Other { path } => path@,
        }
    }

    pub open spec fn children_of(self, i: int) -> Seq<usize> {
        match self.nodes@[i] {
            FsEntry::Dir { children, .. } => children@,
            _ => Seq::empty(),
        }
    }

    pub open spec fn child_at(self, i: int, k: int) -> int {
        self.children_of(i)[k] as int
    }

    /// Total size of the subtree rooted at node `i`.
    pub open spec fn total_at(self, i: int) -> int {
        subtree_size(self.nodes@, i)
    }

    /// Children indices point forward and stay in bounds, paths are unique,
    /// and no node is the child of two parents (the arena is a forest).
    pub open spec fn wf(self) -> bool {
        &&& forall|i: int, k: int|
            0 <= i < self.spec_len() && 0 <= k < self.children_of(i).len() ==> i < #[trigger] self.child_at(i, k) < self.spec_len()
        &&& forall|i: int, j: int|
            #![trigger self.path_at(i), self.path_at(j)]
            0 <= i < self.spec_len() && 0 <= j < self.spec_len() && i != j ==> self.path_at(i)
                != self.path_at(j)
        &&& forall|i1: int, k1: int, i2: int, k2: int|
            #![trigger self.child_at(i1, k1), self.child_at(i2, k2)]
            0 <= i1 < self.spec_len() && 0 <= k1 < self.children_of(i1).len() && 0 <= i2
                < self.spec_len() && 0 <= k2 < self.children_of(i2).len() && !(i1 == i2 && k1
                == k2) ==> self.child_at(i1, k1) != self.child_at(i2, k2)
    }

    pub fn len(&self) -> (n: usize)
        ensures
            n == self.spec_len(),
    {
        self.nodes.len()
    }

    /// Borrow the path key of node `i`.
    pub fn path_ref(&self, i: usize) -> (p: &Vec<u8>)
        requires
            i < self.spec_len(),
        ensures
            p@ == self.path_at(i as int),
    {
        match &self.nodes[i] {
            FsEntry::File { path, .. } => path,
            FsEntry::Dir { path, .. } => path,
            FsEntry::UnreadableDir { path } => path,
            FsEntry::Other { path } => path,
        }
    }

    /// Whether node `i` is a regular file.
    pub fn is_file(&self, i: usize) -> (b: bool)
        requires
            i < self.spec_len(),
        ensures
            b == (self.nodes@[i as int] is File),
    {
        match &self.nodes[i] {
            FsEntry::File { .. } => true,
            _ => false,
        }
    }
}

} // verus!
