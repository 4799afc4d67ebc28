use crate::cache::SizeCache;
use crate::folder::{entries_view, sorted_desc, Folder};
use crate::pathkey::{clone_key, parent_key, parent_of};
use crate::snapshot::{
    children_size, lemma_children_size_end, lemma_children_size_nonneg, lemma_children_size_step,
    lemma_subtree_size_nonneg, lemma_sum_u64_push, lemma_sum_u64_take_bound,
    lemma_sum_u64_take_step, subtree_size, sum_u64, FsEntry, FsSnapshot,
};
use crate::timer::Timer;
use rayon::iter::IntoParallelRefIterator;
use rayon::iter::ParallelIterator;
use vstd::prelude::*;

verus! {

/// Every cached path that names a snapshot node carries that node's true
/// subtree size and file flag.
pub open spec fn consistent(cache: SizeCache, fs: FsSnapshot) -> bool {
    forall|i: int|
        0 <= i < fs.spec_len() && cache.has_key(#[trigger] fs.path_at(i)) ==> cache.spec_size(
            fs.path_at(i),
        ) == subtree_size(fs.nodes@, i) && cache.spec_is_file(fs.path_at(i)) == (fs.nodes@[i]
            is File)
}

/// The cache is populated bottom-up: a cached directory's children are
/// cached too.
pub open spec fn closed(cache: SizeCache, fs: FsSnapshot) -> bool {
    forall|i: int, k: int|
        #![trigger cache.has_key(fs.path_at(i)), fs.child_at(i, k)]
        0 <= i < fs.spec_len() && cache.has_key(fs.path_at(i)) && 0 <= k < fs.children_of(
            i,
        ).len() ==> cache.has_key(fs.path_at(fs.child_at(i, k)))
}

/// Running-total events never decrease and never exceed the running total.
pub open spec fn events_ok(events: Seq<u64>, total: u64) -> bool {
    &&& forall|r: int, t: int|
        #![trigger events[r], events[t]]
        0 <= r <= t < events.len() ==> events[r] <= events[t]
    &&& forall|r: int| 0 <= r < events.len() ==> #[trigger] events[r] <= total
}

/// The root's immediate children as listing entries, in discovery order.
pub open spec fn child_listing(fs: FsSnapshot, i: int) -> Seq<(u64, Seq<u8>, bool)> {
    fs.children_of(i).map(
        |k: int, c: usize|
            (
                subtree_size(fs.nodes@, c as int) as u64,
                fs.path_at(c as int),
                fs.nodes@[c as int] is File,
            ),
    )
}

/// Relies on rayon's `ParallelIterator::sum` over `u64`: addition of
/// non-negative integers is associative and commutative, so the unspecified
/// reduction order yields the plain sum (overflow is excluded by the
/// precondition).
#[verifier::external_body]
pub(crate) fn par_sum(xs: &Vec<u64>) -> (r: u64)
    requires
        sum_u64(xs@) <= u64::MAX,
    ensures
        r == sum_u64(xs@),
{
    xs.par_iter().copied().sum()
}

pub(crate) proof fn lemma_prefix_trans(a: Seq<u64>, b: Seq<u64>, c: Seq<u64>)
    requires
        a.is_prefix_of(b),
        b.is_prefix_of(c),
    ensures
        a.is_prefix_of(c),
{
    assert(a =~= c.subrange(0, a.len() as int)) by {
        assert(forall|x: int| 0 <= x < a.len() ==> a[x] == b.subrange(0, a.len() as int)[x]);
        assert(forall|x: int|
            0 <= x < a.len() ==> b[x] == c.subrange(0, b.len() as int)[x]);
    }
}

/// Cache idempotence: whatever each scan's cache already held, two scans of
/// the same root of an unchanged snapshot return the same total, because
/// `run` promises each equals the subtree size of the root.
pub proof fn lemma_scan_idempotent(fs: FsSnapshot, root: int, first: u64, second: u64)
    requires
        first == subtree_size(fs.nodes@, root),
        second == subtree_size(fs.nodes@, root),
    ensures
        first == second,
{
}

/// What one scan returns: the total, the sorted listing snapshot, the
/// throttled running-total events, and how many filesystem reads it took.
pub struct ScanOutcome {
    pub size: u64,
    pub folder: Folder,
    pub events: Vec<u64>,
    pub reads: u64,
}

/// One top-level scan in progress: the throttle timer, the running total of
/// freshly measured file bytes, the emitted events, a count of filesystem
/// touches, and the elapsed-time feed consumed by the timer (one value per
/// measured file; zero once exhausted).
pub struct FolderSize {
    pub timer: Timer,
    pub size: u64,
    pub events: Vec<u64>,
    pub reads: u64,
    pub clock: Vec<u64>,
    pub clock_pos: usize,
}

impl FolderSize {
    pub open spec fn wf(self) -> bool {
        &&& self.timer.wf()
        &&& events_ok(self.events@, self.size)
        &&& self.clock_pos <= self.clock@.len()
        &&& self.events@.len() * self.timer.interval_ms + (self.timer.interval_ms
            - self.timer.left_ms) <= 2 * sum_u64(self.clock@.take(self.clock_pos as int))
    }

    /// The elapsed time to charge the next measurement tick with.
    pub(crate) fn next_elapsed(&mut self) -> (e: u64)
        requires
            old(self).clock_pos <= old(self).clock@.len(),
        ensures
            final(self).timer == old(self).timer,
            final(self).size == old(self).size,
            final(self).events == old(self).events,
            final(self).reads == old(self).reads,
            final(self).clock == old(self).clock,
            final(self).clock_pos <= final(self).clock@.len(),
            old(self).clock_pos < old(self).clock@.len() ==> final(self).clock_pos == old(self).clock_pos + 1 && e == old(self).clock@[old(self).clock_pos as int],
            old(self).clock_pos >= old(self).clock@.len() ==> final(self).clock_pos == old(self).clock_pos && e == 0,
    {
        if self.clock_pos < self.clock.len() {
            let e = self.clock[self.clock_pos];
            self.clock_pos = self.clock_pos + 1;
            e
        } else {
            0
        }
    }

    /// Add a measured file to the running total; emit a running-total event
    /// when the throttle allows it.
    pub(crate) fn measure_file(&mut self, size: u64)
        requires
            old(self).wf(),
            old(self).size + size <= u64::MAX,
        ensures
            final(self).wf(),
            final(self).size == old(self).size + size,
            final(self).timer.interval_ms == old(self).timer.interval_ms,
            final(self).reads == old(self).reads,
            final(self).clock == old(self).clock,
            old(self).events@.is_prefix_of(final(self).events@),
    {
        self.size = self.size + size;
        let ghost pre = *self;
        let e = self.next_elapsed();
        proof {
            if pre.clock_pos < pre.clock@.len() {
                lemma_sum_u64_take_step(pre.clock@, pre.clock_pos as int);
            }
        }
        let ghost consumed = sum_u64(self.clock@.take(self.clock_pos as int));
        let fired = self.timer.tick(e);
        proof {
            let iv = pre.timer.interval_ms as int;
            let n = pre.events@.len() as int;
            if fired {
                // the budget that was left fit inside the elapsed time, and
                // only the remainder modulo one interval rolls over
                assert(0 <= e as int % iv <= e && e as int % iv < iv) by (nonlinear_arith)
                    requires
                        iv > 0,
                        e >= 0,
                ;
                assert((n + 1) * iv == n * iv + iv) by (nonlinear_arith);
            }
        }
        if fired {
            let ghost before = self.events@;
            self.events.push(self.size);
            proof {
                assert(before.is_prefix_of(self.events@)) by {
                    assert(before =~= self.events@.subrange(0, before.len() as int));
                }
            }
        } else {
            proof {
                assert(self.events@.is_prefix_of(self.events@)) by {
                    assert(self.events@ =~= self.events@.subrange(0, self.events@.len() as int));
                }
            }
        }
    }

    /// Count one filesystem touch.
    pub(crate) fn bump_reads(&mut self)
        ensures
            final(self).timer == old(self).timer,
            final(self).size == old(self).size,
            final(self).events == old(self).events,
            final(self).clock == old(self).clock,
            final(self).clock_pos == old(self).clock_pos,
            final(self).reads >= old(self).reads,
            old(self).reads < u64::MAX ==> final(self).reads == old(self).reads + 1,
    {
        if self.reads < u64::MAX {
            self.reads = self.reads + 1;
        }
    }

    /// One full scan: compute the total recursively with memoization, then
    /// build the sorted listing snapshot of the root's immediate children.
    /// The returned events are the throttled running totals, in order.
    pub fn run(
        fs: &FsSnapshot,
        root: usize,
        cache: &mut SizeCache,
        interval_ms: u64,
        clock: Vec<u64>,
    ) -> (out: ScanOutcome)
        requires
            fs.wf(),
            root < fs.spec_len(),
            old(cache).wf(),
            consistent(*old(cache), *fs),
            closed(*old(cache), *fs),
            interval_ms > 0,
            subtree_size(fs.nodes@, root as int) <= u64::MAX,
        ensures
            out.size == subtree_size(fs.nodes@, root as int),
            final(cache).wf(),
            consistent(*final(cache), *fs),
            closed(*final(cache), *fs),
            forall|q: Seq<u8>|
                #[trigger] old(cache).has_key(q) ==> final(cache).has_key(q)
                    && final(cache).spec_size(q) == old(cache).spec_size(q)
                    && final(cache).spec_is_file(q) == old(cache).spec_is_file(q),
            forall|q: Seq<u8>|
                #[trigger] final(cache).has_key(q) ==> old(cache).has_key(q) || exists|j: int|
                    root <= j < fs.spec_len() && q == fs.path_at(j),
            !(fs.nodes@[root as int] is Other) ==> final(cache).has_key(fs.path_at(root as int)),
            events_ok(out.events@, out.size),
            out.events@.len() * interval_ms <= 2 * sum_u64(clock@),
            (fs.nodes@[root as int] is Dir || fs.nodes@[root as int] is UnreadableDir) && old(cache).has_key(fs.path_at(root as int)) ==> out.reads == 0 && out.events@.len() == 0
                && *final(cache) == *old(cache),
            out.folder.size == out.size,
            out.folder.root@ == fs.path_at(root as int),
            out.folder.parent@ == (if final(cache).has_key(parent_of(fs.path_at(root as int))) {
                parent_of(fs.path_at(root as int))
            } else {
                Seq::<u8>::empty()
            }),
            fs.nodes@[root as int] is Dir ==> sorted_desc(entries_view(out.folder.entries@))
                && entries_view(out.folder.entries@).to_multiset() == child_listing(
                *fs,
                root as int,
            ).to_multiset(),
            !(fs.nodes@[root as int] is Dir) ==> out.folder.entries@.len() == 0,
    {
        let ghost clock_view = clock@;
        let mut state = FolderSize {
            timer: Timer::new(interval_ms),
            size: 0,
            events: Vec::new(),
            reads: 0,
            clock,
            clock_pos: 0,
        };
        proof {
            assert(state.clock@.take(0) =~= Seq::empty());
        }
        let total = state.recurse(fs, root, cache);
        let f = Self::folder(fs, root, cache, total);
        proof {
            assert forall|r: int| 0 <= r < state.events@.len() implies #[trigger] state.events@[r]
                <= total by {
                assert(state.events@[r] <= state.size);
            }
            assert(state.timer.interval_ms == interval_ms);
            assert(state.events@.len() * interval_ms + (interval_ms - state.timer.left_ms) <= 2
                * sum_u64(state.clock@.take(state.clock_pos as int)));
            lemma_sum_u64_take_bound(clock_view, state.clock_pos as int);
            assert(state.events@.len() * interval_ms <= 2 * sum_u64(clock_view));
        }
        ScanOutcome { size: total, folder: f, events: state.events, reads: state.reads }
    }

    /// Listing snapshot of the scanned root: the total, the resolved parent
    /// (empty unless the parent path is itself cached), and the root's
    /// immediate children with their memoized sizes, sorted by non-increasing
    /// size.
    pub fn folder(fs: &FsSnapshot, root: usize, cache: &SizeCache, size: u64) -> (f: Folder)
        requires
            fs.wf(),
            root < fs.spec_len(),
            cache.wf(),
            consistent(*cache, *fs),
            closed(*cache, *fs),
            fs.nodes@[root as int] is Dir ==> cache.has_key(fs.path_at(root as int)),
        ensures
            f.size == size,
            f.root@ == fs.path_at(root as int),
            f.parent@ == (if cache.has_key(parent_of(fs.path_at(root as int))) {
                parent_of(fs.path_at(root as int))
            } else {
                Seq::<u8>::empty()
            }),
            fs.nodes@[root as int] is Dir ==> sorted_desc(entries_view(f.entries@))
                && entries_view(f.entries@).to_multiset() == child_listing(
                *fs,
                root as int,
            ).to_multiset(),
            !(fs.nodes@[root as int] is Dir) ==> f.entries@.len() == 0,
    {
        let mut entries: Vec<(u64, Vec<u8>, bool)> = Vec::new();
        match &fs.nodes[root] {
            FsEntry::Dir { children, .. } => {
                let ghost cs = fs.children_of(root as int);
                let ghost listing = child_listing(*fs, root as int);
                let mut k: usize = 0;
                proof {
                    assert(listing.take(0) =~= Seq::empty());
                }
                while k < children.len()
                    invariant
                        fs.wf(),
                        root < fs.spec_len(),
                        fs.nodes@[root as int] is Dir,
                        cs == fs.children_of(root as int),
                        children@ == cs,
                        k <= cs.len(),
                        cache.wf(),
                        consistent(*cache, *fs),
                        closed(*cache, *fs),
                        cache.has_key(fs.path_at(root as int)),
                        listing == child_listing(*fs, root as int),
                        entries_view(entries@) == listing.take(k as int),
                    decreases cs.len() - k,
                {
                    let c = children[k];
                    proof {
                        assert(fs.child_at(root as int, k as int) == c);
                        assert(root < c < fs.spec_len());
                        assert(cache.has_key(fs.path_at(c as int)));
                        lemma_subtree_size_nonneg(fs.nodes@, c as int);
                    }
                    let v = cache.get(fs.path_ref(c)).unwrap();
                    let p = clone_key(fs.path_ref(c));
                    let isf = fs.is_file(c);
                    let ghost pre = entries@;
                    entries.push((v, p, isf));
                    proof {
                        assert(v == subtree_size(fs.nodes@, c as int));
                        assert((subtree_size(fs.nodes@, c as int) as u64) == v);
                        assert(entries_view(entries@) =~= entries_view(pre).push((v, p@, isf)));
                        assert(listing[k as int] == (
                            subtree_size(fs.nodes@, c as int) as u64,
                            fs.path_at(c as int),
                            fs.nodes@[c as int] is File,
                        ));
                        assert(listing.take(k + 1) =~= listing.take(k as int).push(
                            listing[k as int],
                        ));
                        assert(entries_view(entries@) =~= listing.take(k + 1));
                    }
                    k = k + 1;
                }
                proof {
                    assert(listing.take(cs.len() as int) =~= listing);
                }
            },
            _ => {},
        }
        let root_path = clone_key(fs.path_ref(root));
        let par = parent_key(&root_path);
        let parent_resolved = if cache.contains(&par) {
            par
        } else {
            Vec::new()
        };
        let mut f = Folder { size, root: root_path, parent: parent_resolved, entries };
        f.sort();
        f
    }


    /// Expand one uncached directory: fan out over its children, memoizing
    /// each and finally the directory itself.
    #[verifier::rlimit(100)]
    #[verifier::spinoff_prover]
    fn expand_dir(&mut self, fs: &FsSnapshot, i: usize, cache: &mut SizeCache) -> (size: u64)
        requires
            fs.nodes@[i as int] is Dir,
            !old(cache).has_key(fs.path_at(i as int)),
            fs.wf(),
            i < fs.spec_len(),
            old(cache).wf(),
            consistent(*old(cache), *fs),
            closed(*old(cache), *fs),
            old(self).wf(),
            old(self).size + subtree_size(fs.nodes@, i as int) <= u64::MAX,
        ensures
            size == subtree_size(fs.nodes@, i as int),
            final(cache).wf(),
            consistent(*final(cache), *fs),
            closed(*final(cache), *fs),
            forall|q: Seq<u8>|
                #[trigger] old(cache).has_key(q) ==> final(cache).has_key(q)
                    && final(cache).spec_size(q) == old(cache).spec_size(q)
                    && final(cache).spec_is_file(q) == old(cache).spec_is_file(q),
            forall|q: Seq<u8>|
                #[trigger] final(cache).has_key(q) ==> old(cache).has_key(q) || exists|j: int|
                    i <= j < fs.spec_len() && q == fs.path_at(j),
            (fs.nodes@[i as int] is Dir || fs.nodes@[i as int] is UnreadableDir) ==> final(cache).has_key(fs.path_at(i as int)),
            final(self).wf(),
            final(self).timer.interval_ms == old(self).timer.interval_ms,
            old(self).size <= final(self).size,
            final(self).size <= old(self).size + subtree_size(fs.nodes@, i as int),
            old(self).events@.is_prefix_of(final(self).events@),
            final(self).reads >= old(self).reads,
            final(self).clock == old(self).clock,
        decreases fs.spec_len() - i, 0int,
    {
        proof {
            lemma_subtree_size_nonneg(fs.nodes@, i as int);
            assert(self.events@.is_prefix_of(self.events@)) by {
                assert(self.events@ =~= self.events@.subrange(0, self.events@.len() as int));
            }
        }
        match &fs.nodes[i] {
            FsEntry::Dir { children, .. } => {
                        self.bump_reads();
                        let ghost cs = fs.children_of(i as int);
                        let ghost cache1 = *cache;
                        let ghost self1 = *self;
                        let mut child_sizes: Vec<u64> = Vec::new();
                        let mut k: usize = 0;
                        proof {
                            assert(cs.skip(0) =~= cs);
                            assert(subtree_size(fs.nodes@, i as int) == children_size(
                                fs.nodes@,
                                cs,
                                i as int,
                            ));
                        }
                        while k < children.len()
                            invariant
                                fs.wf(),
                                i < fs.spec_len(),
                                fs.nodes@[i as int] is Dir,
                                cs == fs.children_of(i as int),
                                children@ == cs,
                                k <= cs.len(),
                                cache.wf(),
                                consistent(*cache, *fs),
                                closed(*cache, *fs),
                                forall|q: Seq<u8>|
                                    cache1.has_key(q) ==> #[trigger] cache.has_key(q)
                                        && cache.spec_size(q) == cache1.spec_size(q)
                                        && cache.spec_is_file(q) == cache1.spec_is_file(q),
                                forall|q: Seq<u8>|
                                    #[trigger] cache.has_key(q) ==> cache1.has_key(q) || exists|
                                        j: int,
                                    | i < j < fs.spec_len() && q == fs.path_at(j),
                                forall|k2: int|
                                    0 <= k2 < k ==> cache.has_key(
                                        fs.path_at(#[trigger] fs.child_at(i as int, k2)),
                                    ),
                                child_sizes@.len() == k,
                                sum_u64(child_sizes@) + children_size(
                                    fs.nodes@,
                                    cs.skip(k as int),
                                    i as int,
                                ) == children_size(fs.nodes@, cs, i as int),
                                self.wf(),
                                self.timer.interval_ms == self1.timer.interval_ms,
                                self1.size <= self.size,
                                self.size + children_size(fs.nodes@, cs.skip(k as int), i as int)
                                    <= u64::MAX,
                                self.size <= self1.size + children_size(fs.nodes@, cs, i as int)
                                    - children_size(fs.nodes@, cs.skip(k as int), i as int),
                                self1.events@.is_prefix_of(self.events@),
                                self.reads >= self1.reads,
                                self.clock == self1.clock,
                            decreases cs.len() - k,
                        {
                            let c = children[k];
                            proof {
                                assert(fs.child_at(i as int, k as int) == c);
                                assert(i < c < fs.spec_len());
                                lemma_children_size_step(fs.nodes@, cs, i as int, k as int);
                                lemma_subtree_size_nonneg(fs.nodes@, c as int);
                                lemma_children_size_nonneg(
                                    fs.nodes@,
                                    cs.skip(k as int + 1),
                                    i as int,
                                );
                            }
                            let ghost pre_sizes = child_sizes@;
                            let s_val: u64;
                            let hit_c = cache.get(fs.path_ref(c));
                            match hit_c {
                                Some(v) => {
                                    proof {
                                        assert(cache.has_key(fs.path_at(c as int)));
                                        assert(v == subtree_size(fs.nodes@, c as int));
                                    }
                                    s_val = v;
                                },
                                None => {
                                    let ghost cache_a = *cache;
                                    let ghost self_a = *self;
                                    let v = self.recurse(fs, c, cache);
                                    let ghost cache_b = *cache;
                                    let cpath_owned = clone_key(fs.path_ref(c));
                                    let isf = fs.is_file(c);
                                    proof {
                                        if cache.has_key(fs.path_at(c as int)) {
                                            assert(cache.spec_size(fs.path_at(c as int))
                                                == subtree_size(fs.nodes@, c as int));
                                        }
                                        lemma_prefix_trans(
                                            self1.events@,
                                            self_a.events@,
                                            self.events@,
                                        );
                                    }
                                    cache.put(cpath_owned, v, isf);
                                    proof {
                                        // the write-once chain from the loop baseline
                                        assert forall|q: Seq<u8>| cache1.has_key(q) implies
                                        #[trigger] cache.has_key(q) && cache.spec_size(q)
                                            == cache1.spec_size(q) && cache.spec_is_file(q)
                                            == cache1.spec_is_file(q) by {
                                            assert(cache_a.has_key(q));
                                            assert(cache_a.spec_size(q) == cache1.spec_size(q));
                                            assert(cache_a.spec_is_file(q) == cache1.spec_is_file(
                                                q,
                                            ));
                                            assert(cache_b.has_key(q));
                                            assert(cache_b.spec_size(q) == cache_a.spec_size(q));
                                            assert(cache_b.spec_is_file(q) == cache_a.spec_is_file(
                                                q,
                                            ));
                                            assert(cache.has_key(q));
                                            assert(cache.spec_size(q) == cache_b.spec_size(q));
                                            assert(cache.spec_is_file(q) == cache_b.spec_is_file(
                                                q,
                                            ));
                                        }
                                        assert forall|q: Seq<u8>| #[trigger] cache.has_key(q)
                                            implies cache1.has_key(q) || exists|j: int|
                                            i < j < fs.spec_len() && q == fs.path_at(j) by {
                                            if cache_b.has_key(q) {
                                                if cache_a.has_key(q) {
                                                } else {
                                                    let j = choose|j: int|
                                                        c <= j < fs.spec_len() && q == fs.path_at(
                                                            j,
                                                        );
                                                    assert(i < j < fs.spec_len() && q
                                                        == fs.path_at(j));
                                                }
                                            } else {
                                                assert(q == fs.path_at(c as int));
                                            }
                                        }
                                        // consistency survives the memoization of the child
                                        assert forall|j: int|
                                            0 <= j < fs.spec_len() && cache.has_key(
                                                #[trigger] fs.path_at(j),
                                            ) implies cache.spec_size(fs.path_at(j))
                                            == subtree_size(fs.nodes@, j) && cache.spec_is_file(
                                            fs.path_at(j),
                                        ) == (fs.nodes@[j] is File) by {
                                            if cache_b.has_key(fs.path_at(j)) {
                                                assert(cache_b.spec_size(fs.path_at(j))
                                                    == subtree_size(fs.nodes@, j));
                                                assert(cache.spec_size(fs.path_at(j))
                                                    == cache_b.spec_size(fs.path_at(j)));
                                                assert(cache.spec_is_file(fs.path_at(j))
                                                    == cache_b.spec_is_file(fs.path_at(j)));
                                            } else {
                                                assert(fs.path_at(j) == fs.path_at(c as int));
                                                assert(j == c);
                                                assert(cache.spec_size(fs.path_at(j)) == v);
                                                assert(v == subtree_size(fs.nodes@, c as int));
                                                assert(cache.spec_is_file(fs.path_at(j))
                                                    == (fs.nodes@[c as int] is File));
                                            }
                                        }
                                        // bottom-up closure survives too
                                        assert forall|j: int, k2: int|
                                            0 <= j < fs.spec_len() && cache.has_key(
                                                #[trigger] fs.path_at(j),
                                            ) && 0 <= k2 < fs.children_of(j).len() implies
                                        cache.has_key(
                                            fs.path_at(#[trigger] fs.child_at(j, k2)),
                                        ) by {
                                            if cache_b.has_key(fs.path_at(j)) {
                                                assert(cache_b.has_key(
                                                    fs.path_at(fs.child_at(j, k2)),
                                                ));
                                            } else {
                                                assert(fs.path_at(j) == fs.path_at(c as int));
                                                assert(j == c);
                                                assert(fs.nodes@[c as int] is Dir
                                                    || fs.nodes@[c as int] is UnreadableDir
                                                    ==> cache_b.has_key(fs.path_at(c as int)));
                                                assert(fs.children_of(j).len() == 0);
                                            }
                                        }
                                    }
                                    s_val = v;
                                },
                            }
                            child_sizes.push(s_val);
                            proof {
                                lemma_sum_u64_push(pre_sizes, s_val);
                            }
                            k = k + 1;
                        }
                        proof {
                            lemma_children_size_end(fs.nodes@, cs, i as int);
                            assert(cs.skip(cs.len() as int) == cs.skip(k as int));
                            assert(sum_u64(child_sizes@) == children_size(fs.nodes@, cs, i as int));
                        }
                        let total = par_sum(&child_sizes);
                        let own_path = clone_key(fs.path_ref(i));
                        let ghost cache_c = *cache;
                        proof {
                            if cache.has_key(fs.path_at(i as int)) {
                                assert(cache.spec_size(fs.path_at(i as int)) == subtree_size(
                                    fs.nodes@,
                                    i as int,
                                ));
                            }
                        }
                        cache.put(own_path, total, false);
                        proof {
                            assert forall|q: Seq<u8>| old(cache).has_key(q) implies
                            #[trigger] cache.has_key(q) && cache.spec_size(q) == old(cache).spec_size(q) && cache.spec_is_file(q) == old(cache).spec_is_file(
                                q,
                            ) by {
                                assert(cache_c.has_key(q));
                                assert(cache_c.spec_size(q) == old(cache).spec_size(q));
                                assert(cache.has_key(q));
                                assert(cache.spec_size(q) == cache_c.spec_size(q));
                                assert(cache.spec_is_file(q) == cache_c.spec_is_file(q));
                            }
                            assert forall|q: Seq<u8>| #[trigger] cache.has_key(q) implies old(cache).has_key(q) || exists|j: int|
                                i <= j < fs.spec_len() && q == fs.path_at(j) by {
                                if cache_c.has_key(q) {
                                    if !old(cache).has_key(q) {
                                        let j = choose|j: int|
                                            i < j < fs.spec_len() && q == fs.path_at(j);
                                        assert(i <= j < fs.spec_len() && q == fs.path_at(j));
                                    }
                                } else {
                                    assert(q == fs.path_at(i as int));
                                }
                            }
                            assert forall|j: int|
                                0 <= j < fs.spec_len() && cache.has_key(
                                    #[trigger] fs.path_at(j),
                                ) implies cache.spec_size(fs.path_at(j)) == subtree_size(
                                fs.nodes@,
                                j,
                            ) && cache.spec_is_file(fs.path_at(j)) == (fs.nodes@[j] is File) by {
                                if cache_c.has_key(fs.path_at(j)) {
                                    assert(cache_c.spec_size(fs.path_at(j)) == subtree_size(
                                        fs.nodes@,
                                        j,
                                    ));
                                    assert(cache.spec_size(fs.path_at(j)) == cache_c.spec_size(
                                        fs.path_at(j),
                                    ));
                                } else {
                                    assert(fs.path_at(j) == fs.path_at(i as int));
                                    assert(j == i);
                                    assert(total == subtree_size(fs.nodes@, i as int));
                                    assert(cache.spec_size(fs.path_at(j)) == total);
                                    assert(!(fs.nodes@[j] is File));
                                }
                            }
                            assert forall|j: int, k2: int|
                                0 <= j < fs.spec_len() && cache.has_key(#[trigger] fs.path_at(j))
                                    && 0 <= k2 < fs.children_of(j).len() implies cache.has_key(
                                fs.path_at(#[trigger] fs.child_at(j, k2)),
                            ) by {
                                if cache_c.has_key(fs.path_at(j)) {
                                    assert(cache_c.has_key(fs.path_at(fs.child_at(j, k2))));
                                } else {
                                    assert(fs.path_at(j) == fs.path_at(i as int));
                                    assert(j == i);
                                    assert(cache_c.has_key(
                                        fs.path_at(fs.child_at(i as int, k2)),
                                    ));
                                }
                            }
                        }
                        total
            },
            _ => {
                proof {
                    assert(false);
                }
                0
            },
        }
    }

    /// Recursive size of node `i`: files are measured and added to the
    /// running total; directories are served from the cache when possible,
    /// and otherwise fan out over their children, memoizing every child and
    /// finally themselves; unreadable or vanished entries contribute zero.
    #[verifier::rlimit(100)]
    #[verifier::spinoff_prover]
    pub fn recurse(&mut self, fs: &FsSnapshot, i: usize, cache: &mut SizeCache) -> (size: u64)
        requires
            fs.wf(),
            i < fs.spec_len(),
            old(cache).wf(),
            consistent(*old(cache), *fs),
            closed(*old(cache), *fs),
            old(self).wf(),
            old(self).size + subtree_size(fs.nodes@, i as int) <= u64::MAX,
        ensures
            size == subtree_size(fs.nodes@, i as int),
            final(cache).wf(),
            consistent(*final(cache), *fs),
            closed(*final(cache), *fs),
            forall|q: Seq<u8>|
                #[trigger] old(cache).has_key(q) ==> final(cache).has_key(q)
                    && final(cache).spec_size(q) == old(cache).spec_size(q)
                    && final(cache).spec_is_file(q) == old(cache).spec_is_file(q),
            forall|q: Seq<u8>|
                #[trigger] final(cache).has_key(q) ==> old(cache).has_key(q) || exists|j: int|
                    i <= j < fs.spec_len() && q == fs.path_at(j),
            !(fs.nodes@[i as int] is Other) ==> final(cache).has_key(fs.path_at(i as int)),
            final(self).wf(),
            final(self).timer.interval_ms == old(self).timer.interval_ms,
            old(self).size <= final(self).size,
            final(self).size <= old(self).size + subtree_size(fs.nodes@, i as int),
            old(self).events@.is_prefix_of(final(self).events@),
            final(self).reads >= old(self).reads,
            final(self).clock == old(self).clock,
            (fs.nodes@[i as int] is Dir || fs.nodes@[i as int] is UnreadableDir) && old(cache).has_key(fs.path_at(i as int)) ==> *final(self) == *old(self) && *final(cache) == *old(cache),
            fs.nodes@[i as int] is File ==> final(self).size == old(self).size + subtree_size(
                fs.nodes@,
                i as int,
            ) && forall|q: Seq<u8>|
                #[trigger] final(cache).has_key(q) == (old(cache).has_key(q) || q == fs.path_at(
                    i as int,
                )),
            fs.nodes@[i as int] is Other ==> final(self).events == old(self).events && final(self).size == old(self).size && *final(cache) == *old(cache),
        decreases fs.spec_len() - i, 1int,
    {
        proof {
            lemma_subtree_size_nonneg(fs.nodes@, i as int);
            assert(self.events@.is_prefix_of(self.events@)) by {
                assert(self.events@ =~= self.events@.subrange(0, self.events@.len() as int));
            }
        }
        match &fs.nodes[i] {
            FsEntry::File { size, .. } => {
                self.bump_reads();
                self.measure_file(*size);
                // a file is memoized as soon as it is measured
                let own_path = clone_key(fs.path_ref(i));
                proof {
                    if cache.has_key(fs.path_at(i as int)) {
                        assert(cache.spec_size(fs.path_at(i as int)) == subtree_size(
                            fs.nodes@,
                            i as int,
                        ));
                        assert(cache.spec_is_file(fs.path_at(i as int)) == (fs.nodes@[i as int]
                            is File));
                    }
                }
                cache.put(own_path, *size, true);
                proof {
                    assert forall|j: int|
                        0 <= j < fs.spec_len() && cache.has_key(#[trigger] fs.path_at(j)) implies
                    cache.spec_size(fs.path_at(j)) == subtree_size(fs.nodes@, j)
                        && cache.spec_is_file(fs.path_at(j)) == (fs.nodes@[j] is File) by {
                        if old(cache).has_key(fs.path_at(j)) {
                            assert(old(cache).spec_size(fs.path_at(j)) == subtree_size(
                                fs.nodes@,
                                j,
                            ));
                            assert(cache.spec_size(fs.path_at(j)) == old(cache).spec_size(
                                fs.path_at(j),
                            ));
                            assert(cache.spec_is_file(fs.path_at(j)) == old(cache).spec_is_file(
                                fs.path_at(j),
                            ));
                        } else {
                            assert(fs.path_at(j) == fs.path_at(i as int));
                            assert(j == i);
                            assert(cache.spec_size(fs.path_at(j)) == *size);
                            assert(cache.spec_is_file(fs.path_at(j)));
                        }
                    }
                    assert forall|j: int, k2: int|
                        0 <= j < fs.spec_len() && cache.has_key(#[trigger] fs.path_at(j)) && 0
                            <= k2 < fs.children_of(j).len() implies cache.has_key(
                        fs.path_at(#[trigger] fs.child_at(j, k2)),
                    ) by {
                        if old(cache).has_key(fs.path_at(j)) {
                            assert(old(cache).has_key(fs.path_at(fs.child_at(j, k2))));
                        } else {
                            assert(fs.path_at(j) == fs.path_at(i as int));
                            assert(j == i);
                            assert(fs.children_of(j).len() == 0);
                        }
                    }
                    assert forall|q: Seq<u8>| #[trigger] cache.has_key(q) implies old(cache).has_key(q) || exists|j: int|
                        i <= j < fs.spec_len() && q == fs.path_at(j) by {
                        if !old(cache).has_key(q) {
                            assert(q == fs.path_at(i as int));
                        }
                    }
                }
                *size
            },
            FsEntry::Dir { children, .. } => {
                let hit = cache.get(fs.path_ref(i));
                match hit {
                    Some(v) => {
                        proof {
                            assert(cache.has_key(fs.path_at(i as int)));
                            assert(v == subtree_size(fs.nodes@, i as int));
                        }
                        v
                    },
                    None => { self.expand_dir(fs, i, cache) },
                }
            },
            FsEntry::UnreadableDir { .. } => {
                let hit = cache.get(fs.path_ref(i));
                match hit {
                    Some(v) => {
                        proof {
                            assert(cache.has_key(fs.path_at(i as int)));
                            assert(v == subtree_size(fs.nodes@, i as int));
                        }
                        v
                    },
                    None => {
                        self.bump_reads();
                        let own_path = clone_key(fs.path_ref(i));
                        cache.put(own_path, 0, false);
                        proof {
                            assert forall|q: Seq<u8>| old(cache).has_key(q) implies cache.has_key(
                                q,
                            ) && cache.spec_size(q) == old(cache).spec_size(q)
                                && cache.spec_is_file(q) == old(cache).spec_is_file(q) by {
                                assert(cache.has_key(q));
                                assert(cache.spec_size(q) == old(cache).spec_size(q));
                                assert(cache.spec_is_file(q) == old(cache).spec_is_file(q));
                            }
                            assert forall|j: int|
                                0 <= j < fs.spec_len() && cache.has_key(
                                    #[trigger] fs.path_at(j),
                                ) implies cache.spec_size(fs.path_at(j)) == subtree_size(
                                fs.nodes@,
                                j,
                            ) && cache.spec_is_file(fs.path_at(j)) == (fs.nodes@[j] is File) by {
                                if old(cache).has_key(fs.path_at(j)) {
                                } else {
                                    assert(fs.path_at(j) == fs.path_at(i as int));
                                    assert(j == i);
                                }
                            }
                            assert forall|j: int, k2: int|
                                0 <= j < fs.spec_len() && cache.has_key(#[trigger] fs.path_at(j))
                                    && 0 <= k2 < fs.children_of(j).len() implies cache.has_key(
                                fs.path_at(#[trigger] fs.child_at(j, k2)),
                            ) by {
                                if old(cache).has_key(fs.path_at(j)) {
                                    assert(old(cache).has_key(fs.path_at(fs.child_at(j, k2))));
                                } else {
                                    assert(fs.path_at(j) == fs.path_at(i as int));
                                    assert(j == i);
                                    assert(fs.children_of(j).len() == 0);
                                }
                            }
                            assert forall|q: Seq<u8>| #[trigger] cache.has_key(q) implies old(cache).has_key(q) || exists|j: int|
                                i <= j < fs.spec_len() && q == fs.path_at(j) by {
                                if !old(cache).has_key(q) {
                                    assert(q == fs.path_at(i as int));
                                }
                            }
                        }
                        0
                    },
                }
            },
            FsEntry::Other { .. } => {
                self.bump_reads();
                0
            },
        }
    }
}

} // verus!
