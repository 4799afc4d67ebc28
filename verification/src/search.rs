use crate::cache::{CacheEntry, SizeCache};
use crate::folder::{entries_view, sorted_desc, Folder};
use crate::pathkey::{clone_key, contains_sub, file_name_key, file_name_of, has_substring};
use core::sync::atomic::{AtomicBool, Ordering};
use vstd::prelude::*;

verus! {

/// Cooperative cancellation: a shared flag set from outside and polled by an
/// in-flight search at every iteration.
pub struct CancelFlag {
    pub flag: AtomicBool,
}

impl CancelFlag {
    pub fn new() -> CancelFlag {
        CancelFlag { flag: AtomicBool::new(false) }
    }

    /// Ask the in-flight search to stop at its next check point.
    pub fn cancel(&self) {
        self.flag.store(true, Ordering::Relaxed);
    }

    /// Whether cancellation was requested. Another thread may change the
    /// answer at any moment, so nothing is promised of the value.
    pub fn is_set(&self) -> bool {
        self.flag.load(Ordering::Relaxed)
    }
}

/// A cached path matches when it contains the path filter and its final
/// component contains the name pattern.
pub open spec fn entry_matches(path: Seq<u8>, pat: Seq<u8>, path_filter: Seq<u8>) -> bool {
    has_substring(path, path_filter) && has_substring(file_name_of(path), pat)
}

/// The matching entries of a cache prefix, in cache order.
pub open spec fn matching_entries(es: Seq<CacheEntry>, pat: Seq<u8>, path_filter: Seq<u8>) -> Seq<
    (u64, Seq<u8>, bool),
>
    decreases es.len(),
{
    if es.len() == 0 {
        Seq::empty()
    } else {
        let rest = matching_entries(es.drop_last(), pat, path_filter);
        if entry_matches(es.last().path@, pat, path_filter) {
            rest.push((es.last().size, es.last().path@, es.last().is_file))
        } else {
            rest
        }
    }
}

/// Search the whole cache: every entry whose path contains `path_filter` and
/// whose file name contains `pat`, sorted by non-increasing size, carried in
/// an otherwise empty `Folder` as the original search reports it.
pub fn search_all(cache: &SizeCache, pat: &Vec<u8>, path_filter: &Vec<u8>) -> (f: Folder)
    requires
        cache.wf(),
    ensures
        f.size == 0,
        f.root@ == Seq::<u8>::empty(),
        f.parent@ == Seq::<u8>::empty(),
        sorted_desc(entries_view(f.entries@)),
        entries_view(f.entries@).to_multiset() == matching_entries(
            cache.entries@,
            pat@,
            path_filter@,
        ).to_multiset(),
{
    let entries = collect_matches(cache, pat, path_filter);
    let mut f = Folder { size: 0, root: Vec::new(), parent: Vec::new(), entries };
    f.sort();
    f
}

/// Search with cooperative cancellation, as the host exposes it: polls the
/// flag before each entry and gives the whole result back empty once the
/// flag is observed set, abandoning any partial result.
pub fn search(cache: &SizeCache, pat: &Vec<u8>, path_filter: &Vec<u8>, cancel: &CancelFlag) -> (f:
    Folder)
    requires
        cache.wf(),
    ensures
        f.size == 0,
        f.root@ == Seq::<u8>::empty(),
        f.parent@ == Seq::<u8>::empty(),
        (sorted_desc(entries_view(f.entries@)) && entries_view(f.entries@).to_multiset()
            == matching_entries(cache.entries@, pat@, path_filter@).to_multiset()) || f.entries@.len()
            == 0,
{
    let mut entries: Vec<(u64, Vec<u8>, bool)> = Vec::new();
    let mut i: usize = 0;
    proof {
        assert(cache.entries@.take(0) =~= Seq::empty());
    }
    while i < cache.num_entries()
        invariant
            cache.wf(),
            i <= cache.spec_len(),
            entries_view(entries@) == matching_entries(
                cache.entries@.take(i as int),
                pat@,
                path_filter@,
            ),
        decreases cache.spec_len() - i,
    {
        if cancel.is_set() {
            return Folder::new();
        }
        push_if_match(cache, i, pat, path_filter, &mut entries);
        i = i + 1;
    }
    proof {
        assert(cache.entries@.take(cache.spec_len() as int) =~= cache.entries@);
    }
    let mut f = Folder { size: 0, root: Vec::new(), parent: Vec::new(), entries };
    f.sort();
    f
}

/// The filtering pass shared by both searches.
fn collect_matches(cache: &SizeCache, pat: &Vec<u8>, path_filter: &Vec<u8>) -> (entries: Vec<
    (u64, Vec<u8>, bool),
>)
    requires
        cache.wf(),
    ensures
        entries_view(entries@) == matching_entries(cache.entries@, pat@, path_filter@),
{
    let mut entries: Vec<(u64, Vec<u8>, bool)> = Vec::new();
    let mut i: usize = 0;
    proof {
        assert(cache.entries@.take(0) =~= Seq::empty());
    }
    while i < cache.num_entries()
        invariant
            cache.wf(),
            i <= cache.spec_len(),
            entries_view(entries@) == matching_entries(
                cache.entries@.take(i as int),
                pat@,
                path_filter@,
            ),
        decreases cache.spec_len() - i,
    {
        push_if_match(cache, i, pat, path_filter, &mut entries);
        i = i + 1;
    }
    proof {
        assert(cache.entries@.take(cache.spec_len() as int) =~= cache.entries@);
    }
    entries
}

/// Append entry `i` of the cache when it matches the two filters.
fn push_if_match(
    cache: &SizeCache,
    i: usize,
    pat: &Vec<u8>,
    path_filter: &Vec<u8>,
    entries: &mut Vec<(u64, Vec<u8>, bool)>,
)
    requires
        cache.wf(),
        i < cache.spec_len(),
        entries_view(old(entries)@) == matching_entries(
            cache.entries@.take(i as int),
            pat@,
            path_filter@,
        ),
    ensures
        entries_view(final(entries)@) == matching_entries(
            cache.entries@.take(i + 1),
            pat@,
            path_filter@,
        ),
{
    let ghost pre = entries@;
    let e = cache.entry_at(i);
    let mut matched = false;
    if contains_sub(&e.path, path_filter) {
        let name = file_name_key(&e.path);
        if contains_sub(&name, pat) {
            entries.push((e.size, clone_key(&e.path), e.is_file));
            matched = true;
        }
    }
    proof {
        let taken = cache.entries@.take(i + 1);
        assert(taken.drop_last() =~= cache.entries@.take(i as int));
        assert(taken.last() == cache.entries@[i as int]);
        if matched {
            assert(entries_view(entries@) =~= entries_view(pre).push(
                (
                    cache.entries@[i as int].size,
                    cache.entries@[i as int].path@,
                    cache.entries@[i as int].is_file,
                ),
            ));
        }
        assert(entries_view(entries@) =~= matching_entries(taken, pat@, path_filter@));
    }
}

} // verus!
