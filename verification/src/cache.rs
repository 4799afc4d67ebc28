use crate::pathkey::keys_equal;
use vstd::prelude::*;

verus! {

/// One memoized measurement: a path key, its recursive byte size, and
/// whether the path names a regular file.
pub struct CacheEntry {
    pub path: Vec<u8>,
    pub size: u64,
    pub is_file: bool,
}

/// A path-keyed size cache. Keys are unique and entries are write-once: once
/// a path is present its size never changes for the life of the cache.
pub struct SizeCache {
    pub entries: Vec<CacheEntry>,
}

impl SizeCache {
    pub open spec fn spec_len(self) -> int {
        self.entries@.len() as int
    }

    pub open spec fn key_at(self, i: int) -> Seq<u8> {
        self.entries@[i].path@
    }

    /// Keys are pairwise distinct.
    pub open spec fn wf(self) -> bool {
        forall|i: int, j: int|
            0 <= i < j < self.spec_len() ==> #[trigger] self.key_at(i) != #[trigger] self.key_at(j)
    }

    pub open spec fn has_key(self, p: Seq<u8>) -> bool {
        exists|i: int| 0 <= i < self.spec_len() && self.key_at(i) == p
    }

    pub open spec fn idx_of(self, p: Seq<u8>) -> int {
        choose|i: int| 0 <= i < self.spec_len() && self.key_at(i) == p
    }

    /// The size recorded for a present key.
    pub open spec fn spec_size(self, p: Seq<u8>) -> u64 {
        self.entries@[self.idx_of(p)].size
    }

    /// The file flag recorded for a present key.
    pub open spec fn spec_is_file(self, p: Seq<u8>) -> bool {
        self.entries@[self.idx_of(p)].is_file
    }

    /// In a well-formed cache an entry's position is determined by its key.
    pub proof fn lemma_key_determines_entry(self, i: int)
        requires
            self.wf(),
            0 <= i < self.spec_len(),
        ensures
            self.has_key(self.key_at(i)),
            self.idx_of(self.key_at(i)) == i,
    {
        let p = self.key_at(i);
        assert(self.has_key(p));
        let j = self.idx_of(p);
        assert(0 <= j < self.spec_len() && self.key_at(j) == p);
        if i < j {
            assert(self.key_at(i) != self.key_at(j));
        }
        if j < i {
            assert(self.key_at(j) != self.key_at(i));
        }
    }

    pub fn new() -> (c: SizeCache)
        ensures
            c.wf(),
            c.spec_len() == 0,
            forall|p: Seq<u8>| !c.has_key(p),
    {
        SizeCache { entries: Vec::new() }
    }

    pub fn num_entries(&self) -> (n: usize)
        ensures
            n == self.spec_len(),
    {
        self.entries.len()
    }

    pub fn entry_at(&self, i: usize) -> (e: &CacheEntry)
        requires
            i < self.spec_len(),
        ensures
            e == self.entries@[i as int],
    {
        &self.entries[i]
    }

    /// Position of the entry for a key, if the key is present.
    fn find(&self, p: &Vec<u8>) -> (r: Option<usize>)
        ensures
            match r {
                Some(i) => 0 <= i < self.spec_len() && self.key_at(i as int) == p@,
                None => !self.has_key(p@),
            },
    {
        let mut i: usize = 0;
        while i < self.entries.len()
            invariant
                i <= self.spec_len(),
                forall|j: int| 0 <= j < i ==> #[trigger] self.key_at(j) != p@,
            decreases self.spec_len() - i,
        {
            if keys_equal(&self.entries[i].path, p) {
                return Some(i);
            }
            i = i + 1;
        }
        None
    }

    pub fn contains(&self, p: &Vec<u8>) -> (r: bool)
        requires
            self.wf(),
        ensures
            r == self.has_key(p@),
    {
        match self.find(p) {
            Some(i) => {
                proof {
                    self.lemma_key_determines_entry(i as int);
                }
                true
            },
            None => false,
        }
    }

    pub fn get(&self, p: &Vec<u8>) -> (r: Option<u64>)
        requires
            self.wf(),
        ensures
            (r is Some) == self.has_key(p@),
            r is Some ==> r->Some_0 == self.spec_size(p@),
    {
        match self.find(p) {
            Some(i) => {
                proof {
                    self.lemma_key_determines_entry(i as int);
                }
                Some(self.entries[i].size)
            },
            None => None,
        }
    }

    /// Record a measurement, keeping the existing entry when the path is
    /// already present: entries are write-once, and every writer computes the
    /// same value for a given path.
    pub fn put(&mut self, path: Vec<u8>, size: u64, is_file: bool)
        requires
            old(self).wf(),
            old(self).has_key(path@) ==> old(self).spec_size(path@) == size && old(
                self,
            ).spec_is_file(path@) == is_file,
        ensures
            final(self).wf(),
            final(self).has_key(path@),
            final(self).spec_size(path@) == size,
            final(self).spec_is_file(path@) == is_file,
            forall|q: Seq<u8>|
                #[trigger] final(self).has_key(q) == (old(self).has_key(q) || q == path@),
            forall|q: Seq<u8>|
                old(self).has_key(q) ==> #[trigger] final(self).spec_size(q) == old(
                    self,
                ).spec_size(q) && final(self).spec_is_file(q) == old(self).spec_is_file(q),
    {
        if !self.contains(&path) {
            self.insert_new(path, size, is_file);
        }
    }

    /// Record the measurement of a path not measured before. All earlier
    /// entries are left untouched, so a present key's size never changes.
    pub fn insert_new(&mut self, path: Vec<u8>, size: u64, is_file: bool)
        requires
            old(self).wf(),
            !old(self).has_key(path@),
        ensures
            final(self).wf(),
            final(self).spec_len() == old(self).spec_len() + 1,
            final(self).entries@ == old(self).entries@.push(
                CacheEntry { path, size, is_file },
            ),
            final(self).has_key(path@),
            final(self).spec_size(path@) == size,
            final(self).spec_is_file(path@) == is_file,
            forall|q: Seq<u8>|
                #[trigger] final(self).has_key(q) == (old(self).has_key(q) || q == path@),
            forall|q: Seq<u8>|
                old(self).has_key(q) ==> #[trigger] final(self).spec_size(q) == old(
                    self,
                ).spec_size(q) && final(self).spec_is_file(q) == old(self).spec_is_file(q),
    {
        let ghost path_view = path@;
        let ghost old_self = *self;
        self.entries.push(CacheEntry { path, size, is_file });
        proof {
            let n = old_self.spec_len();
            assert(forall|i: int| 0 <= i < n ==> self.key_at(i) == old_self.key_at(i));
            assert(self.key_at(n) == path_view);
            assert forall|i: int, j: int| 0 <= i < j < self.spec_len() implies #[trigger] self.key_at(
                i,
            ) != #[trigger] self.key_at(j) by {
                if j < n {
                    assert(old_self.key_at(i) != old_self.key_at(j));
                } else {
                    assert(self.key_at(j) == path_view);
                    assert(old_self.has_key(old_self.key_at(i)));
                }
            }
            self.lemma_key_determines_entry(n);
            assert forall|q: Seq<u8>| #[trigger] self.has_key(q) == (old_self.has_key(q) || q
                == path_view) by {
                if self.has_key(q) {
                    let i = choose|i: int| 0 <= i < self.spec_len() && self.key_at(i) == q;
                    if i < n {
                        assert(old_self.key_at(i) == self.key_at(i));
                        assert(old_self.has_key(q));
                    }
                }
                if old_self.has_key(q) {
                    let i = choose|i: int| 0 <= i < n && old_self.key_at(i) == q;
                    assert(self.key_at(i) == q);
                }
            }
            assert forall|q: Seq<u8>| old_self.has_key(q) implies #[trigger] self.spec_size(q)
                == old_self.spec_size(q) && self.spec_is_file(q) == old_self.spec_is_file(q) by {
                let i = choose|i: int| 0 <= i < n && old_self.key_at(i) == q;
                old_self.lemma_key_determines_entry(i);
                self.lemma_key_determines_entry(i);
            }
        }
    }
}

} // verus!
