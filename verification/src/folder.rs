use vstd::multiset::Multiset;
use vstd::prelude::*;
use vstd::seq_lib::group_to_multiset_ensures;

verus! {

/// What a listing entry abstracts to: size, path key bytes, file flag.
pub open spec fn entries_view(es: Seq<(u64, Vec<u8>, bool)>) -> Seq<(u64, Seq<u8>, bool)> {
    es.map(|k: int, e: (u64, Vec<u8>, bool)| (e.0, e.1@, e.2))
}

/// Entries ordered by non-increasing size.
pub open spec fn sorted_desc(s: Seq<(u64, Seq<u8>, bool)>) -> bool {
    forall|r: int, t: int| #![trigger s[r], s[t]] 0 <= r <= t < s.len() ==> s[r].0 >= s[t].0
}

/// The final snapshot of one scan: the total size, the scanned root, its
/// resolved parent (empty when the parent is not a cached path), and the
/// root's immediate children as `(size, path, is_file)` entries.
pub struct Folder {
    pub size: u64,
    pub root: Vec<u8>,
    pub parent: Vec<u8>,
    pub entries: Vec<(u64, Vec<u8>, bool)>,
}

impl Folder {
    pub fn new() -> (f: Folder)
        ensures
            f.size == 0,
            f.root@ == Seq::<u8>::empty(),
            f.parent@ == Seq::<u8>::empty(),
            f.entries@.len() == 0,
    {
        Folder { size: 0, root: Vec::new(), parent: Vec::new(), entries: Vec::new() }
    }

    /// Order the entries by non-increasing size, keeping exactly the same
    /// entries.
    pub fn sort(&mut self)
        ensures
            final(self).size == old(self).size,
            final(self).root == old(self).root,
            final(self).parent == old(self).parent,
            final(self).entries@.len() == old(self).entries@.len(),
            sorted_desc(entries_view(final(self).entries@)),
            entries_view(final(self).entries@).to_multiset() == entries_view(
                old(self).entries@,
            ).to_multiset(),
    {
        broadcast use group_to_multiset_ensures;

        let ghost orig = entries_view(old(self).entries@);
        let mut sorted: Vec<(u64, Vec<u8>, bool)> = Vec::new();
        while self.entries.len() > 0
            invariant
                sorted@.len() + self.entries@.len() == old(self).entries@.len(),
                sorted_desc(entries_view(sorted@)),
                entries_view(sorted@).to_multiset().add(entries_view(self.entries@).to_multiset())
                    =~= orig.to_multiset(),
                forall|r: int, j: int|
                    #![trigger entries_view(sorted@)[r], entries_view(self.entries@)[j]]
                    0 <= r < sorted@.len() && 0 <= j < self.entries@.len() ==> entries_view(
                        sorted@,
                    )[r].0 >= entries_view(self.entries@)[j].0,
                self.size == old(self).size,
                self.root == old(self).root,
                self.parent == old(self).parent,
            decreases self.entries.len(),
        {
            let mut m: usize = 0;
            let mut j: usize = 1;
            while j < self.entries.len()
                invariant
                    self.entries@.len() > 0,
                    m < j,
                    j <= self.entries@.len(),
                    forall|j2: int| 0 <= j2 < j ==> self.entries@[j2].0 <= self.entries@[m as int].0,
                decreases self.entries@.len() - j,
            {
                if self.entries[j].0 > self.entries[m].0 {
                    m = j;
                }
                j = j + 1;
            }
            let ghost pre = *self;
            let ghost pre_sorted = sorted@;
            let e = self.entries.remove(m);
            proof {
                let pv = entries_view(pre.entries@);
                let ev = (e.0, e.1@, e.2);
                assert(pv[m as int] == ev);
                assert(entries_view(self.entries@) =~= pv.remove(m as int));
                vstd::seq_lib::to_multiset_remove(pv, m as int);
                vstd::seq_lib::to_multiset_contains(pv, ev);
                assert(pv.to_multiset().count(ev) > 0) by {
                    assert(pv.contains(ev));
                }
            }
            sorted.push(e);
            proof {
                let pv = entries_view(pre.entries@);
                let ev = (e.0, e.1@, e.2);
                assert(entries_view(sorted@) =~= entries_view(pre_sorted).push(ev));
                vstd::seq_lib::to_multiset_build(entries_view(pre_sorted), ev);
                assert(entries_view(sorted@).to_multiset() =~= entries_view(
                    pre_sorted,
                ).to_multiset().insert(ev));
                assert(entries_view(pre_sorted).to_multiset().insert(ev).add(
                    pv.to_multiset().remove(ev),
                ) =~= entries_view(pre_sorted).to_multiset().add(pv.to_multiset()));
                // the element picked is a maximum of what remained
                assert(forall|j2: int|
                    0 <= j2 < pv.len() ==> #[trigger] pv[j2].0 <= ev.0);
                assert forall|r: int, t: int|
                    #![trigger entries_view(sorted@)[r], entries_view(sorted@)[t]]
                    0 <= r <= t < sorted@.len() implies entries_view(sorted@)[r].0 >= entries_view(
                    sorted@,
                )[t].0 by {
                    if t < sorted@.len() - 1 {
                        assert(entries_view(pre_sorted)[r] == entries_view(sorted@)[r]);
                        assert(entries_view(pre_sorted)[t] == entries_view(sorted@)[t]);
                    } else if r < t {
                        assert(entries_view(pre_sorted)[r] == entries_view(sorted@)[r]);
                        assert(entries_view(pre_sorted)[r].0 >= pv[m as int].0);
                    }
                }
                assert forall|r: int, j2: int|
                    #![trigger entries_view(sorted@)[r], entries_view(self.entries@)[j2]]
                    0 <= r < sorted@.len() && 0 <= j2 < self.entries@.len() implies entries_view(
                    sorted@,
                )[r].0 >= entries_view(self.entries@)[j2].0 by {
                    assert(entries_view(self.entries@)[j2] == pv.remove(m as int)[j2]);
                    let orig_j = if j2 < m { j2 } else { j2 + 1 };
                    assert(pv.remove(m as int)[j2] == pv[orig_j]);
                    assert(pv[orig_j].0 <= ev.0);
                    if r < sorted@.len() - 1 {
                        assert(entries_view(sorted@)[r] == entries_view(pre_sorted)[r]);
                        assert(entries_view(pre_sorted)[r].0 >= pv[orig_j].0);
                    }
                }
            }
        }
        proof {
            assert(entries_view(self.entries@).to_multiset() =~= Multiset::empty());
            assert(entries_view(sorted@).to_multiset().add(Multiset::empty()) =~= entries_view(
                sorted@,
            ).to_multiset());
        }
        self.entries = sorted;
    }
}

} // verus!
