use vstd::prelude::*;

verus! {

/// Path keys are normalized absolute paths held as byte strings, with 47
/// (`/`) as the separator.
pub const SEPARATOR: u8 = 47;

/// The needle occurs in the haystack starting at position `k`.
pub open spec fn matches_at(hay: Seq<u8>, needle: Seq<u8>, k: int) -> bool {
    &&& 0 <= k
    &&& k + needle.len() <= hay.len()
    &&& hay.subrange(k, k + needle.len()) == needle
}

/// The needle occurs somewhere in the haystack.
pub open spec fn has_substring(hay: Seq<u8>, needle: Seq<u8>) -> bool {
    exists|k: int| matches_at(hay, needle, k)
}

/// Index of the last separator of the path, or -1 when it has none.
pub open spec fn last_sep(p: Seq<u8>) -> int
    decreases p.len(),
{
    if p.len() == 0 {
        -1
    } else if p[p.len() - 1] == SEPARATOR {
        p.len() - 1
    } else {
        last_sep(p.drop_last())
    }
}

/// The final path component: everything after the last separator.
pub open spec fn file_name_of(p: Seq<u8>) -> Seq<u8> {
    p.subrange(last_sep(p) + 1, p.len() as int)
}

/// The parent path: everything before the last separator; the root path when
/// the last separator leads a longer path; empty when the path has no
/// separator or is the root path itself, which has no parent.
pub open spec fn parent_of(p: Seq<u8>) -> Seq<u8> {
    if last_sep(p) == -1 {
        Seq::empty()
    } else if last_sep(p) == 0 {
        if p.len() == 1 {
            Seq::empty()
        } else {
            seq![SEPARATOR]
        }
    } else {
        p.subrange(0, last_sep(p))
    }
}

/// `last_sep` names the last position holding a separator.
pub proof fn lemma_last_sep(p: Seq<u8>)
    ensures
        -1 <= last_sep(p) < p.len(),
        last_sep(p) >= 0 ==> p[last_sep(p)] == SEPARATOR,
        forall|j: int| last_sep(p) < j < p.len() ==> p[j] != SEPARATOR,
    decreases p.len(),
{
    if p.len() > 0 && p[p.len() - 1] != SEPARATOR {
        lemma_last_sep(p.drop_last());
        assert(forall|j: int|
            0 <= j < p.len() - 1 ==> p[j] == p.drop_last()[j]);
    }
}

/// A fresh copy of a path key.
pub fn clone_key(v: &Vec<u8>) -> (r: Vec<u8>)
    ensures
        r@ == v@,
{
    let mut r: Vec<u8> = Vec::new();
    let mut i: usize = 0;
    while i < v.len()
        invariant
            i <= v.len(),
            r@ == v@.subrange(0, i as int),
        decreases v.len() - i,
    {
        r.push(v[i]);
        proof {
            assert(r@ =~= v@.subrange(0, i + 1));
        }
        i = i + 1;
    }
    proof {
        assert(r@ =~= v@);
    }
    r
}

/// Whether two path keys hold the same bytes.
pub fn keys_equal(a: &Vec<u8>, b: &Vec<u8>) -> (r: bool)
    ensures
        r == (a@ == b@),
{
    if a.len() != b.len() {
        return false;
    }
    let mut i: usize = 0;
    while i < a.len()
        invariant
            a@.len() == b@.len(),
            i <= a.len(),
            forall|j: int| 0 <= j < i ==> a@[j] == b@[j],
        decreases a.len() - i,
    {
        if a[i] != b[i] {
            return false;
        }
        i = i + 1;
    }
    proof {
        assert(a@ =~= b@);
    }
    true
}

/// Whether the needle occurs in the haystack as a contiguous run of bytes.
/// An empty needle occurs in every haystack.
pub fn contains_sub(hay: &Vec<u8>, needle: &Vec<u8>) -> (r: bool)
    ensures
        r == has_substring(hay@, needle@),
{
    if needle.len() > hay.len() {
        return false;
    }
    if needle.len() == 0 {
        proof {
            assert(hay@.subrange(0, 0) =~= needle@);
            assert(matches_at(hay@, needle@, 0));
        }
        return true;
    }
    let last_start: usize = hay.len() - needle.len();
    let mut k: usize = 0;
    while k <= last_start
        invariant
            hay@.len() <= usize::MAX,
            1 <= needle@.len() <= hay@.len(),
            last_start == hay@.len() - needle@.len(),
            last_start < usize::MAX,
            k <= last_start + 1,
            forall|k2: int| 0 <= k2 < k ==> !matches_at(hay@, needle@, k2),
        decreases last_start - k + 1,
    {
        let mut j: usize = 0;
        let mut mismatch = false;
        while j < needle.len() && !mismatch
            invariant
                hay@.len() <= usize::MAX,
                k + needle@.len() <= hay@.len(),
                j <= needle@.len(),
                !mismatch ==> forall|j2: int| 0 <= j2 < j ==> hay@[k + j2] == needle@[j2],
                mismatch ==> exists|j2: int|
                    0 <= j2 < needle@.len() && hay@[k + j2] != needle@[j2],
            decreases needle.len() - j + (if mismatch {
                0int
            } else {
                1int
            }),
        {
            if hay[k + j] != needle[j] {
                mismatch = true;
                proof {
                    let jw: int = j as int;
                    assert(0 <= jw < needle@.len() && hay@[k + jw] != needle@[jw]);
                    assert(exists|j2: int|
                        0 <= j2 < needle@.len() && hay@[k + j2] != needle@[j2]);
                }
            } else {
                j = j + 1;
            }
        }
        proof {
            assert(mismatch || j == needle@.len());
        }
        if mismatch {
            proof {
                assert(!matches_at(hay@, needle@, k as int)) by {
                    let j2 = choose|j2: int|
                        0 <= j2 < needle@.len() && hay@[k + j2] != needle@[j2];
                    if matches_at(hay@, needle@, k as int) {
                        assert(hay@.subrange(k as int, k + needle@.len())[j2] == hay@[k + j2]);
                    }
                }
            }
        }
        if !mismatch {
            proof {
                assert(hay@.subrange(k as int, k + needle@.len()) =~= needle@);
                assert(matches_at(hay@, needle@, k as int));
            }
            return true;
        }
        k = k + 1;
    }
    proof {
        assert forall|k2: int| !matches_at(hay@, needle@, k2) by {
            if 0 <= k2 <= last_start {
                assert(!matches_at(hay@, needle@, k2));
            }
        }
    }
    false
}

/// The final path component of a key, as a fresh byte string.
pub fn file_name_key(p: &Vec<u8>) -> (r: Vec<u8>)
    ensures
        r@ == file_name_of(p@),
{
    proof {
        lemma_last_sep(p@);
    }
    let mut start: usize = p.len();
    while start > 0
        invariant
            start <= p.len(),
            forall|j: int| start <= j < p.len() ==> p@[j] != SEPARATOR,
        ensures
            start <= p.len(),
            forall|j: int| start <= j < p.len() ==> p@[j] != SEPARATOR,
            start > 0 ==> p@[start - 1] == SEPARATOR,
        decreases start,
    {
        if p[start - 1] == SEPARATOR {
            break ;
        }
        start = start - 1;
    }
    proof {
        if start > 0 {
            assert(p@[start - 1] == SEPARATOR);
            assert(last_sep(p@) == start - 1) by {
                if last_sep(p@) > start - 1 {
                    assert(p@[last_sep(p@)] == SEPARATOR);
                }
                if last_sep(p@) < start - 1 {
                    assert(p@[start - 1] != SEPARATOR);
                }
            }
        } else {
            assert(last_sep(p@) == -1) by {
                if last_sep(p@) >= 0 {
                    assert(p@[last_sep(p@)] == SEPARATOR);
                }
            }
        }
    }
    let mut r: Vec<u8> = Vec::new();
    let mut i: usize = start;
    while i < p.len()
        invariant
            start <= i <= p.len(),
            r@ == p@.subrange(start as int, i as int),
        decreases p.len() - i,
    {
        r.push(p[i]);
        proof {
            assert(r@ =~= p@.subrange(start as int, i + 1));
        }
        i = i + 1;
    }
    proof {
        assert(r@ =~= file_name_of(p@));
    }
    r
}

/// The parent of a key, as a fresh byte string.
pub fn parent_key(p: &Vec<u8>) -> (r: Vec<u8>)
    ensures
        r@ == parent_of(p@),
{
    proof {
        lemma_last_sep(p@);
    }
    let mut start: usize = p.len();
    while start > 0
        invariant
            start <= p.len(),
            forall|j: int| start <= j < p.len() ==> p@[j] != SEPARATOR,
        ensures
            start <= p.len(),
            forall|j: int| start <= j < p.len() ==> p@[j] != SEPARATOR,
            start > 0 ==> p@[start - 1] == SEPARATOR,
        decreases start,
    {
        if p[start - 1] == SEPARATOR {
            break ;
        }
        start = start - 1;
    }
    proof {
        if start > 0 {
            assert(p@[start - 1] == SEPARATOR);
            assert(last_sep(p@) == start - 1) by {
                if last_sep(p@) > start - 1 {
                    assert(p@[last_sep(p@)] == SEPARATOR);
                }
                if last_sep(p@) < start - 1 {
                    assert(p@[start - 1] != SEPARATOR);
                }
            }
        } else {
            assert(last_sep(p@) == -1) by {
                if last_sep(p@) >= 0 {
                    assert(p@[last_sep(p@)] == SEPARATOR);
                }
            }
        }
    }
    let mut r: Vec<u8> = Vec::new();
    if start == 0 {
        return r;
    }
    if start == 1 {
        if p.len() == 1 {
            return r;
        }
        r.push(SEPARATOR);
        proof {
            assert(r@ =~= parent_of(p@));
        }
        return r;
    }
    let end: usize = start - 1;
    let mut i: usize = 0;
    while i < end
        invariant
            end < p@.len(),
            i <= end,
            r@ == p@.subrange(0, i as int),
        decreases end - i,
    {
        r.push(p[i]);
        proof {
            assert(r@ =~= p@.subrange(0, i + 1));
        }
        i = i + 1;
    }
    proof {
        assert(r@ =~= parent_of(p@));
    }
    r
}

} // verus!
