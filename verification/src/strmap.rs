//! An insertion-ordered map from field/type names to values.
//!
//! The map is backed by a vector of `(String, V)` pairs whose keys are kept
//! pairwise distinct.  Lookups compare keys character by character, so every
//! operation is verified down to the string comparison itself.

use vstd::prelude::*;
use vstd::string::StrSliceExecFns;

verus! {

/// Compares two string slices by their character sequences.
pub fn str_eq(a: &str, b: &str) -> (r: bool)
    ensures
        r == (a@ == b@),
{
    let alen = a.unicode_len();
    let blen = b.unicode_len();
    if alen != blen {
        proof {
            assert(a@ != b@) by {
                assert(a@.len() != b@.len());
            }
        }
        return false;
    }
    let mut i: usize = 0;
    while i < alen
        invariant
            alen == a@.len(),
            alen == b@.len(),
            i <= alen,
            forall|j: int| 0 <= j < i ==> a@[j] == b@[j],
        decreases alen - i,
    {
        if a.get_char(i) != b.get_char(i) {
            return false;
        }
        i = i + 1;
    }
    proof {
        assert(a@ =~= b@);
    }
    true
}

/// The position of the first pair in `s` whose key reads `k`, or `-1`.
pub open spec fn key_idx<V>(s: Seq<(String, V)>, k: Seq<char>) -> int
    decreases s.len(),
{
    if s.len() == 0 {
        -1
    } else if s[0].0@ == k {
        0
    } else {
        let r = key_idx(s.drop_first(), k);
        if r == -1 {
            -1
        } else {
            r + 1
        }
    }
}

/// Whether some pair in `s` carries the key `k`.
pub open spec fn has_key<V>(s: Seq<(String, V)>, k: Seq<char>) -> bool {
    key_idx(s, k) >= 0
}

/// All keys of `s` are pairwise distinct.
pub open spec fn keys_distinct<V>(s: Seq<(String, V)>) -> bool {
    forall|i: int, j: int| 0 <= i < j < s.len() ==> s[i].0@ != s[j].0@
}

/// What `key_idx` finds: an in-range first match, or no match at all.
pub proof fn lemma_key_idx<V>(s: Seq<(String, V)>, k: Seq<char>)
    ensures
        key_idx(s, k) == -1 || 0 <= key_idx(s, k) < s.len(),
        key_idx(s, k) == -1 ==> forall|j: int| 0 <= j < s.len() ==> s[j].0@ != k,
        key_idx(s, k) >= 0 ==> s[key_idx(s, k)].0@ == k,
        key_idx(s, k) >= 0 ==> forall|j: int| 0 <= j < key_idx(s, k) ==> s[j].0@ != k,
    decreases s.len(),
{
    if s.len() > 0 && s[0].0@ != k {
        let t = s.drop_first();
        lemma_key_idx(t, k);
        assert(forall|j: int| 0 <= j < t.len() ==> t[j] == s[j + 1]);
        let r = key_idx(t, k);
        if r == -1 {
            assert forall|j: int| 0 <= j < s.len() implies s[j].0@ != k by {
                if j > 0 {
                    assert(t[j - 1] == s[j]);
                }
            }
        } else {
            assert(s[r + 1].0@ == k);
            assert forall|j: int| 0 <= j < r + 1 implies s[j].0@ != k by {
                if j > 0 {
                    assert(t[j - 1] == s[j]);
                }
            }
        }
    }
}

/// `key_idx` returns `i` when `i` holds `k` and nothing before it does.
pub proof fn lemma_key_idx_at<V>(s: Seq<(String, V)>, k: Seq<char>, i: int)
    requires
        0 <= i < s.len(),
        s[i].0@ == k,
        forall|j: int| 0 <= j < i ==> s[j].0@ != k,
    ensures
        key_idx(s, k) == i,
    decreases s.len(),
{
    if i > 0 {
        assert(forall|j: int|
            0 <= j < s.drop_first().len() ==> s.drop_first()[j] == s[j + 1]);
        lemma_key_idx_at(s.drop_first(), k, i - 1);
    }
}

/// The contents of `s` after an overwriting insert of `(k, v)`.
pub open spec fn spec_insert<V>(s: Seq<(String, V)>, k: String, v: V) -> Seq<(String, V)> {
    let i = key_idx(s, k@);
    if i >= 0 {
        s.update(i, (k, v))
    } else {
        s.push((k, v))
    }
}

/// The contents of `s` after removing the pair keyed `k`, if any.
pub open spec fn spec_remove<V>(s: Seq<(String, V)>, k: Seq<char>) -> Seq<(String, V)> {
    let i = key_idx(s, k);
    if i >= 0 {
        s.remove(i)
    } else {
        s
    }
}

/// The value held under key `k`; meaningful only when `has_key(s, k)`.
pub open spec fn assoc_v<V>(s: Seq<(String, V)>, k: Seq<char>) -> V {
    s[key_idx(s, k)].1
}

/// How an overwriting insert changes lookups: the inserted key now maps to
/// the new value and every other key is untouched.
pub proof fn lemma_insert_props<V>(s: Seq<(String, V)>, k: String, v: V)
    requires
        keys_distinct(s),
    ensures
        keys_distinct(spec_insert(s, k, v)),
        forall|k2: Seq<char>|
            #[trigger] has_key(spec_insert(s, k, v), k2) <==> (has_key(s, k2) || k2 == k@),
        has_key(spec_insert(s, k, v), k@),
        assoc_v(spec_insert(s, k, v), k@) == v,
        forall|k2: Seq<char>|
            has_key(s, k2) && k2 != k@ ==> #[trigger] assoc_v(spec_insert(s, k, v), k2)
                == assoc_v(s, k2),
{
    lemma_key_idx(s, k@);
    let i = key_idx(s, k@);
    let s2 = spec_insert(s, k, v);
    if i >= 0 {
        assert(s2 == s.update(i, (k, v)));
        assert forall|p: int| 0 <= p < s2.len() implies s2[p].0@ == s[p].0@ by {}
        lemma_key_idx_at(s2, k@, i);
        assert forall|k2: Seq<char>| k2 != k@ implies
            key_idx(s2, k2) == key_idx(s, k2) by {
            lemma_key_idx(s, k2);
            lemma_key_idx(s2, k2);
            let j = key_idx(s, k2);
            if j >= 0 {
                lemma_key_idx_at(s2, k2, j);
            } else {
                if key_idx(s2, k2) >= 0 {
                    assert(s[key_idx(s2, k2)].0@ == k2);
                }
            }
        }
        assert forall|k2: Seq<char>| has_key(s, k2) && k2 != k@ implies
            #[trigger] assoc_v(s2, k2) == assoc_v(s, k2) by {
            lemma_key_idx(s, k2);
            assert(key_idx(s, k2) != i);
        }
    } else {
        assert(s2 == s.push((k, v)));
        assert forall|p: int| 0 <= p < s.len() implies s2[p].0@ == s[p].0@ by {}
        lemma_key_idx_at(s2, k@, s.len() as int);
        assert(keys_distinct(s2));
        assert forall|k2: Seq<char>| k2 != k@ implies
            key_idx(s2, k2) == key_idx(s, k2) by {
            lemma_key_idx(s, k2);
            lemma_key_idx(s2, k2);
            let j = key_idx(s, k2);
            if j >= 0 {
                lemma_key_idx_at(s2, k2, j);
            } else {
                if key_idx(s2, k2) >= 0 {
                    assert(s2[key_idx(s2, k2)].0@ == k2);
                    assert(key_idx(s2, k2) == s.len());
                }
            }
        }
        assert forall|k2: Seq<char>| has_key(s, k2) && k2 != k@ implies
            #[trigger] assoc_v(s2, k2) == assoc_v(s, k2) by {
            lemma_key_idx(s, k2);
        }
    }
}

/// How a removal changes lookups: the removed key is gone and every other
/// key is untouched.
pub proof fn lemma_remove_props<V>(s: Seq<(String, V)>, k: Seq<char>)
    requires
        keys_distinct(s),
    ensures
        keys_distinct(spec_remove(s, k)),
        forall|k2: Seq<char>|
            #[trigger] has_key(spec_remove(s, k), k2) <==> (has_key(s, k2) && k2 != k),
        forall|k2: Seq<char>|
            has_key(s, k2) && k2 != k ==> #[trigger] assoc_v(spec_remove(s, k), k2)
                == assoc_v(s, k2),
{
    lemma_key_idx(s, k);
    let i = key_idx(s, k);
    let s2 = spec_remove(s, k);
    if i >= 0 {
        assert(s2 == s.remove(i));
        assert(forall|p: int| 0 <= p < i ==> s2[p] == s[p]);
        assert(forall|p: int| i <= p < s2.len() ==> s2[p] == s[p + 1]);
        assert forall|k2: Seq<char>| #[trigger] has_key(s2, k2) implies
            has_key(s, k2) && k2 != k by {
            lemma_key_idx(s2, k2);
            let j2 = key_idx(s2, k2);
            if j2 < i {
                assert(s[j2].0@ == k2);
                lemma_key_idx(s, k2);
            } else {
                assert(s[j2 + 1].0@ == k2);
                lemma_key_idx(s, k2);
            }
            if k2 == k {
                assert(false);
            }
        }
        assert forall|k2: Seq<char>|
            #![trigger has_key(s2, k2)]
            #![trigger assoc_v(s2, k2)]
            has_key(s, k2) && k2 != k implies
            has_key(s2, k2) && assoc_v(s2, k2) == assoc_v(s, k2) by {
            lemma_key_idx(s, k2);
            let j = key_idx(s, k2);
            assert(j != i);
            if j < i {
                lemma_key_idx_at(s2, k2, j);
            } else {
                assert(s2[j - 1] == s[j]);
                assert forall|p: int| 0 <= p < j - 1 implies s2[p].0@ != k2 by {
                    if p < i {
                        assert(s2[p] == s[p]);
                    } else {
                        assert(s2[p] == s[p + 1]);
                    }
                }
                lemma_key_idx_at(s2, k2, j - 1);
            }
        }
    }
}

/// A map from string keys to values of type `V`, in insertion order.
#[derive(Debug, PartialEq, Eq)]
pub struct StrMap<V> {
    pub entries: Vec<(String, V)>,
}

impl<V> StrMap<V> {
    /// The pairs held, in order.
    pub open spec fn sseq(&self) -> Seq<(String, V)> {
        self.entries@
    }

    /// The keys are pairwise distinct.
    pub open spec fn wf(&self) -> bool {
        keys_distinct(self.entries@)
    }

    pub open spec fn spec_has(&self, k: Seq<char>) -> bool {
        has_key(self.sseq(), k)
    }

    pub open spec fn spec_at(&self, k: Seq<char>) -> V {
        self.sseq()[key_idx(self.sseq(), k)].1
    }

    pub fn new() -> (r: Self)
        ensures
            r.sseq() =~= Seq::<(String, V)>::empty(),
            r.wf(),
    {
        StrMap { entries: Vec::new() }
    }

    /// The position of the pair keyed `k`, if one is held.
    pub fn find(&self, k: &str) -> (r: Option<usize>)
        ensures
            match r {
                Some(i) => i == key_idx(self.sseq(), k@) && i < self.sseq().len()
                    && self.sseq()[i as int].0@ == k@,
                None => !self.spec_has(k@),
            },
    {
        let n = self.entries.len();
        let mut i: usize = 0;
        while i < n
            invariant
                n == self.sseq().len(),
                i <= n,
                forall|j: int| 0 <= j < i ==> self.sseq()[j].0@ != k@,
            decreases n - i,
        {
            if str_eq(self.entries[i].0.as_str(), k) {
                proof {
                    lemma_key_idx_at(self.sseq(), k@, i as int);
                }
                return Some(i);
            }
            i = i + 1;
        }
        proof {
            lemma_key_idx(self.sseq(), k@);
        }
        None
    }

    pub fn contains_key(&self, k: &str) -> (r: bool)
        ensures
            r == self.spec_has(k@),
    {
        proof {
            lemma_key_idx(self.sseq(), k@);
        }
        self.find(k).is_some()
    }

    pub fn get(&self, k: &str) -> (r: Option<&V>)
        ensures
            match r {
                Some(x) => self.spec_has(k@) && *x == self.spec_at(k@),
                None => !self.spec_has(k@),
            },
    {
        match self.find(k) {
            Some(i) => Some(&self.entries[i].1),
            None => None,
        }
    }

    /// Overwriting insert: an existing pair keyed like `k` is replaced in
    /// place, otherwise the new pair is appended.
    pub fn insert(&mut self, k: String, v: V)
        requires
            old(self).wf(),
        ensures
            final(self).wf(),
            final(self).sseq() == spec_insert(old(self).sseq(), k, v),
    {
        proof {
            lemma_key_idx(self.sseq(), k@);
        }
        match self.find(k.as_str()) {
            Some(i) => {
                self.entries[i] = (k, v);
            }
            None => {
                self.entries.push((k, v));
            }
        }
    }

    /// Removes the pair keyed `k`, keeping the order of the others.
    pub fn remove(&mut self, k: &str)
        requires
            old(self).wf(),
        ensures
            final(self).wf(),
            final(self).sseq() == spec_remove(old(self).sseq(), k@),
    {
        proof {
            lemma_key_idx(self.sseq(), k@);
        }
        match self.find(k) {
            Some(i) => {
                self.entries.remove(i);
            }
            None => {}
        }
    }

    pub fn len(&self) -> (n: usize)
        ensures
            n == self.sseq().len(),
    {
        self.entries.len()
    }

    /// The pair at position `i`, for walking the map in order.
    pub fn entry_at(&self, i: usize) -> (r: &(String, V))
        requires
            i < self.sseq().len(),
        ensures
            *r == self.sseq()[i as int],
    {
        &self.entries[i]
    }
}

} // verus!
