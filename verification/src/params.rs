//! The per-request parameter map.
//!
//! Maps parameter names to the path text they were bound to.  Keys are
//! unique; inserting an existing key overwrites its value, and merging
//! two maps lets the right-hand side win on collisions — route-derived
//! values overwrite values set earlier by middleware.

use vstd::prelude::*;
use crate::text::bytes_eq;

verus! {

/// The mathematical value of an association list, later entries winning.
pub open spec fn assoc_map(s: Seq<(Vec<u8>, Vec<u8>)>) -> Map<Seq<u8>, Seq<u8>>
    decreases s.len(),
{
    if s.len() == 0 {
        Map::empty()
    } else {
        assoc_map(s.drop_last()).insert(s.last().0@, s.last().1@)
    }
}

/// A key is in the map exactly when some entry holds it.
pub proof fn lemma_assoc_contains(s: Seq<(Vec<u8>, Vec<u8>)>, k: Seq<u8>)
    ensures
        assoc_map(s).contains_key(k) <==> exists|i: int| 0 <= i < s.len() && s[i].0@ == k,
    decreases s.len(),
{
    if s.len() > 0 {
        lemma_assoc_contains(s.drop_last(), k);
        if assoc_map(s).contains_key(k) && s.last().0@ != k {
            let i = choose|i: int| 0 <= i < s.drop_last().len() && s.drop_last()[i].0@ == k;
            assert(s[i].0@ == k);
        }
        if exists|i: int| 0 <= i < s.len() && s[i].0@ == k {
            let i = choose|i: int| 0 <= i < s.len() && s[i].0@ == k;
            if i < s.len() - 1 {
                assert(s.drop_last()[i].0@ == k);
            }
        }
    }
}

/// If no entry after `i` shares entry `i`'s key, that entry gives the
/// key's value.
pub proof fn lemma_assoc_get(s: Seq<(Vec<u8>, Vec<u8>)>, i: int)
    requires
        0 <= i < s.len(),
        forall|j: int| i < j < s.len() ==> s[j].0@ != s[i].0@,
    ensures
        assoc_map(s).contains_key(s[i].0@),
        assoc_map(s)[s[i].0@] == s[i].1@,
    decreases s.len(),
{
    if i == s.len() - 1 {
    } else {
        assert(s.drop_last()[i] == s[i]);
        lemma_assoc_get(s.drop_last(), i);
    }
}

/// A parameter map with unique keys.
pub struct ParamMap {
    entries: Vec<(Vec<u8>, Vec<u8>)>,
}

impl View for ParamMap {
    type V = Map<Seq<u8>, Seq<u8>>;

    closed spec fn view(&self) -> Map<Seq<u8>, Seq<u8>> {
        assoc_map(self.entries@)
    }
}

impl ParamMap {
    /// Keys are pairwise distinct.
    pub closed spec fn wf(self) -> bool {
        forall|i: int, j: int|
            0 <= i < j < self.entries@.len() ==> self.entries@[i].0@ != self.entries@[j].0@
    }

    /// The entries as plain pairs, for callers that walk all parameters.
    /// Each key appears once, and each pair is in the map.
    pub fn entries(&self) -> (r: &Vec<(Vec<u8>, Vec<u8>)>)
        requires
            self.wf(),
        ensures
            forall|i: int, j: int| 0 <= i < j < r@.len() ==> r@[i].0@ != r@[j].0@,
            forall|i: int|
                0 <= i < r@.len() ==> self@.contains_key(#[trigger] r@[i].0@) && self@[r@[i].0@]
                    == r@[i].1@,
            forall|k: Seq<u8>|
                self@.contains_key(k) ==> exists|i: int| 0 <= i < r@.len() && r@[i].0@ == k,
    {
        proof {
            assert forall|i: int|
                0 <= i < self.entries@.len() implies self@.contains_key(
                #[trigger] self.entries@[i].0@,
            ) && self@[self.entries@[i].0@] == self.entries@[i].1@ by {
                lemma_assoc_get(self.entries@, i);
            }
            assert forall|k: Seq<u8>| self@.contains_key(k) implies exists|i: int|
                0 <= i < self.entries@.len() && self.entries@[i].0@ == k by {
                lemma_assoc_contains(self.entries@, k);
            }
        }
        &self.entries
    }

    /// An empty map.
    pub fn new() -> (r: Self)
        ensures
            r.wf(),
            r@ == Map::<Seq<u8>, Seq<u8>>::empty(),
    {
        ParamMap { entries: Vec::new() }
    }

    /// Looks a parameter up by name.
    pub fn get(&self, key: &[u8]) -> (r: Option<&Vec<u8>>)
        requires
            self.wf(),
        ensures
            match r {
                Some(v) => self@.contains_key(key@) && self@[key@] == v@,
                None => !self@.contains_key(key@),
            },
    {
        let mut i: usize = 0;
        while i < self.entries.len()
            invariant
                i <= self.entries@.len(),
                self.wf(),
                forall|j: int| 0 <= j < i ==> self.entries@[j].0@ != key@,
            decreases self.entries@.len() - i,
        {
            if bytes_eq(self.entries[i].0.as_slice(), key) {
                proof {
                    lemma_assoc_get(self.entries@, i as int);
                }
                return Some(&self.entries[i].1);
            }
            i = i + 1;
        }
        proof {
            lemma_assoc_contains(self.entries@, key@);
        }
        None
    }

    /// Is a parameter of this name present?
    pub fn contains_key(&self, key: &[u8]) -> (r: bool)
        requires
            self.wf(),
        ensures
            r == self@.contains_key(key@),
    {
        match self.get(key) {
            Some(_) => true,
            None => false,
        }
    }

    /// Binds `key` to `val`, overwriting any existing binding.
    pub fn insert(&mut self, key: Vec<u8>, val: Vec<u8>)
        requires
            old(self).wf(),
        ensures
            final(self).wf(),
            final(self)@ == old(self)@.insert(key@, val@),
    {
        let mut i: usize = 0;
        while i < self.entries.len()
            invariant
                i <= self.entries@.len(),
                self.wf(),
                self.entries@ == old(self).entries@,
                forall|j: int| 0 <= j < i ==> self.entries@[j].0@ != key@,
            decreases self.entries@.len() - i,
        {
            if bytes_eq(self.entries[i].0.as_slice(), key.as_slice()) {
                let ghost olds = self.entries@;
                self.entries[i] = (key, val);
                proof {
                    lemma_assoc_update(olds, i as int, self.entries@[i as int]);
                    assert(final(self)@ =~= old(self)@.insert(key@, val@));
                }
                return;
            }
            i = i + 1;
        }
        self.entries.push((key, val));
        proof {
            assert(self.entries@.drop_last() =~= old(self).entries@);
        }
    }

    /// Merges `other` into this map; `other`'s values win on collisions.
    pub fn extend(&mut self, other: ParamMap)
        requires
            old(self).wf(),
            other.wf(),
        ensures
            final(self).wf(),
            final(self)@ == old(self)@.union_prefer_right(other@),
    {
        let mut i: usize = 0;
        let n = other.entries.len();
        while i < n
            invariant
                i <= n,
                n == other.entries@.len(),
                other.wf(),
                self.wf(),
                self@ =~= old(self)@.union_prefer_right(assoc_map(other.entries@.subrange(0, i as int))),
            decreases n - i,
        {
            let key = crate::text::copy_range(other.entries[i].0.as_slice(), 0, other.entries[i].0.len());
            let val = crate::text::copy_range(other.entries[i].1.as_slice(), 0, other.entries[i].1.len());
            proof {
                assert(key@ =~= other.entries@[i as int].0@);
                assert(val@ =~= other.entries@[i as int].1@);
            }
            let ghost pre = self@;
            self.insert(key, val);
            proof {
                let ghost sub1 = other.entries@.subrange(0, i as int + 1);
                assert(sub1.drop_last() =~= other.entries@.subrange(0, i as int));
                assert(assoc_map(sub1) == assoc_map(other.entries@.subrange(0, i as int)).insert(
                    key@,
                    val@,
                ));
                assert(self@ =~= old(self)@.union_prefer_right(assoc_map(sub1)));
            }
            i = i + 1;
        }
        proof {
            assert(other.entries@.subrange(0, i as int) =~= other.entries@);
        }
    }
}

/// Updating entry `i` in place, key kept, updates the map at that key,
/// provided no later entry shares the key.
proof fn lemma_assoc_update(s: Seq<(Vec<u8>, Vec<u8>)>, i: int, e: (Vec<u8>, Vec<u8>))
    requires
        0 <= i < s.len(),
        e.0@ == s[i].0@,
        forall|j: int| i < j < s.len() ==> s[j].0@ != s[i].0@,
    ensures
        assoc_map(s.update(i, e)) == assoc_map(s).insert(e.0@, e.1@),
    decreases s.len(),
{
    if i == s.len() - 1 {
        assert(s.update(i, e).drop_last() =~= s.drop_last());
        assert(assoc_map(s.update(i, e)) =~= assoc_map(s).insert(e.0@, e.1@));
    } else {
        assert(s.update(i, e).drop_last() =~= s.drop_last().update(i, e));
        assert(s.drop_last()[i] == s[i]);
        lemma_assoc_update(s.drop_last(), i, e);
        assert(assoc_map(s.update(i, e)) =~= assoc_map(s).insert(e.0@, e.1@));
    }
}

} // verus!
