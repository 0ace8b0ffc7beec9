use vstd::prelude::*;
use crate::ids::UniqueId;

verus! {

/// The map that a list of insertions leaves: a later entry for a key
/// replaces an earlier one.
pub open spec fn to_map<V>(s: Seq<(UniqueId, V)>) -> Map<UniqueId, V>
    decreases s.len(),
{
    if s.len() == 0 {
        Map::empty()
    } else {
        to_map(s.drop_last()).insert(s.last().0, s.last().1)
    }
}

proof fn lemma_to_map_keys<V>(s: Seq<(UniqueId, V)>, k: UniqueId)
    ensures
        to_map(s).contains_key(k) <==> exists|i: int| 0 <= i < s.len() && (#[trigger] s[i]).0 == k,
    decreases s.len(),
{
    if s.len() > 0 {
        lemma_to_map_keys(s.drop_last(), k);
        if exists|i: int| 0 <= i < s.len() && (#[trigger] s[i]).0 == k {
            let i = choose|i: int| 0 <= i < s.len() && (#[trigger] s[i]).0 == k;
            if i < s.len() - 1 {
                assert(s.drop_last()[i].0 == k);
            }
        }
        if exists|i: int| 0 <= i < s.len() - 1 && (#[trigger] s.drop_last()[i]).0 == k {
            let i = choose|i: int| 0 <= i < s.len() - 1 && (#[trigger] s.drop_last()[i]).0 == k;
            assert(s[i].0 == k);
        }
    }
}

proof fn lemma_to_map_last<V>(s: Seq<(UniqueId, V)>, i: int)
    requires
        0 <= i < s.len(),
        forall|m: int| i < m < s.len() ==> (#[trigger] s[m]).0 != s[i].0,
    ensures
        to_map(s).contains_key(s[i].0),
        to_map(s)[s[i].0] == s[i].1,
    decreases s.len(),
{
    if i < s.len() - 1 {
        let t = s.drop_last();
        assert forall|m: int| i < m < t.len() implies (#[trigger] t[m]).0 != t[i].0 by {
            assert(t[m] == s[m]);
        }
        lemma_to_map_last(t, i);
    }
}

/// A finite map keyed by `UniqueId`, kept as its list of insertions.
#[derive(Clone)]
pub struct IdMap<V> {
    entries: Vec<(UniqueId, V)>,
}

impl<V: Copy> IdMap<V> {
    pub closed spec fn view(&self) -> Map<UniqueId, V> {
        to_map(self.entries@)
    }

    /// The keys, as inserted (with repetitions).
    pub closed spec fn key_list(&self) -> Seq<UniqueId> {
        self.entries@.map_values(|e: (UniqueId, V)| e.0)
    }

    pub fn new() -> (r: IdMap<V>)
        ensures
            r@ == Map::<UniqueId, V>::empty(),
    {
        IdMap { entries: Vec::new() }
    }

    pub fn get(&self, k: &UniqueId) -> (r: Option<V>)
        ensures
            r == (if self@.contains_key(*k) { Some(self@[*k]) } else { None::<V> }),
    {
        let mut i: usize = self.entries.len();
        while i > 0
            invariant
                i <= self.entries@.len(),
                forall|m: int| i <= m < self.entries@.len() ==> (#[trigger] self.entries@[m]).0 != *k,
            decreases i,
        {
            i = i - 1;
            if self.entries[i].0 == *k {
                proof {
                    lemma_to_map_last(self.entries@, i as int);
                }
                return Some(self.entries[i].1);
            }
        }
        proof {
            lemma_to_map_keys(self.entries@, *k);
        }
        None
    }

    pub fn insert(&mut self, k: UniqueId, v: V)
        ensures
            final(self)@ == old(self)@.insert(k, v),
            final(self).key_list() == old(self).key_list().push(k),
    {
        self.entries.push((k, v));
        proof {
            assert(self.entries@.drop_last() == old(self).entries@);
            assert(self.key_list() =~= old(self).key_list().push(k));
        }
    }

    /// The number of insertions made.
    pub fn key_count(&self) -> (r: usize)
        ensures
            r == self.key_list().len(),
    {
        self.entries.len()
    }

    /// The key of the `i`-th insertion.
    pub fn key_at(&self, i: usize) -> (r: UniqueId)
        requires
            i < self.key_list().len(),
        ensures
            r == self.key_list()[i as int],
    {
        self.entries[i].0
    }

    /// Every key of the map was inserted, and every inserted key is a key.
    pub proof fn lemma_keys(&self, k: UniqueId)
        ensures
            self@.contains_key(k) <==> self.key_list().contains(k),
    {
        lemma_to_map_keys(self.entries@, k);
        if self.key_list().contains(k) {
            let i = choose|i: int| 0 <= i < self.key_list().len() && self.key_list()[i] == k;
            assert(self.entries@[i].0 == k);
        }
        if exists|i: int| 0 <= i < self.entries@.len() && (#[trigger] self.entries@[i]).0 == k {
            let i = choose|i: int| 0 <= i < self.entries@.len() && (#[trigger] self.entries@[i]).0 == k;
            assert(self.key_list()[i] == k);
        }
    }
}

} // verus!
