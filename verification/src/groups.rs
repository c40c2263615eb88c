//! Predicate synonym groups: a map from a canonical predicate name to the
//! member spellings that mean the same thing.
use vstd::prelude::*;
use crate::text::str_eq;

verus! {

/// Keys of an association list are pairwise distinct.
pub open spec fn distinct_keys<K, V>(p: Seq<(K, V)>) -> bool {
    forall|i: int, j: int| 0 <= i < p.len() && 0 <= j < p.len() && i != j ==> p[i].0 != p[j].0
}

/// The map that an association list with distinct keys stands for.
pub open spec fn pairs_to_map<K, V>(p: Seq<(K, V)>) -> Map<K, V> {
    Map::new(
        |k: K| exists|i: int| 0 <= i < p.len() && p[i].0 == k,
        |k: K| p[choose|i: int| 0 <= i < p.len() && p[i].0 == k].1,
    )
}

pub proof fn lemma_pairs_to_map_index<K, V>(p: Seq<(K, V)>, i: int)
    requires
        distinct_keys(p),
        0 <= i < p.len(),
    ensures
        pairs_to_map(p).dom().contains(p[i].0),
        pairs_to_map(p)[p[i].0] == p[i].1,
{
    let k = p[i].0;
    assert(exists|j: int| 0 <= j < p.len() && p[j].0 == k);
    let j = choose|j: int| 0 <= j < p.len() && p[j].0 == k;
    assert(j == i);
}

/// Value of a group: its member spellings.
pub open spec fn group_view(e: (String, Vec<String>)) -> (Seq<char>, Seq<Seq<char>>) {
    (e.0@, e.1.deep_view())
}

/// Clone of a list of strings.
pub fn clone_strings(v: &Vec<String>) -> (r: Vec<String>)
    ensures
        r.deep_view() == v.deep_view(),
{
    let mut r: Vec<String> = Vec::new();
    let mut i: usize = 0;
    while i < v.len()
        invariant
            i <= v.len(),
            r.len() == i,
            forall|k: int| 0 <= k < i ==> #[trigger] r@[k]@ == v@[k]@,
        decreases v.len() - i,
    {
        r.push(v[i].clone());
        i = i + 1;
    }
    assert(r.deep_view() =~= v.deep_view());
    r
}

/// Synonym groups keyed by canonical predicate name. Each canonical name
/// appears once.
pub struct PredicateGroups {
    entries: Vec<(String, Vec<String>)>,
}

impl PredicateGroups {
    /// The groups as (canonical, members) pairs, in storage order.
    pub closed spec fn pairs(&self) -> Seq<(Seq<char>, Seq<Seq<char>>)> {
        self.entries@.map_values(|e: (String, Vec<String>)| group_view(e))
    }

    #[verifier::type_invariant]
    closed spec fn inv(&self) -> bool {
        distinct_keys(self.pairs())
    }

    /// No groups.
    pub fn new() -> (g: Self)
        ensures
            g@ == Map::<Seq<char>, Seq<Seq<char>>>::empty(),
            g.pairs().len() == 0,
    {
        let g = PredicateGroups { entries: Vec::new() };
        assert(g@ =~= Map::<Seq<char>, Seq<Seq<char>>>::empty());
        g
    }

    /// Index of the group named `key`, if any.
    fn find(&self, key: &str) -> (r: Option<usize>)
        ensures
            match r {
                Some(i) => i < self.pairs().len() && self.pairs()[i as int].0 == key@,
                None => forall|i: int| 0 <= i < self.pairs().len() ==> self.pairs()[i].0 != key@,
            },
    {
        let mut i: usize = 0;
        while i < self.entries.len()
            invariant
                i <= self.entries.len(),
                self.pairs().len() == self.entries.len(),
                forall|j: int| 0 <= j < i ==> self.pairs()[j].0 != key@,
            decreases self.entries.len() - i,
        {
            if str_eq(self.entries[i].0.as_str(), key) {
                return Some(i);
            }
            i = i + 1;
        }
        None
    }

    /// Members of the group named `key`.
    pub fn get(&self, key: &str) -> (r: Option<&Vec<String>>)
        ensures
            r is Some == self@.dom().contains(key@),
            r is Some ==> r->0.deep_view() == self@[key@],
    {
        proof {
            use_type_invariant(self);
        }
        match self.find(key) {
            Some(i) => {
                proof {
                    lemma_pairs_to_map_index(self.pairs(), i as int);
                }
                Some(&self.entries[i].1)
            },
            None => None,
        }
    }

    /// Sets the members of group `key`, replacing any earlier members.
    pub fn insert(&mut self, key: String, members: Vec<String>)
        ensures
            final(self)@ == old(self)@.insert(key@, members.deep_view()),
    {
        proof {
            use_type_invariant(&*self);
        }
        let ghost old_pairs = self.pairs();
        let ghost kv = (key@, members.deep_view());
        match self.find(key.as_str()) {
            Some(i) => {
                let ghost new_pairs = old_pairs.update(i as int, kv);
                let mut entries: Vec<(String, Vec<String>)> = Vec::new();
                std::mem::swap(&mut entries, &mut self.entries);
                entries.set(i, (key, members));
                assert(entries@.map_values(|e: (String, Vec<String>)| group_view(e)) =~= new_pairs);
                self.entries = entries;
                assert(self.pairs() =~= new_pairs);
                proof {
                    assert(distinct_keys(new_pairs));
                    assert(new_pairs[i as int].0 == kv.0);
                    assert(self@ =~= old(self)@.insert(kv.0, kv.1)) by {
                        assert forall|k: Seq<char>| #[trigger]
                            self@.dom().contains(k) == old(self)@.insert(kv.0, kv.1).dom().contains(
                                k,
                            ) by {
                            if old(self)@.dom().contains(k) && k != kv.0 {
                                let j = choose|j: int| 0 <= j < old_pairs.len() && old_pairs[j].0 == k;
                                assert(new_pairs[j].0 == k);
                            }
                            if self@.dom().contains(k) && k != kv.0 {
                                let j = choose|j: int| 0 <= j < new_pairs.len() && new_pairs[j].0 == k;
                                assert(old_pairs[j].0 == k);
                            }
                        }
                        assert forall|k: Seq<char>| #[trigger] self@.dom().contains(k) implies self@[k]
                            == old(self)@.insert(kv.0, kv.1)[k] by {
                            let j = choose|j: int| 0 <= j < new_pairs.len() && new_pairs[j].0 == k;
                            lemma_pairs_to_map_index(new_pairs, j);
                            if k != kv.0 {
                                lemma_pairs_to_map_index(old_pairs, j);
                            } else {
                                lemma_pairs_to_map_index(new_pairs, i as int);
                            }
                        }
                    }
                }
            },
            None => {
                let ghost new_pairs = old_pairs.push(kv);
                let mut entries: Vec<(String, Vec<String>)> = Vec::new();
                std::mem::swap(&mut entries, &mut self.entries);
                entries.push((key, members));
                assert(entries@.map_values(|e: (String, Vec<String>)| group_view(e)) =~= new_pairs);
                self.entries = entries;
                assert(self.pairs() =~= new_pairs);
                proof {
                    assert(distinct_keys(new_pairs));
                    assert(self@ =~= old(self)@.insert(kv.0, kv.1)) by {
                        assert forall|k: Seq<char>| #[trigger]
                            self@.dom().contains(k) == old(self)@.insert(kv.0, kv.1).dom().contains(
                                k,
                            ) by {
                            if old(self)@.dom().contains(k) {
                                let j = choose|j: int| 0 <= j < old_pairs.len() && old_pairs[j].0 == k;
                                assert(new_pairs[j].0 == k);
                            }
                            if k == kv.0 {
                                assert(new_pairs[old_pairs.len() as int].0 == k);
                            }
                            if self@.dom().contains(k) && k != kv.0 {
                                let j = choose|j: int| 0 <= j < new_pairs.len() && new_pairs[j].0 == k;
                                assert(old_pairs[j].0 == k);
                            }
                        }
                        assert forall|k: Seq<char>| #[trigger] self@.dom().contains(k) implies self@[k]
                            == old(self)@.insert(kv.0, kv.1)[k] by {
                            let j = choose|j: int| 0 <= j < new_pairs.len() && new_pairs[j].0 == k;
                            lemma_pairs_to_map_index(new_pairs, j);
                            if k != kv.0 {
                                lemma_pairs_to_map_index(old_pairs, j);
                            }
                        }
                    }
                }
            },
        }
    }

    /// Drops the group named `key`, if present.
    pub fn remove(&mut self, key: &str)
        ensures
            final(self)@ == old(self)@.remove(key@),
    {
        proof {
            use_type_invariant(&*self);
        }
        let ghost old_pairs = self.pairs();
        match self.find(key) {
            Some(i) => {
                let ghost new_pairs = old_pairs.remove(i as int);
                let mut entries: Vec<(String, Vec<String>)> = Vec::new();
                std::mem::swap(&mut entries, &mut self.entries);
                entries.remove(i);
                assert(entries@.map_values(|e: (String, Vec<String>)| group_view(e)) =~= new_pairs);
                proof {
                    assert(distinct_keys(new_pairs)) by {
                        assert forall|a: int, b: int|
                            0 <= a < new_pairs.len() && 0 <= b < new_pairs.len() && a != b implies
                            new_pairs[a].0 != new_pairs[b].0 by {
                            let a1 = if a < i { a } else { a + 1 };
                            let b1 = if b < i { b } else { b + 1 };
                            assert(new_pairs[a] == old_pairs[a1]);
                            assert(new_pairs[b] == old_pairs[b1]);
                        }
                    }
                }
                self.entries = entries;
                assert(self.pairs() =~= new_pairs);
                proof {
                    assert(distinct_keys(new_pairs)) by {
                        assert forall|a: int, b: int|
                            0 <= a < new_pairs.len() && 0 <= b < new_pairs.len() && a != b implies
                            new_pairs[a].0 != new_pairs[b].0 by {
                            let a1 = if a < i { a } else { a + 1 };
                            let b1 = if b < i { b } else { b + 1 };
                            assert(new_pairs[a] == old_pairs[a1]);
                            assert(new_pairs[b] == old_pairs[b1]);
                        }
                    }
                    assert(self@ =~= old(self)@.remove(key@)) by {
                        assert forall|k: Seq<char>| #[trigger]
                            self@.dom().contains(k) == old(self)@.remove(key@).dom().contains(k) by {
                            if old(self)@.dom().contains(k) && k != key@ {
                                let j = choose|j: int| 0 <= j < old_pairs.len() && old_pairs[j].0 == k;
                                assert(j != i);
                                let j1 = if j < i { j } else { j - 1 };
                                assert(new_pairs[j1].0 == k);
                            }
                            if self@.dom().contains(k) {
                                let j = choose|j: int| 0 <= j < new_pairs.len() && new_pairs[j].0 == k;
                                let j1 = if j < i { j } else { j + 1 };
                                assert(old_pairs[j1].0 == k);
                            }
                        }
                        assert forall|k: Seq<char>| #[trigger] self@.dom().contains(k) implies self@[k]
                            == old(self)@.remove(key@)[k] by {
                            let j = choose|j: int| 0 <= j < new_pairs.len() && new_pairs[j].0 == k;
                            let j1 = if j < i { j } else { j + 1 };
                            assert(old_pairs[j1] == new_pairs[j]);
                            lemma_pairs_to_map_index(new_pairs, j);
                            lemma_pairs_to_map_index(old_pairs, j1);
                        }
                    }
                }
            },
            None => {
                assert(old(self)@ =~= old(self)@.remove(key@));
            },
        }
    }

    /// A copy of these groups.
    pub fn copy(&self) -> (r: Self)
        ensures
            r@ == self@,
            r.pairs() == self.pairs(),
    {
        proof {
            use_type_invariant(self);
        }
        let mut entries: Vec<(String, Vec<String>)> = Vec::new();
        let mut i: usize = 0;
        while i < self.entries.len()
            invariant
                i <= self.entries.len(),
                self.pairs().len() == self.entries.len(),
                entries.len() == i,
                forall|j: int| 0 <= j < i ==> #[trigger] group_view(entries@[j]) == self.pairs()[j],
            decreases self.entries.len() - i,
        {
            let k = self.entries[i].0.clone();
            let m = clone_strings(&self.entries[i].1);
            entries.push((k, m));
            i = i + 1;
        }
        assert(entries@.map_values(|e: (String, Vec<String>)| group_view(e)) =~= self.pairs());
        PredicateGroups { entries }
    }

    /// The groups as (canonical, members) pairs, in storage order.
    pub fn as_pairs(&self) -> (r: &Vec<(String, Vec<String>)>)
        ensures
            r@.map_values(|e: (String, Vec<String>)| group_view(e)) == self.pairs(),
            distinct_keys(self.pairs()),
            pairs_to_map(self.pairs()) == self@,
    {
        proof {
            use_type_invariant(self);
        }
        &self.entries
    }

    /// The groups as (canonical, members) pairs, in storage order.
    pub fn into_pairs(self) -> (r: Vec<(String, Vec<String>)>)
        ensures
            r@.map_values(|e: (String, Vec<String>)| group_view(e)) == self.pairs(),
            distinct_keys(self.pairs()),
            pairs_to_map(self.pairs()) == self@,
    {
        proof {
            use_type_invariant(&self);
        }
        self.entries
    }
}

impl View for PredicateGroups {
    type V = Map<Seq<char>, Seq<Seq<char>>>;

    closed spec fn view(&self) -> Self::V {
        pairs_to_map(self.pairs())
    }
}

} // verus!
