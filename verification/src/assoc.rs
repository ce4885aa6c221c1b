//! A map from byte strings to plain values, kept as a vector sorted by key.
//! The in-memory side of the term dictionary and of the document-key index.

use vstd::prelude::*;
use crate::lex::{lex_lt, bytes_lt, bytes_eq};
use crate::lex::{lemma_lex_total, lemma_lex_trans, lemma_lex_asym, lemma_lex_irrefl};

verus! {

/// The abstract contents of a sequence of entries: later entries win.
pub open spec fn assoc_map_of<K: View, V>(s: Seq<(K, V)>) -> Map<K::V, V>
    decreases s.len(),
{
    if s.len() == 0 {
        Map::empty()
    } else {
        assoc_map_of(s.drop_last()).insert(s.last().0@, s.last().1)
    }
}

/// Entry keys are strictly ascending in lexicographic order.
pub open spec fn assoc_sorted<V>(s: Seq<(Vec<u8>, V)>) -> bool {
    forall|i: int, j: int| 0 <= i < j < s.len() ==> lex_lt(#[trigger] s[i].0@, #[trigger] s[j].0@)
}

/// A key of the map is a key of some entry.
pub proof fn lemma_assoc_contains<K: View, V>(s: Seq<(K, V)>, k: K::V)
    ensures
        assoc_map_of(s).contains_key(k) <==> exists|i: int| 0 <= i < s.len() && s[i].0@ == k,
    decreases s.len(),
{
    if s.len() > 0 {
        lemma_assoc_contains(s.drop_last(), k);
        if assoc_map_of(s).contains_key(k) {
            if s.last().0@ == k {
                assert(s[s.len() - 1].0@ == k);
            } else {
                let i = choose|i: int| 0 <= i < s.drop_last().len() && s.drop_last()[i].0@ == k;
                assert(s[i].0@ == k);
            }
        }
        if exists|i: int| 0 <= i < s.len() && s[i].0@ == k {
            let i = choose|i: int| 0 <= i < s.len() && s[i].0@ == k;
            if i < s.len() - 1 {
                assert(s.drop_last()[i].0@ == k);
            }
        }
    }
}

/// Sorted entries have pairwise distinct keys.
pub proof fn lemma_assoc_distinct<V>(s: Seq<(Vec<u8>, V)>)
    requires
        assoc_sorted(s),
    ensures
        forall|i: int, j: int|
            0 <= i < s.len() && 0 <= j < s.len() && i != j ==> #[trigger] s[i].0@ != #[trigger] s[j].0@,
{
    assert forall|i: int, j: int|
        0 <= i < s.len() && 0 <= j < s.len() && i != j implies #[trigger] s[i].0@ != #[trigger] s[j].0@ by {
        if i < j {
            lemma_lex_asym(s[i].0@, s[j].0@);
        } else {
            lemma_lex_asym(s[j].0@, s[i].0@);
        }
    }
}

/// With distinct keys, each entry is what the map holds under its key.
pub proof fn lemma_assoc_index<K: View, V>(s: Seq<(K, V)>, i: int)
    requires
        0 <= i < s.len(),
        forall|x: int, y: int|
            0 <= x < s.len() && 0 <= y < s.len() && x != y ==> #[trigger] s[x].0@ != #[trigger] s[y].0@,
    ensures
        assoc_map_of(s).contains_key(s[i].0@),
        assoc_map_of(s)[s[i].0@] == s[i].1,
    decreases s.len(),
{
    if i == s.len() - 1 {
    } else {
        assert forall|x: int, y: int|
            0 <= x < s.drop_last().len() && 0 <= y < s.drop_last().len() && x != y implies
            #[trigger] s.drop_last()[x].0@ != #[trigger] s.drop_last()[y].0@ by {
            assert(s[x] == s.drop_last()[x]);
            assert(s[y] == s.drop_last()[y]);
        }
        lemma_assoc_index(s.drop_last(), i);
        assert(s[i].0@ != s.last().0@);
    }
}

/// Replacing the value under an existing key updates the map in place.
pub proof fn lemma_assoc_update<K: View, V>(s: Seq<(K, V)>, i: int, e: (K, V))
    requires
        0 <= i < s.len(),
        e.0@ == s[i].0@,
        forall|x: int, y: int|
            0 <= x < s.len() && 0 <= y < s.len() && x != y ==> #[trigger] s[x].0@ != #[trigger] s[y].0@,
    ensures
        assoc_map_of(s.update(i, e)) == assoc_map_of(s).insert(e.0@, e.1),
    decreases s.len(),
{
    let s2 = s.update(i, e);
    if i == s.len() - 1 {
        assert(s2.drop_last() =~= s.drop_last());
        assert(assoc_map_of(s.drop_last()).insert(s.last().0@, s.last().1).insert(e.0@, e.1)
            =~= assoc_map_of(s.drop_last()).insert(e.0@, e.1));
    } else {
        assert forall|x: int, y: int|
            0 <= x < s.drop_last().len() && 0 <= y < s.drop_last().len() && x != y implies
            #[trigger] s.drop_last()[x].0@ != #[trigger] s.drop_last()[y].0@ by {
            assert(s[x] == s.drop_last()[x]);
            assert(s[y] == s.drop_last()[y]);
        }
        assert(s.drop_last()[i] == s[i]);
        lemma_assoc_update(s.drop_last(), i, e);
        assert(s2.drop_last() =~= s.drop_last().update(i, e));
        assert(s2.last() == s.last());
        assert(s[i].0@ != s.last().0@);
        assert(assoc_map_of(s.drop_last()).insert(e.0@, e.1).insert(s.last().0@, s.last().1)
            =~= assoc_map_of(s.drop_last()).insert(s.last().0@, s.last().1).insert(e.0@, e.1));
    }
}

/// Inserting an entry under a fresh key anywhere inserts it into the map.
pub proof fn lemma_assoc_insert_at<K: View, V>(s: Seq<(K, V)>, p: int, e: (K, V))
    requires
        0 <= p <= s.len(),
        forall|x: int| 0 <= x < s.len() ==> #[trigger] s[x].0@ != e.0@,
    ensures
        assoc_map_of(s.insert(p, e)) == assoc_map_of(s).insert(e.0@, e.1),
    decreases s.len(),
{
    let s2 = s.insert(p, e);
    if p == s.len() {
        assert(s2.drop_last() =~= s);
        assert(s2.last() == e);
    } else {
        assert(s2.last() == s.last());
        assert(s2.drop_last() =~= s.drop_last().insert(p, e));
        assert forall|x: int| 0 <= x < s.drop_last().len() implies #[trigger] s.drop_last()[x].0@
            != e.0@ by {
            assert(s.drop_last()[x] == s[x]);
        }
        lemma_assoc_insert_at(s.drop_last(), p, e);
        assert(s.last().0@ != e.0@);
        assert(assoc_map_of(s.drop_last()).insert(e.0@, e.1).insert(s.last().0@, s.last().1)
            =~= assoc_map_of(s.drop_last()).insert(s.last().0@, s.last().1).insert(e.0@, e.1));
    }
}

/// Removing an entry removes its key from the map.
pub proof fn lemma_assoc_remove<K: View, V>(s: Seq<(K, V)>, i: int)
    requires
        0 <= i < s.len(),
        forall|x: int, y: int|
            0 <= x < s.len() && 0 <= y < s.len() && x != y ==> #[trigger] s[x].0@ != #[trigger] s[y].0@,
    ensures
        assoc_map_of(s.remove(i)) == assoc_map_of(s).remove(s[i].0@),
    decreases s.len(),
{
    let s2 = s.remove(i);
    if i == s.len() - 1 {
        assert(s2 =~= s.drop_last());
        lemma_assoc_contains(s.drop_last(), s[i].0@);
        assert forall|x: int| 0 <= x < s.drop_last().len() implies #[trigger] s.drop_last()[x].0@
            != s[i].0@ by {
            assert(s.drop_last()[x] == s[x]);
        }
        assert(!assoc_map_of(s.drop_last()).contains_key(s[i].0@));
        assert(assoc_map_of(s.drop_last()).insert(s.last().0@, s.last().1).remove(s[i].0@)
            =~= assoc_map_of(s.drop_last()));
    } else {
        assert(s2.last() == s.last());
        assert(s2.drop_last() =~= s.drop_last().remove(i));
        assert forall|x: int, y: int|
            0 <= x < s.drop_last().len() && 0 <= y < s.drop_last().len() && x != y implies
            #[trigger] s.drop_last()[x].0@ != #[trigger] s.drop_last()[y].0@ by {
            assert(s[x] == s.drop_last()[x]);
            assert(s[y] == s.drop_last()[y]);
        }
        assert(s.drop_last()[i] == s[i]);
        lemma_assoc_remove(s.drop_last(), i);
        assert(s[i].0@ != s.last().0@);
        assert(assoc_map_of(s.drop_last()).remove(s[i].0@).insert(s.last().0@, s.last().1)
            =~= assoc_map_of(s.drop_last()).insert(s.last().0@, s.last().1).remove(s[i].0@));
    }
}

/// A map from byte strings to copyable values, sorted by key.
pub struct SortedMap<V> {
    entries: Vec<(Vec<u8>, V)>,
}

impl<V: Copy> View for SortedMap<V> {
    type V = Map<Seq<u8>, V>;

    closed spec fn view(&self) -> Map<Seq<u8>, V> {
        assoc_map_of(self.entries@)
    }
}

impl<V: Copy> SortedMap<V> {
    /// The entries are strictly sorted by key.
    pub closed spec fn wf(&self) -> bool {
        assoc_sorted(self.entries@)
    }

    /// The entries with their keys as byte sequences, in ascending key order.
    pub closed spec fn entry_views(&self) -> Seq<(Seq<u8>, V)> {
        self.entries@.map(|i: int, e: (Vec<u8>, V)| (e.0@, e.1))
    }

    /// The entry list is sorted, and it is exactly the graph of the map.
    pub proof fn lemma_entries(&self)
        requires
            self.wf(),
        ensures
            forall|i: int, j: int|
                0 <= i < j < self.entry_views().len() ==> lex_lt(
                    #[trigger] self.entry_views()[i].0,
                    #[trigger] self.entry_views()[j].0,
                ),
            forall|i: int|
                0 <= i < self.entry_views().len() ==> self@.contains_key(
                    #[trigger] self.entry_views()[i].0,
                ) && self@[self.entry_views()[i].0] == self.entry_views()[i].1,
            forall|k: Seq<u8>|
                self@.contains_key(k) ==> exists|i: int|
                    0 <= i < self.entry_views().len() && #[trigger] self.entry_views()[i].0 == k,
    {
        lemma_assoc_distinct(self.entries@);
        assert forall|i: int|
            0 <= i < self.entry_views().len() implies self@.contains_key(
            #[trigger] self.entry_views()[i].0,
        ) && self@[self.entry_views()[i].0] == self.entry_views()[i].1 by {
            lemma_assoc_index(self.entries@, i);
        }
        assert forall|k: Seq<u8>| self@.contains_key(k) implies exists|i: int|
            0 <= i < self.entry_views().len() && #[trigger] self.entry_views()[i].0 == k by {
            lemma_assoc_contains(self.entries@, k);
            let i = choose|i: int| 0 <= i < self.entries@.len() && self.entries@[i].0@ == k;
            assert(self.entry_views()[i].0 == k);
        }
    }

    /// An empty map.
    pub fn new() -> (r: SortedMap<V>)
        ensures
            r.wf(),
            r@ == Map::<Seq<u8>, V>::empty(),
            r.entry_views() == Seq::<(Seq<u8>, V)>::empty(),
    {
        let r = SortedMap { entries: Vec::new() };
        proof {
            assert(r.entry_views() =~= Seq::<(Seq<u8>, V)>::empty());
        }
        r
    }

    /// The number of keys held.
    pub fn len(&self) -> (n: usize)
        requires
            self.wf(),
        ensures
            n == self.entry_views().len(),
    {
        self.entries.len()
    }

    /// Finds the first position whose key is not below `key`.
    fn lower_bound(&self, key: &Vec<u8>) -> (p: usize)
        requires
            self.wf(),
        ensures
            0 <= p <= self.entries@.len(),
            forall|j: int| 0 <= j < p ==> lex_lt(#[trigger] self.entries@[j].0@, key@),
            p < self.entries@.len() ==> !lex_lt(self.entries@[p as int].0@, key@),
    {
        let mut p: usize = 0;
        while p < self.entries.len()
            invariant
                0 <= p <= self.entries@.len(),
                forall|j: int| 0 <= j < p ==> lex_lt(#[trigger] self.entries@[j].0@, key@),
            decreases self.entries@.len() - p,
        {
            if !bytes_lt(&self.entries[p].0, key) {
                return p;
            }
            p = p + 1;
        }
        p
    }

    /// Reads the value held under `key`.
    pub fn get(&self, key: &Vec<u8>) -> (r: Option<V>)
        requires
            self.wf(),
        ensures
            r is Some <==> self@.contains_key(key@),
            r is Some ==> r.unwrap() == self@[key@],
    {
        let p = self.lower_bound(key);
        proof {
            lemma_assoc_distinct(self.entries@);
            lemma_assoc_contains(self.entries@, key@);
        }
        if p < self.entries.len() && bytes_eq(&self.entries[p].0, key) {
            proof {
                lemma_assoc_index(self.entries@, p as int);
            }
            Some(self.entries[p].1)
        } else {
            proof {
                if self@.contains_key(key@) {
                    let i = choose|i: int|
                        0 <= i < self.entries@.len() && self.entries@[i].0@ == key@;
                    if i < p as int {
                        assert(lex_lt(self.entries@[i].0@, key@));
                        lemma_lex_irrefl(key@);
                    } else {
                        lemma_lex_total(self.entries@[p as int].0@, key@);
                        if i > p {
                            lemma_lex_asym(self.entries@[p as int].0@, self.entries@[i].0@);
                        }
                    }
                }
            }
            None
        }
    }

    /// Holds `value` under `key`, replacing what was there.
    pub fn insert(&mut self, key: Vec<u8>, value: V)
        requires
            old(self).wf(),
        ensures
            final(self).wf(),
            final(self)@ == old(self)@.insert(key@, value),
            old(self)@.contains_key(key@) ==> final(self).entry_views().len()
                == old(self).entry_views().len(),
            !old(self)@.contains_key(key@) ==> final(self).entry_views().len()
                == old(self).entry_views().len() + 1,
    {
        let p = self.lower_bound(&key);
        proof {
            lemma_assoc_distinct(self.entries@);
            lemma_assoc_contains(self.entries@, key@);
        }
        if p < self.entries.len() && bytes_eq(&self.entries[p].0, &key) {
            let ghost s = self.entries@;
            proof {
                lemma_assoc_index(s, p as int);
                lemma_assoc_update(s, p as int, (key, value));
            }
            self.entries[p] = (key, value);
            proof {
                assert forall|i: int, j: int|
                    0 <= i < j < self.entries@.len() implies lex_lt(
                    #[trigger] self.entries@[i].0@,
                    #[trigger] self.entries@[j].0@,
                ) by {
                    assert(lex_lt(s[i].0@, s[j].0@));
                }
            }
        } else {
            let ghost s = self.entries@;
            let ghost kview = key@;
            proof {
                if p < s.len() {
                    lemma_lex_total(s[p as int].0@, kview);
                }
                assert forall|x: int| 0 <= x < s.len() implies #[trigger] s[x].0@ != kview by {
                    if x < p {
                        lemma_lex_asym(s[x].0@, kview);
                    } else if x == p {
                    } else {
                        assert(lex_lt(s[p as int].0@, s[x].0@));
                        lemma_lex_trans(kview, s[p as int].0@, s[x].0@);
                        lemma_lex_asym(kview, s[x].0@);
                    }
                }
                lemma_assoc_insert_at(s, p as int, (key, value));
            }
            self.entries.insert(p, (key, value));
            proof {
                assert forall|i: int, j: int|
                    0 <= i < j < self.entries@.len() implies lex_lt(
                    #[trigger] self.entries@[i].0@,
                    #[trigger] self.entries@[j].0@,
                ) by {
                    let pi = p as int;
                    if j < pi {
                        assert(lex_lt(s[i].0@, s[j].0@));
                    } else if j == pi {
                        assert(self.entries@[i] == s[i]);
                        assert(lex_lt(s[i].0@, kview));
                    } else if i < pi {
                        assert(self.entries@[i] == s[i]);
                        assert(self.entries@[j] == s[j - 1]);
                        if j - 1 == pi {
                            assert(lex_lt(s[i].0@, s[pi].0@));
                        } else {
                            assert(lex_lt(s[i].0@, s[j - 1].0@));
                        }
                    } else if i == pi {
                        assert(self.entries@[j] == s[j - 1]);
                        if j - 1 == pi {
                            assert(lex_lt(kview, s[pi].0@));
                        } else {
                            assert(lex_lt(s[pi].0@, s[j - 1].0@));
                            assert(lex_lt(kview, s[pi].0@));
                            lemma_lex_trans(kview, s[pi].0@, s[j - 1].0@);
                        }
                    } else {
                        assert(self.entries@[i] == s[i - 1]);
                        assert(self.entries@[j] == s[j - 1]);
                        assert(lex_lt(s[i - 1].0@, s[j - 1].0@));
                    }
                }
            }
        }
    }

    /// Takes a key and its value out of the map.
    pub fn remove(&mut self, key: &Vec<u8>)
        requires
            old(self).wf(),
        ensures
            final(self).wf(),
            final(self)@ == old(self)@.remove(key@),
    {
        let p = self.lower_bound(key);
        proof {
            lemma_assoc_distinct(self.entries@);
            lemma_assoc_contains(self.entries@, key@);
        }
        if p < self.entries.len() && bytes_eq(&self.entries[p].0, key) {
            let ghost s = self.entries@;
            proof {
                lemma_assoc_remove(s, p as int);
            }
            self.entries.remove(p);
            proof {
                assert forall|i: int, j: int|
                    0 <= i < j < self.entries@.len() implies lex_lt(
                    #[trigger] self.entries@[i].0@,
                    #[trigger] self.entries@[j].0@,
                ) by {
                    let pi = p as int;
                    let i0: int = if i < pi { i } else { i + 1 };
                    let j0: int = if j < pi { j } else { j + 1 };
                    assert(self.entries@[i] == s[i0]);
                    assert(self.entries@[j] == s[j0]);
                    assert(lex_lt(s[i0].0@, s[j0].0@));
                }
            }
        } else {
            proof {
                if self@.contains_key(key@) {
                    let i = choose|i: int|
                        0 <= i < self.entries@.len() && self.entries@[i].0@ == key@;
                    if i < p as int {
                        assert(lex_lt(self.entries@[i].0@, key@));
                        lemma_lex_irrefl(key@);
                    } else {
                        lemma_lex_total(self.entries@[p as int].0@, key@);
                        if i > p {
                            lemma_lex_asym(self.entries@[p as int].0@, self.entries@[i].0@);
                        }
                    }
                }
                assert(self@.remove(key@) =~= self@);
            }
        }
    }

    /// The key at a position of the sorted entry list.
    pub fn key_at(&self, i: usize) -> (k: &Vec<u8>)
        requires
            self.wf(),
            i < self.entry_views().len(),
        ensures
            k@ == self.entry_views()[i as int].0,
    {
        &self.entries[i].0
    }

    /// The value at a position of the sorted entry list.
    pub fn value_at(&self, i: usize) -> (v: V)
        requires
            self.wf(),
            i < self.entry_views().len(),
        ensures
            v == self.entry_views()[i as int].1,
    {
        self.entries[i].1
    }
}

} // verus!
