//! An ordered key-value store held in memory: the storage engine the index
//! core runs on. Keys are byte strings; iteration follows the lexicographic
//! key order; a batch of writes is applied as one atomic step.

use vstd::prelude::*;
use vstd::map::*;
use crate::lex::{lex_lt, is_prefix_of, bytes_lt, bytes_eq, bytes_has_prefix};
use crate::lex::{lemma_lex_total, lemma_lex_trans, lemma_lex_asym, lemma_lex_irrefl};

verus! {

/// One write of a batch: either store a value under a key or remove a key.
pub enum KvOp {
    Put { key: Vec<u8>, value: Vec<u8> },
    Delete { key: Vec<u8> },
}

impl KvOp {
    /// The effect of this single write on the abstract map.
    pub open spec fn apply(self, m: Map<Seq<u8>, Seq<u8>>) -> Map<Seq<u8>, Seq<u8>> {
        match self {
            KvOp::Put { key, value } => m.insert(key@, value@),
            KvOp::Delete { key } => m.remove(key@),
        }
    }
}

/// The effect of a whole batch, first write first.
pub open spec fn apply_batch(m: Map<Seq<u8>, Seq<u8>>, ops: Seq<KvOp>) -> Map<Seq<u8>, Seq<u8>>
    decreases ops.len(),
{
    if ops.len() == 0 {
        m
    } else {
        apply_batch(ops[0].apply(m), ops.skip(1))
    }
}

/// The abstract contents of a sequence of entries: later entries win.
pub open spec fn map_of(s: Seq<(Vec<u8>, Vec<u8>)>) -> Map<Seq<u8>, Seq<u8>>
    decreases s.len(),
{
    if s.len() == 0 {
        Map::empty()
    } else {
        map_of(s.drop_last()).insert(s.last().0@, s.last().1@)
    }
}

/// Entry keys are strictly ascending in lexicographic order.
pub open spec fn entries_sorted(s: Seq<(Vec<u8>, Vec<u8>)>) -> bool {
    forall|i: int, j: int| 0 <= i < j < s.len() ==> lex_lt(#[trigger] s[i].0@, #[trigger] s[j].0@)
}

/// An ordered key-value store. Entries are kept sorted by key; the view is
/// the map from keys to values.
pub struct KvStore {
    entries: Vec<(Vec<u8>, Vec<u8>)>,
}

impl View for KvStore {
    type V = Map<Seq<u8>, Seq<u8>>;

    closed spec fn view(&self) -> Map<Seq<u8>, Seq<u8>> {
        map_of(self.entries@)
    }
}

/// A key of the map is a key of some entry.
pub proof fn lemma_map_of_contains(s: Seq<(Vec<u8>, Vec<u8>)>, k: Seq<u8>)
    ensures
        map_of(s).contains_key(k) <==> exists|i: int| 0 <= i < s.len() && s[i].0@ == k,
    decreases s.len(),
{
    if s.len() > 0 {
        lemma_map_of_contains(s.drop_last(), k);
        if map_of(s).contains_key(k) {
            if s.last().0@ == k {
                assert(s[s.len() - 1].0@ == k);
            } else {
                let i = choose|i: int| 0 <= i < s.drop_last().len() && s.drop_last()[i].0@ == k;
                assert(s[i].0@ == k);
            }
        }
        if exists|i: int| 0 <= i < s.len() && s[i].0@ == k {
            let i = choose|i: int| 0 <= i < s.len() && s[i].0@ == k;
            if i < s.len() - 1 {
                assert(s.drop_last()[i].0@ == k);
            }
        }
    }
}

/// Sorted entries have pairwise distinct keys.
pub proof fn lemma_sorted_distinct(s: Seq<(Vec<u8>, Vec<u8>)>)
    requires
        entries_sorted(s),
    ensures
        forall|i: int, j: int|
            0 <= i < s.len() && 0 <= j < s.len() && i != j ==> #[trigger] s[i].0@ != #[trigger] s[j].0@,
{
    assert forall|i: int, j: int|
        0 <= i < s.len() && 0 <= j < s.len() && i != j implies #[trigger] s[i].0@ != #[trigger] s[j].0@ by {
        if i < j {
            lemma_lex_asym(s[i].0@, s[j].0@);
        } else {
            lemma_lex_asym(s[j].0@, s[i].0@);
        }
    }
}

/// With distinct keys, each entry is what the map holds under its key.
pub proof fn lemma_map_of_index(s: Seq<(Vec<u8>, Vec<u8>)>, i: int)
    requires
        0 <= i < s.len(),
        forall|x: int, y: int|
            0 <= x < s.len() && 0 <= y < s.len() && x != y ==> #[trigger] s[x].0@ != #[trigger] s[y].0@,
    ensures
        map_of(s).contains_key(s[i].0@),
        map_of(s)[s[i].0@] == s[i].1@,
    decreases s.len(),
{
    if i == s.len() - 1 {
    } else {
        assert forall|x: int, y: int|
            0 <= x < s.drop_last().len() && 0 <= y < s.drop_last().len() && x != y implies
            #[trigger] s.drop_last()[x].0@ != #[trigger] s.drop_last()[y].0@ by {
            assert(s[x] == s.drop_last()[x]);
            assert(s[y] == s.drop_last()[y]);
        }
        lemma_map_of_index(s.drop_last(), i);
        assert(s[i].0@ != s.last().0@);
    }
}

/// Replacing the value under an existing key updates the map in place.
proof fn lemma_map_of_update(s: Seq<(Vec<u8>, Vec<u8>)>, i: int, e: (Vec<u8>, Vec<u8>))
    requires
        0 <= i < s.len(),
        e.0@ == s[i].0@,
        forall|x: int, y: int|
            0 <= x < s.len() && 0 <= y < s.len() && x != y ==> #[trigger] s[x].0@ != #[trigger] s[y].0@,
    ensures
        map_of(s.update(i, e)) == map_of(s).insert(e.0@, e.1@),
    decreases s.len(),
{
    let s2 = s.update(i, e);
    if i == s.len() - 1 {
        assert(s2.drop_last() =~= s.drop_last());
        assert(map_of(s2) == map_of(s.drop_last()).insert(e.0@, e.1@));
        assert(map_of(s.drop_last()).insert(s.last().0@, s.last().1@).insert(e.0@, e.1@)
            =~= map_of(s.drop_last()).insert(e.0@, e.1@));
    } else {
        assert forall|x: int, y: int|
            0 <= x < s.drop_last().len() && 0 <= y < s.drop_last().len() && x != y implies
            #[trigger] s.drop_last()[x].0@ != #[trigger] s.drop_last()[y].0@ by {
            assert(s[x] == s.drop_last()[x]);
            assert(s[y] == s.drop_last()[y]);
        }
        assert(s.drop_last()[i] == s[i]);
        lemma_map_of_update(s.drop_last(), i, e);
        assert(s2.drop_last() =~= s.drop_last().update(i, e));
        assert(s2.last() == s.last());
        assert(s[i].0@ != s.last().0@);
        assert(map_of(s.drop_last()).insert(e.0@, e.1@).insert(s.last().0@, s.last().1@)
            =~= map_of(s.drop_last()).insert(s.last().0@, s.last().1@).insert(e.0@, e.1@));
    }
}

/// Inserting an entry under a fresh key anywhere inserts it into the map.
proof fn lemma_map_of_insert_at(s: Seq<(Vec<u8>, Vec<u8>)>, p: int, e: (Vec<u8>, Vec<u8>))
    requires
        0 <= p <= s.len(),
        forall|x: int| 0 <= x < s.len() ==> #[trigger] s[x].0@ != e.0@,
    ensures
        map_of(s.insert(p, e)) == map_of(s).insert(e.0@, e.1@),
    decreases s.len(),
{
    let s2 = s.insert(p, e);
    if p == s.len() {
        assert(s2.drop_last() =~= s);
        assert(s2.last() == e);
    } else {
        assert(s2.last() == s.last());
        assert(s2.drop_last() =~= s.drop_last().insert(p, e));
        assert forall|x: int| 0 <= x < s.drop_last().len() implies #[trigger] s.drop_last()[x].0@
            != e.0@ by {
            assert(s.drop_last()[x] == s[x]);
        }
        lemma_map_of_insert_at(s.drop_last(), p, e);
        assert(s.last().0@ != e.0@);
        assert(map_of(s.drop_last()).insert(e.0@, e.1@).insert(s.last().0@, s.last().1@)
            =~= map_of(s.drop_last()).insert(s.last().0@, s.last().1@).insert(e.0@, e.1@));
    }
}

/// Removing an entry removes its key from the map.
proof fn lemma_map_of_remove(s: Seq<(Vec<u8>, Vec<u8>)>, i: int)
    requires
        0 <= i < s.len(),
        forall|x: int, y: int|
            0 <= x < s.len() && 0 <= y < s.len() && x != y ==> #[trigger] s[x].0@ != #[trigger] s[y].0@,
    ensures
        map_of(s.remove(i)) == map_of(s).remove(s[i].0@),
    decreases s.len(),
{
    let s2 = s.remove(i);
    if i == s.len() - 1 {
        assert(s2 =~= s.drop_last());
        lemma_map_of_contains(s.drop_last(), s[i].0@);
        assert forall|x: int| 0 <= x < s.drop_last().len() implies #[trigger] s.drop_last()[x].0@
            != s[i].0@ by {
            assert(s.drop_last()[x] == s[x]);
        }
        assert(!map_of(s.drop_last()).contains_key(s[i].0@));
        assert(map_of(s.drop_last()).insert(s.last().0@, s.last().1@).remove(s[i].0@)
            =~= map_of(s.drop_last()));
    } else {
        assert(s2.last() == s.last());
        assert(s2.drop_last() =~= s.drop_last().remove(i));
        assert forall|x: int, y: int|
            0 <= x < s.drop_last().len() && 0 <= y < s.drop_last().len() && x != y implies
            #[trigger] s.drop_last()[x].0@ != #[trigger] s.drop_last()[y].0@ by {
            assert(s[x] == s.drop_last()[x]);
            assert(s[y] == s.drop_last()[y]);
        }
        assert(s.drop_last()[i] == s[i]);
        lemma_map_of_remove(s.drop_last(), i);
        assert(s[i].0@ != s.last().0@);
        assert(map_of(s.drop_last()).remove(s[i].0@).insert(s.last().0@, s.last().1@)
            =~= map_of(s.drop_last()).insert(s.last().0@, s.last().1@).remove(s[i].0@));
    }
}

/// Copies a byte string.
pub fn clone_bytes(v: &Vec<u8>) -> (r: Vec<u8>)
    ensures
        r@ == v@,
{
    let r = v.clone();
    proof {
        assert(r@ =~= v@);
    }
    r
}

impl KvStore {
    /// The store keeps its entries strictly sorted by key.
    pub closed spec fn wf(&self) -> bool {
        entries_sorted(self.entries@)
    }

    /// An empty store.
    pub fn new() -> (r: KvStore)
        ensures
            r.wf(),
            r@ == Map::<Seq<u8>, Seq<u8>>::empty(),
    {
        KvStore { entries: Vec::new() }
    }

    /// Finds the first position whose key is not below `key`; every earlier
    /// key is strictly below `key`.
    fn lower_bound(&self, key: &Vec<u8>) -> (p: usize)
        requires
            self.wf(),
        ensures
            0 <= p <= self.entries@.len(),
            forall|j: int| 0 <= j < p ==> lex_lt(#[trigger] self.entries@[j].0@, key@),
            p < self.entries@.len() ==> !lex_lt(self.entries@[p as int].0@, key@),
    {
        let mut p: usize = 0;
        while p < self.entries.len()
            invariant
                0 <= p <= self.entries@.len(),
                forall|j: int| 0 <= j < p ==> lex_lt(#[trigger] self.entries@[j].0@, key@),
            decreases self.entries@.len() - p,
        {
            if !bytes_lt(&self.entries[p].0, key) {
                return p;
            }
            p = p + 1;
        }
        p
    }

    /// Reads the value stored under `key`.
    pub fn get(&self, key: &Vec<u8>) -> (r: Option<Vec<u8>>)
        requires
            self.wf(),
        ensures
            r is Some <==> self@.contains_key(key@),
            r is Some ==> r.unwrap()@ == self@[key@],
    {
        let p = self.lower_bound(key);
        proof {
            lemma_sorted_distinct(self.entries@);
            lemma_map_of_contains(self.entries@, key@);
        }
        if p < self.entries.len() && bytes_eq(&self.entries[p].0, key) {
            proof {
                lemma_map_of_index(self.entries@, p as int);
            }
            Some(clone_bytes(&self.entries[p].1))
        } else {
            proof {
                if self@.contains_key(key@) {
                    let i = choose|i: int|
                        0 <= i < self.entries@.len() && self.entries@[i].0@ == key@;
                    if i < p as int {
                        assert(lex_lt(self.entries@[i].0@, key@));
                        lemma_lex_irrefl(key@);
                    } else {
                        lemma_lex_total(self.entries@[p as int].0@, key@);
                        if i > p {
                            lemma_lex_asym(self.entries@[p as int].0@, self.entries@[i].0@);
                        }
                    }
                }
            }
            None
        }
    }

    /// Stores `value` under `key`, replacing what was there.
    pub fn put(&mut self, key: Vec<u8>, value: Vec<u8>)
        requires
            old(self).wf(),
        ensures
            final(self).wf(),
            final(self)@ == old(self)@.insert(key@, value@),
    {
        let p = self.lower_bound(&key);
        proof {
            lemma_sorted_distinct(self.entries@);
        }
        if p < self.entries.len() && bytes_eq(&self.entries[p].0, &key) {
            let ghost s = self.entries@;
            proof {
                lemma_map_of_update(s, p as int, (key, value));
            }
            self.entries[p] = (key, value);
            proof {
                assert forall|i: int, j: int|
                    0 <= i < j < self.entries@.len() implies lex_lt(
                    #[trigger] self.entries@[i].0@,
                    #[trigger] self.entries@[j].0@,
                ) by {
                    assert(lex_lt(s[i].0@, s[j].0@));
                }
            }
        } else {
            let ghost s = self.entries@;
            let ghost kview = key@;
            proof {
                if p < s.len() {
                    lemma_lex_total(s[p as int].0@, kview);
                }
                assert forall|x: int| 0 <= x < s.len() implies #[trigger] s[x].0@ != kview by {
                    if x < p {
                        lemma_lex_asym(s[x].0@, kview);
                    } else if x == p {
                    } else {
                        assert(lex_lt(s[p as int].0@, s[x].0@));
                        lemma_lex_trans(kview, s[p as int].0@, s[x].0@);
                        lemma_lex_asym(kview, s[x].0@);
                    }
                }
                lemma_map_of_insert_at(s, p as int, (key, value));
            }
            self.entries.insert(p, (key, value));
            proof {
                assert forall|i: int, j: int|
                    0 <= i < j < self.entries@.len() implies lex_lt(
                    #[trigger] self.entries@[i].0@,
                    #[trigger] self.entries@[j].0@,
                ) by {
                    let pi = p as int;
                    if j < pi {
                        assert(lex_lt(s[i].0@, s[j].0@));
                    } else if j == pi {
                        assert(self.entries@[i] == s[i]);
                        assert(lex_lt(s[i].0@, kview));
                    } else if i < pi {
                        assert(self.entries@[i] == s[i]);
                        assert(self.entries@[j] == s[j - 1]);
                        if j - 1 == pi {
                            assert(lex_lt(s[i].0@, s[pi].0@));
                        } else {
                            assert(lex_lt(s[i].0@, s[j - 1].0@));
                        }
                    } else if i == pi {
                        assert(self.entries@[j] == s[j - 1]);
                        if j - 1 == pi {
                            assert(lex_lt(kview, s[pi].0@));
                        } else {
                            assert(lex_lt(s[pi].0@, s[j - 1].0@));
                            assert(lex_lt(kview, s[pi].0@));
                            lemma_lex_trans(kview, s[pi].0@, s[j - 1].0@);
                        }
                    } else {
                        assert(self.entries@[i] == s[i - 1]);
                        assert(self.entries@[j] == s[j - 1]);
                        assert(lex_lt(s[i - 1].0@, s[j - 1].0@));
                    }
                }
            }
        }
    }

    /// Removes `key` and whatever was stored under it.
    pub fn delete(&mut self, key: &Vec<u8>)
        requires
            old(self).wf(),
        ensures
            final(self).wf(),
            final(self)@ == old(self)@.remove(key@),
    {
        let p = self.lower_bound(key);
        proof {
            lemma_sorted_distinct(self.entries@);
            lemma_map_of_contains(self.entries@, key@);
        }
        if p < self.entries.len() && bytes_eq(&self.entries[p].0, key) {
            let ghost s = self.entries@;
            proof {
                lemma_map_of_remove(s, p as int);
            }
            self.entries.remove(p);
            proof {
                assert forall|i: int, j: int|
                    0 <= i < j < self.entries@.len() implies lex_lt(
                    #[trigger] self.entries@[i].0@,
                    #[trigger] self.entries@[j].0@,
                ) by {
                    let pi = p as int;
                    let i0: int = if i < pi { i } else { i + 1 };
                    let j0: int = if j < pi { j } else { j + 1 };
                    assert(self.entries@[i] == s[i0]);
                    assert(self.entries@[j] == s[j0]);
                    assert(lex_lt(s[i0].0@, s[j0].0@));
                }
            }
        } else {
            proof {
                if self@.contains_key(key@) {
                    let i = choose|i: int|
                        0 <= i < self.entries@.len() && self.entries@[i].0@ == key@;
                    if i < p as int {
                        assert(lex_lt(self.entries@[i].0@, key@));
                        lemma_lex_irrefl(key@);
                    } else {
                        lemma_lex_total(self.entries@[p as int].0@, key@);
                        if i > p {
                            lemma_lex_asym(self.entries@[p as int].0@, self.entries@[i].0@);
                        }
                    }
                }
                assert(self@.remove(key@) =~= self@);
            }
        }
    }

    /// Applies every write of the batch, in order, as one atomic step.
    pub fn write_batch(&mut self, ops: Vec<KvOp>)
        requires
            old(self).wf(),
        ensures
            final(self).wf(),
            final(self)@ == apply_batch(old(self)@, ops@),
    {
        let ghost all_ops = ops@;
        let ghost m0 = self@;
        let mut rest = ops;
        let ghost mut done: int = 0;
        while rest.len() > 0
            invariant
                self.wf(),
                0 <= done,
                done + rest@.len() == all_ops.len(),
                rest@ =~= all_ops.skip(done),
                self@ == apply_batch(m0, all_ops.take(done)),
            decreases rest@.len(),
        {
            let op = rest.remove(0);
            proof {
                assert(op == all_ops[done]);
            }
            match op {
                KvOp::Put { key, value } => {
                    self.put(key, value);
                }
                KvOp::Delete { key } => {
                    self.delete(&key);
                }
            }
            proof {
                done = done + 1;
                assert(all_ops.take(done).drop_last() =~= all_ops.take(done - 1));
                assert(all_ops.take(done).last() == all_ops[done - 1]);
                lemma_apply_batch_snoc(m0, all_ops.take(done));
                assert(rest@ =~= all_ops.skip(done));
            }
        }
        proof {
            assert(all_ops.take(done) =~= all_ops);
        }
    }

    /// Returns every entry whose key begins with `prefix`, in ascending key
    /// order: each returned pair is in the store, and every stored key with
    /// the prefix is returned.
    pub fn iter_from(&self, prefix: &Vec<u8>) -> (r: Vec<(Vec<u8>, Vec<u8>)>)
        requires
            self.wf(),
        ensures
            entries_sorted(r@),
            forall|i: int| 0 <= i < r@.len() ==> is_prefix_of(prefix@, #[trigger] r@[i].0@),
            forall|i: int|
                0 <= i < r@.len() ==> self@.contains_key(#[trigger] r@[i].0@) && self@[r@[i].0@]
                    == r@[i].1@,
            forall|k: Seq<u8>|
                self@.contains_key(k) && is_prefix_of(prefix@, k) ==> exists|i: int|
                    0 <= i < r@.len() && #[trigger] r@[i].0@ == k,
    {
        proof {
            lemma_sorted_distinct(self.entries@);
        }
        let mut r: Vec<(Vec<u8>, Vec<u8>)> = Vec::new();
        let mut i: usize = 0;
        while i < self.entries.len()
            invariant
                self.wf(),
                forall|x: int, y: int|
                    0 <= x < self.entries@.len() && 0 <= y < self.entries@.len() && x != y
                        ==> #[trigger] self.entries@[x].0@ != #[trigger] self.entries@[y].0@,
                0 <= i <= self.entries@.len(),
                entries_sorted(r@),
                forall|x: int| 0 <= x < r@.len() ==> is_prefix_of(prefix@, #[trigger] r@[x].0@),
                forall|x: int|
                    0 <= x < r@.len() ==> self@.contains_key(#[trigger] r@[x].0@) && self@[r@[x].0@]
                        == r@[x].1@,
                forall|x: int| 0 <= x < r@.len() ==> exists|y: int|
                    0 <= y < i && #[trigger] r@[x].0@ == self.entries@[y].0@,
                forall|y: int|
                    0 <= y < i && is_prefix_of(prefix@, #[trigger] self.entries@[y].0@)
                        ==> exists|x: int| 0 <= x < r@.len() && #[trigger] r@[x].0@
                        == self.entries@[y].0@,
            decreases self.entries@.len() - i,
        {
            let ghost rpre = r@;
            let ghost es = self.entries@;
            let ghost ii = i as int;
            if bytes_has_prefix(&self.entries[i].0, prefix) {
                let k = clone_bytes(&self.entries[i].0);
                let v = clone_bytes(&self.entries[i].1);
                r.push((k, v));
                proof {
                    lemma_map_of_index(es, ii);
                    assert(r@ =~= rpre.push((k, v)));
                    assert(r@[rpre.len() as int].0@ == es[ii].0@);
                    assert(r@[rpre.len() as int].1@ == es[ii].1@);
                    assert forall|x: int, y: int| 0 <= x < y < r@.len() implies lex_lt(
                        #[trigger] r@[x].0@,
                        #[trigger] r@[y].0@,
                    ) by {
                        if y < rpre.len() {
                            assert(r@[x] == rpre[x]);
                            assert(r@[y] == rpre[y]);
                            assert(lex_lt(rpre[x].0@, rpre[y].0@));
                        } else {
                            assert(r@[x] == rpre[x]);
                            let w = choose|w: int| 0 <= w < ii && rpre[x].0@ == es[w].0@;
                            assert(lex_lt(es[w].0@, es[ii].0@));
                        }
                    }
                    assert forall|x: int| 0 <= x < r@.len() implies is_prefix_of(
                        prefix@,
                        #[trigger] r@[x].0@,
                    ) && self@.contains_key(r@[x].0@) && self@[r@[x].0@] == r@[x].1@ && exists|y: int|
                        0 <= y < ii + 1 && r@[x].0@ == es[y].0@ by {
                        if x < rpre.len() {
                            assert(r@[x] == rpre[x]);
                            let w = choose|w: int| 0 <= w < ii && rpre[x].0@ == es[w].0@;
                            assert(0 <= w < ii + 1 && r@[x].0@ == es[w].0@);
                        } else {
                            assert(0 <= ii < ii + 1 && r@[x].0@ == es[ii].0@);
                        }
                    }
                    assert forall|y: int|
                        0 <= y < ii + 1 && is_prefix_of(prefix@, #[trigger] es[y].0@) implies exists|x: int|
                        0 <= x < r@.len() && #[trigger] r@[x].0@ == es[y].0@ by {
                        if y < ii {
                            let x = choose|x: int| 0 <= x < rpre.len() && rpre[x].0@ == es[y].0@;
                            assert(r@[x] == rpre[x]);
                            assert(0 <= x < r@.len() && r@[x].0@ == es[y].0@);
                        } else {
                            assert(r@[rpre.len() as int].0@ == es[y].0@);
                        }
                    }
                }
            } else {
                proof {
                    assert(!is_prefix_of(prefix@, es[ii].0@));
                    assert forall|y: int|
                        0 <= y < ii + 1 && is_prefix_of(prefix@, #[trigger] es[y].0@) implies exists|x: int|
                        0 <= x < r@.len() && #[trigger] r@[x].0@ == es[y].0@ by {
                        assert(y < ii);
                    }
                }
            }
            i = i + 1;
        }
        proof {
            assert forall|k: Seq<u8>|
                self@.contains_key(k) && is_prefix_of(prefix@, k) implies exists|x: int|
                0 <= x < r@.len() && #[trigger] r@[x].0@ == k by {
                lemma_map_of_contains(self.entries@, k);
                let y = choose|y: int| 0 <= y < self.entries@.len() && self.entries@[y].0@ == k;
                assert(is_prefix_of(prefix@, self.entries@[y].0@));
            }
        }
        r
    }
}

/// A batch is one more write applied after the batch without it.
pub proof fn lemma_apply_batch_snoc(m: Map<Seq<u8>, Seq<u8>>, ops: Seq<KvOp>)
    requires
        ops.len() > 0,
    ensures
        apply_batch(m, ops) == ops.last().apply(apply_batch(m, ops.drop_last())),
    decreases ops.len(),
{
    if ops.len() == 1 {
        assert(ops.skip(1) =~= Seq::<KvOp>::empty());
        assert(ops.drop_last() =~= Seq::<KvOp>::empty());
        assert(ops.last() == ops[0]);
        assert(apply_batch(m, ops) == apply_batch(ops[0].apply(m), ops.skip(1)));
        assert(apply_batch(ops[0].apply(m), ops.skip(1)) == ops[0].apply(m));
        assert(apply_batch(m, ops.drop_last()) == m);
    } else {
        lemma_apply_batch_snoc(ops[0].apply(m), ops.skip(1));
        assert(ops.skip(1).drop_last() =~= ops.drop_last().skip(1));
        assert(ops.skip(1).last() == ops.last());
        assert(ops.drop_last()[0] == ops[0]);
        assert(apply_batch(m, ops) == apply_batch(ops[0].apply(m), ops.skip(1)));
        assert(apply_batch(m, ops.drop_last()) == apply_batch(
            ops[0].apply(m),
            ops.drop_last().skip(1),
        ));
    }
}

} // verus!
