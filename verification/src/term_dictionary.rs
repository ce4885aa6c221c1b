//! The term dictionary: a mapping from term encodings to compact term
//! references, held in memory and mirrored to the key-value store.
//!
//! Because terms can be long, posting keys do not carry term bytes: each
//! distinct term is issued a `TermRef` once, in ascending order, and the
//! reference is what posting keys hold. References are never recycled, and
//! the next reference to issue always exceeds every reference issued so far.

use vstd::prelude::*;
use crate::lex::{lex_lt, is_prefix_of, bytes_lt, bytes_eq, bytes_has_prefix};
use crate::term::{Term, TermRef, term_bytes};
use crate::assoc::SortedMap;
use crate::kvstore::KvStore;
use crate::dec::{dec_of, u32_to_dec, dec_to_u32, lemma_dec_of_canonical};

verus! {

/// A predicate over terms, applied to their canonical encodings.
pub enum TermSelector {
    Exact(Term),
    Prefix(Vec<u8>),
    Range { low: Vec<u8>, high: Vec<u8> },
    All,
}

/// Whether an encoded term satisfies the selector. A range holds the keys
/// from `low` inclusive up to `high` exclusive.
pub open spec fn selector_matches(sel: TermSelector, k: Seq<u8>) -> bool {
    match sel {
        TermSelector::Exact(t) => k == term_bytes(t),
        TermSelector::Prefix(p) => is_prefix_of(p@, k),
        TermSelector::Range { low, high } => (low@ == k || lex_lt(low@, k)) && lex_lt(k, high@),
        TermSelector::All => true,
    }
}

impl TermSelector {
    /// Tests an encoded term against this selector.
    pub fn matches_encoded(&self, k: &Vec<u8>) -> (r: bool)
        ensures
            r == selector_matches(*self, k@),
    {
        match self {
            TermSelector::Exact(t) => {
                let enc = t.encode();
                bytes_eq(k, &enc)
            },
            TermSelector::Prefix(p) => bytes_has_prefix(k, p),
            TermSelector::Range { low, high } => (bytes_eq(low, k) || bytes_lt(low, k))
                && bytes_lt(k, high),
            TermSelector::All => true,
        }
    }
}

/// The store key of a term dictionary entry: a `t` byte, then the encoding.
pub open spec fn term_key(tb: Seq<u8>) -> Seq<u8> {
    seq![116u8] + tb
}

/// The store key of the next-reference counter: the bytes of
/// `.next_term_ref`.
pub open spec fn next_ref_key() -> Seq<u8> {
    seq![46u8, 110, 101, 120, 116, 95, 116, 101, 114, 109, 95, 114, 101, 102]
}

/// Builds the store key of a term dictionary entry.
pub fn term_key_exec(tb: &Vec<u8>) -> (r: Vec<u8>)
    ensures
        r@ == term_key(tb@),
{
    let mut r: Vec<u8> = Vec::new();
    r.push(116);
    r.extend_from_slice(tb.as_slice());
    proof {
        assert(r@ =~= term_key(tb@));
    }
    r
}

/// Builds the store key of the next-reference counter.
pub fn next_ref_key_exec() -> (r: Vec<u8>)
    ensures
        r@ == next_ref_key(),
{
    let r: Vec<u8> = vec![46u8, 110, 101, 120, 116, 95, 116, 101, 114, 109, 95, 114, 101, 102];
    proof {
        assert(r@ =~= next_ref_key());
    }
    r
}

/// The bytes are the decimal form of an issuable reference.
pub open spec fn valid_ref_bytes(b: Seq<u8>) -> bool {
    exists|x: u32| 1 <= x < u32::MAX && b == dec_of(x as nat)
}

/// The reference whose decimal form the bytes are.
pub open spec fn ref_of_bytes(b: Seq<u8>) -> u32 {
    choose|x: u32| 1 <= x < u32::MAX && b == dec_of(x as nat)
}

/// The store's counter state is consistent: the counter key holds the
/// decimal of `n`, and every persisted reference is below `n`.
pub open spec fn counter_consistent(m: Map<Seq<u8>, Seq<u8>>, n: u32) -> bool {
    &&& m.contains_key(next_ref_key())
    &&& m[next_ref_key()] == dec_of(n as nat)
    &&& n >= 1
    &&& forall|tb: Seq<u8>, x: u32|
        #![trigger m[term_key(tb)], dec_of(x as nat)]
        m.contains_key(term_key(tb)) && 1 <= x < u32::MAX && m[term_key(tb)] == dec_of(x as nat)
            ==> x < n
}

/// The persisted dictionary binds each reference to at most one term.
pub open spec fn t_entries_injective(m: Map<Seq<u8>, Seq<u8>>) -> bool {
    forall|tb1: Seq<u8>, tb2: Seq<u8>, x: u32|
        #![trigger m[term_key(tb1)], m[term_key(tb2)], dec_of(x as nat)]
        m.contains_key(term_key(tb1)) && m.contains_key(term_key(tb2)) && 1 <= x < u32::MAX
            && m[term_key(tb1)] == dec_of(x as nat) && m[term_key(tb2)] == dec_of(x as nat)
            ==> tb1 == tb2
}

/// Decimal forms of distinct values differ.
pub proof fn lemma_dec_of_injective(x: nat, y: nat)
    requires
        dec_of(x) == dec_of(y),
    ensures
        x == y,
{
    lemma_dec_of_canonical(x);
    lemma_dec_of_canonical(y);
}

/// Copies a byte string without its first byte.
pub(crate) fn strip_first(k: &Vec<u8>) -> (r: Vec<u8>)
    requires
        k@.len() >= 1,
    ensures
        r@ == k@.skip(1),
{
    let mut r: Vec<u8> = Vec::new();
    let mut i: usize = 1;
    while i < k.len()
        invariant
            1 <= i <= k@.len(),
            r@ =~= k@.subrange(1, i as int),
        decreases k@.len() - i,
    {
        r.push(k[i]);
        i = i + 1;
    }
    proof {
        assert(r@ =~= k@.skip(1));
    }
    r
}

/// The in-memory term dictionary with its next-reference counter. The
/// persistent mirror lives in the key-value store the methods are handed.
pub struct TermDictionaryManager {
    next_term_ref: u32,
    terms: SortedMap<u32>,
}

impl View for TermDictionaryManager {
    type V = Map<Seq<u8>, u32>;

    closed spec fn view(&self) -> Map<Seq<u8>, u32> {
        self.terms@
    }
}

impl TermDictionaryManager {
    /// The next reference to issue.
    pub closed spec fn next_ref(&self) -> u32 {
        self.next_term_ref
    }

    /// Every held reference was issued: it is non-zero, below the next
    /// reference to issue, and held by exactly one term.
    pub closed spec fn wf(&self) -> bool {
        &&& self.terms.wf()
        &&& self.next_term_ref >= 1
        &&& forall|k: Seq<u8>| self.terms@.contains_key(k) ==> 1 <= #[trigger] self.terms@[k]
            < self.next_term_ref
        &&& forall|k1: Seq<u8>, k2: Seq<u8>|
            self.terms@.contains_key(k1) && self.terms@.contains_key(k2)
                && #[trigger] self.terms@[k1] == #[trigger] self.terms@[k2] ==> k1 == k2
    }

    /// The next reference strictly exceeds every reference the dictionary
    /// holds, zero is never held, and distinct terms hold distinct
    /// references.
    pub proof fn lemma_ref_bounds(&self)
        requires
            self.wf(),
        ensures
            self.next_ref() >= 1,
            forall|k: Seq<u8>| self@.contains_key(k) ==> 1 <= #[trigger] self@[k] < self.next_ref(),
            forall|k1: Seq<u8>, k2: Seq<u8>|
                self@.contains_key(k1) && self@.contains_key(k2) && #[trigger] self@[k1]
                    == #[trigger] self@[k2] ==> k1 == k2,
    {
    }

    /// A fresh dictionary over a fresh store: the counter starts at one and
    /// is persisted at once.
    pub fn new(kv: &mut KvStore) -> (r: TermDictionaryManager)
        requires
            old(kv).wf(),
        ensures
            final(kv).wf(),
            final(kv)@ == old(kv)@.insert(next_ref_key(), dec_of(1)),
            r.wf(),
            r@ == Map::<Seq<u8>, u32>::empty(),
            r.next_ref() == 1,
    {
        let nk = next_ref_key_exec();
        let one = u32_to_dec(1);
        kv.put(nk, one);
        TermDictionaryManager { next_term_ref: 1, terms: SortedMap::new() }
    }

    /// The next reference to issue, as a value.
    pub fn next_ref_value(&self) -> (r: u32)
        ensures
            r == self.next_ref(),
    {
        self.next_term_ref
    }

    /// Reads the reference held for a term.
    pub fn get(&self, term: &Term) -> (r: Option<TermRef>)
        requires
            self.wf(),
        ensures
            r is Some <==> self@.contains_key(term_bytes(*term)),
            r is Some ==> r.unwrap().ord == self@[term_bytes(*term)] && r.unwrap().valid(),
    {
        let enc = term.encode();
        match self.terms.get(&enc) {
            Some(x) => Some(TermRef::new(x)),
            None => None,
        }
    }

    /// Returns the reference for a term, issuing and persisting a fresh one
    /// when the term is new. A fresh issue first persists the bumped
    /// counter, then the dictionary entry, then updates the memory map.
    pub fn get_or_create(&mut self, kv: &mut KvStore, term: &Term) -> (r: TermRef)
        requires
            old(self).wf(),
            old(kv).wf(),
            old(self).next_ref() < u32::MAX,
        ensures
            final(self).wf(),
            final(kv).wf(),
            r.valid(),
            r.ord < final(self).next_ref(),
            final(self)@ == old(self)@.insert(term_bytes(*term), r.ord),
            final(self)@.contains_key(term_bytes(*term)),
            final(self)@[term_bytes(*term)] == r.ord,
            old(self)@.contains_key(term_bytes(*term)) ==> r.ord == old(self)@[term_bytes(*term)]
                && final(kv)@ == old(kv)@ && final(self).next_ref() == old(self).next_ref(),
            !old(self)@.contains_key(term_bytes(*term)) ==> r.ord == old(self).next_ref()
                && final(self).next_ref() == old(self).next_ref() + 1 && final(kv)@ == old(kv)@
                .insert(next_ref_key(), dec_of((r.ord + 1) as nat))
                .insert(term_key(term_bytes(*term)), dec_of(r.ord as nat)),
    {
        let enc = term.encode();
        match self.terms.get(&enc) {
            Some(x) => {
                proof {
                    assert(old(self)@.insert(term_bytes(*term), x) =~= old(self)@);
                }
                TermRef::new(x)
            },
            None => {
                let nr = self.next_term_ref;
                let nk = next_ref_key_exec();
                kv.put(nk, u32_to_dec(nr + 1));
                let tk = term_key_exec(&enc);
                kv.put(tk, u32_to_dec(nr));
                let ghost d0 = self.terms@;
                self.terms.insert(enc, nr);
                self.next_term_ref = nr + 1;
                proof {
                    assert forall|k1: Seq<u8>, k2: Seq<u8>|
                        self.terms@.contains_key(k1) && self.terms@.contains_key(k2)
                            && #[trigger] self.terms@[k1] == #[trigger] self.terms@[k2] implies k1
                        == k2 by {
                        if k1 != term_bytes(*term) && k2 != term_bytes(*term) {
                            assert(d0.contains_key(k1) && d0.contains_key(k2));
                        } else if k1 == term_bytes(*term) && k2 != term_bytes(*term) {
                            assert(d0.contains_key(k2));
                            assert(d0[k2] < nr);
                        } else if k2 == term_bytes(*term) && k1 != term_bytes(*term) {
                            assert(d0.contains_key(k1));
                            assert(d0[k1] < nr);
                        }
                    }
                }
                TermRef::new(nr)
            },
        }
    }

    /// Loads the dictionary back from a store: the counter from its key,
    /// and one term per `t`-entry whose value is a well-formed reference.
    /// The counter is raised past every loaded reference, so the dictionary
    /// keeps issuing fresh references whatever the store held.
    #[verifier::rlimit(100)]
    #[verifier::spinoff_prover]
    pub fn open(kv: &KvStore) -> (r: TermDictionaryManager)
        requires
            kv.wf(),
        ensures
            r.wf(),
            forall|tb: Seq<u8>|
                #[trigger] r@.contains_key(tb) ==> kv@.contains_key(term_key(tb))
                    && valid_ref_bytes(kv@[term_key(tb)]),
            t_entries_injective(kv@) ==> (forall|tb: Seq<u8>|
                #[trigger] r@.contains_key(tb) <==> kv@.contains_key(term_key(tb))
                    && valid_ref_bytes(kv@[term_key(tb)])),
            t_entries_injective(kv@) ==> (forall|tb: Seq<u8>, x: u32|
                #![trigger kv@[term_key(tb)], dec_of(x as nat)]
                kv@.contains_key(term_key(tb)) && 1 <= x < u32::MAX && kv@[term_key(tb)] == dec_of(
                    x as nat,
                ) ==> r@.contains_key(tb) && r@[tb] == x),
            forall|n: u32|
                kv@.contains_key(next_ref_key()) && kv@[next_ref_key()] == dec_of(n as nat)
                    ==> r.next_ref() >= n,
            forall|n: u32| #[trigger] counter_consistent(kv@, n) ==> r.next_ref() == n,
    {
        let nk = next_ref_key_exec();
        let mut next: u32 = 1;
        match kv.get(&nk) {
            Some(v) => {
                match dec_to_u32(&v) {
                    Some(n) => {
                        if n >= 1 {
                            next = n;
                        }
                        proof {
                            assert forall|m: u32|
                                kv@[next_ref_key()] == dec_of(m as nat) implies next >= m by {
                                lemma_dec_of_injective(n as nat, m as nat);
                            }
                            assert forall|m: u32| #[trigger] counter_consistent(kv@, m) implies
                                next == m by {
                                lemma_dec_of_injective(n as nat, m as nat);
                            }
                        }
                    },
                    None => {
                        proof {
                            assert forall|m: u32|
                                kv@[next_ref_key()] != dec_of(m as nat) by {
                                if kv@[next_ref_key()] == dec_of(m as nat) {
                                    assert(v@ == dec_of(m as nat));
                                }
                            }
                            assert forall|m: u32| #[trigger] counter_consistent(kv@, m) implies
                                next == m by {
                                assert(kv@[next_ref_key()] != dec_of(m as nat));
                            }
                        }
                    },
                }
            },
            None => {
                proof {
                    assert forall|m: u32| #[trigger] counter_consistent(kv@, m) implies next
                        == m by {
                        assert(kv@.contains_key(next_ref_key()));
                    }
                }
            },
        }
        let ghost next0 = next;
        let mut prefix: Vec<u8> = Vec::new();
        prefix.push(116);
        let entries = kv.iter_from(&prefix);
        let ghost es = entries@;
        proof {
            crate::kvstore::lemma_sorted_distinct(es);
        }
        let ghost inj = t_entries_injective(kv@);
        let mut terms: SortedMap<u32> = SortedMap::new();
        let mut i: usize = 0;
        while i < entries.len()
            invariant
                kv.wf(),
                inj == t_entries_injective(kv@),
                next0 <= next,
                1 <= next,
                es == entries@,
                0 <= i <= es.len(),
                terms.wf(),
                forall|tb1: Seq<u8>, tb2: Seq<u8>|
                    terms@.contains_key(tb1) && terms@.contains_key(tb2) && #[trigger] terms@[tb1]
                        == #[trigger] terms@[tb2] ==> tb1 == tb2,
                forall|a: int, b: int|
                    0 <= a < es.len() && 0 <= b < es.len() && a != b ==> #[trigger] es[a].0@
                        != #[trigger] es[b].0@,
                forall|a: int| 0 <= a < es.len() ==> is_prefix_of(seq![116u8], #[trigger] es[a].0@),
                forall|a: int|
                    0 <= a < es.len() ==> kv@.contains_key(#[trigger] es[a].0@) && kv@[es[a].0@]
                        == es[a].1@,
                forall|k: Seq<u8>|
                    kv@.contains_key(k) && is_prefix_of(seq![116u8], k) ==> exists|a: int|
                        0 <= a < es.len() && #[trigger] es[a].0@ == k,
                forall|tb: Seq<u8>|
                    #[trigger] terms@.contains_key(tb) ==> exists|a: int|
                        0 <= a < i && es[a].0@ == term_key(tb) && valid_ref_bytes(es[a].1@),
                inj ==> (forall|a: int|
                    0 <= a < i && valid_ref_bytes(#[trigger] es[a].1@) ==> terms@.contains_key(
                        es[a].0@.skip(1),
                    ) && terms@[es[a].0@.skip(1)] == ref_of_bytes(es[a].1@)),
                forall|tb: Seq<u8>| #[trigger] terms@.contains_key(tb) ==> 1 <= terms@[tb] < next,
                forall|m: u32| #[trigger] counter_consistent(kv@, m) ==> next == m,
            decreases es.len() - i,
        {
            let ghost tpre = terms@;
            let ghost vb = es[i as int].1@;
            let v = &entries[i].1;
            proof {
                assert(v@ == vb);
            }
            let mut step_ref: u32 = 0;
            match dec_to_u32(v) {
                Some(x) => {
                    if x >= 1 && x < u32::MAX {
                        step_ref = x;
                        proof {
                            assert(valid_ref_bytes(vb));
                            lemma_dec_of_injective(ref_of_bytes(vb) as nat, x as nat);
                        }
                    } else {
                        proof {
                            if valid_ref_bytes(vb) {
                                let y = choose|y: u32|
                                    1 <= y < u32::MAX && vb == dec_of(y as nat);
                                lemma_dec_of_injective(y as nat, x as nat);
                            }
                        }
                    }
                },
                None => {
                    proof {
                        if valid_ref_bytes(vb) {
                            let y = choose|y: u32| 1 <= y < u32::MAX && vb == dec_of(y as nat);
                        }
                    }
                },
            }
            if step_ref >= 1 {
                let tb = strip_first(&entries[i].0);
                proof {
                    assert(term_key(tb@) =~= es[i as int].0@);
                    terms.lemma_entries();
                }
                let mut ref_seen = false;
                let n_terms = terms.len();
                let mut j: usize = 0;
                while j < n_terms
                    invariant
                        terms.wf(),
                        n_terms == terms.entry_views().len(),
                        0 <= j <= n_terms,
                        forall|x: int|
                            0 <= x < terms.entry_views().len() ==> terms@.contains_key(
                                #[trigger] terms.entry_views()[x].0,
                            ) && terms@[terms.entry_views()[x].0] == terms.entry_views()[x].1,
                        forall|k: Seq<u8>|
                            terms@.contains_key(k) ==> exists|x: int|
                                0 <= x < terms.entry_views().len()
                                    && #[trigger] terms.entry_views()[x].0 == k,
                        ref_seen ==> exists|tb2: Seq<u8>|
                            terms@.contains_key(tb2) && #[trigger] terms@[tb2] == step_ref,
                        !ref_seen ==> (forall|x: int|
                            0 <= x < j ==> #[trigger] terms.entry_views()[x].1 != step_ref),
                    decreases n_terms - j,
                {
                    if terms.value_at(j) == step_ref {
                        ref_seen = true;
                        proof {
                            assert(terms@.contains_key(terms.entry_views()[j as int].0)
                                && terms@[terms.entry_views()[j as int].0] == step_ref);
                        }
                    }
                    j = j + 1;
                }
                if !ref_seen {
                    proof {
                        assert forall|tb2: Seq<u8>| terms@.contains_key(tb2) implies #[trigger]
                            terms@[tb2] != step_ref by {
                            let x = choose|x: int|
                                0 <= x < terms.entry_views().len()
                                    && #[trigger] terms.entry_views()[x].0 == tb2;
                        }
                    }
                    let ghost tb4 = tb@;
                    terms.insert(tb, step_ref);
                    proof {
                        assert forall|tb1: Seq<u8>, tb2: Seq<u8>|
                            terms@.contains_key(tb1) && terms@.contains_key(tb2)
                                && #[trigger] terms@[tb1] == #[trigger] terms@[tb2] implies tb1
                            == tb2 by {
                            if tb1 != tb4 && tb2 != tb4 {
                                assert(tpre.contains_key(tb1) && tpre.contains_key(tb2));
                            } else if tb1 == tb4 && tb2 != tb4 {
                                assert(tpre.contains_key(tb2) && tpre[tb2] != step_ref);
                            } else if tb2 == tb4 && tb1 != tb4 {
                                assert(tpre.contains_key(tb1) && tpre[tb1] != step_ref);
                            }
                        }
                    }
                    if step_ref >= next {
                        proof {
                            assert forall|m: u32| #[trigger] counter_consistent(kv@, m) implies
                                step_ref + 1 == m by {
                                assert(term_key(tb4) =~= es[i as int].0@);
                                assert(kv@.contains_key(term_key(tb4)));
                                assert(kv@[term_key(tb4)] == dec_of(step_ref as nat));
                                assert(step_ref < m);
                                assert(next == m);
                            }
                        }
                        next = step_ref + 1;
                    }
                } else {
                    proof {
                        if inj {
                            let tb2 = choose|tb2: Seq<u8>|
                                terms@.contains_key(tb2) && #[trigger] terms@[tb2] == step_ref;
                            let a2 = choose|a: int|
                                0 <= a < i && es[a].0@ == term_key(tb2) && valid_ref_bytes(
                                    es[a].1@,
                                );
                            assert(terms@[es[a2].0@.skip(1)] == ref_of_bytes(es[a2].1@));
                            assert(es[a2].0@.skip(1) =~= tb2);
                            assert(ref_of_bytes(es[a2].1@) == step_ref);
                            let y2 = choose|y: u32|
                                1 <= y < u32::MAX && es[a2].1@ == dec_of(y as nat);
                            lemma_dec_of_injective(y2 as nat, ref_of_bytes(es[a2].1@) as nat);
                            assert(kv@[term_key(tb2)] == dec_of(step_ref as nat));
                            assert(kv@[term_key(tb@)] == dec_of(step_ref as nat));
                            assert(kv@.contains_key(term_key(tb2)));
                            assert(kv@.contains_key(term_key(tb@)));
                            assert(tb2 == tb@);
                            assert(es[a2].0@ == es[i as int].0@);
                            assert(false);
                        }
                    }
                }
            }
            proof {
                if inj {
                    assert forall|a: int|
                        0 <= a < i + 1 && valid_ref_bytes(#[trigger] es[a].1@) implies terms@
                        .contains_key(es[a].0@.skip(1)) && terms@[es[a].0@.skip(1)]
                        == ref_of_bytes(es[a].1@) by {
                        assert(term_key(es[a].0@.skip(1)) =~= es[a].0@);
                        assert(term_key(es[i as int].0@.skip(1)) =~= es[i as int].0@);
                        if a < i {
                            if es[a].0@.skip(1) == es[i as int].0@.skip(1) {
                                assert(es[a].0@ == es[i as int].0@);
                            }
                        }
                    }
                }
                assert forall|tb: Seq<u8>| #[trigger] terms@.contains_key(tb) implies exists|a: int|
                    0 <= a < i + 1 && es[a].0@ == term_key(tb) && valid_ref_bytes(es[a].1@) by {
                    if tpre.contains_key(tb) {
                        let a = choose|a: int|
                            0 <= a < i && es[a].0@ == term_key(tb) && valid_ref_bytes(es[a].1@);
                        assert(0 <= a < i + 1 && es[a].0@ == term_key(tb) && valid_ref_bytes(
                            es[a].1@,
                        ));
                    } else {
                        assert(term_key(es[i as int].0@.skip(1)) =~= es[i as int].0@);
                        assert(es[i as int].0@ == term_key(tb) && valid_ref_bytes(es[i as int].1@));
                    }
                }
            }
            i = i + 1;
        }
        let r = TermDictionaryManager { next_term_ref: next, terms };
        proof {
            assert forall|tb: Seq<u8>| #[trigger] r@.contains_key(tb) implies kv@.contains_key(
                term_key(tb),
            ) && valid_ref_bytes(kv@[term_key(tb)]) by {
                let a = choose|a: int|
                    0 <= a < es.len() && es[a].0@ == term_key(tb) && valid_ref_bytes(es[a].1@);
            }
            if inj {
                assert forall|tb: Seq<u8>|
                    kv@.contains_key(term_key(tb)) && valid_ref_bytes(kv@[term_key(tb)]) implies
                    #[trigger] r@.contains_key(tb) by {
                    assert(term_key(tb).subrange(0, 1) =~= seq![116u8]);
                    assert(is_prefix_of(seq![116u8], term_key(tb)));
                    let a = choose|a: int|
                        0 <= a < es.len() && #[trigger] es[a].0@ == term_key(tb);
                    assert(es[a].0@.skip(1) =~= tb);
                }
                assert forall|tb: Seq<u8>, x: u32|
                    #![trigger kv@[term_key(tb)], dec_of(x as nat)]
                    kv@.contains_key(term_key(tb)) && 1 <= x < u32::MAX && kv@[term_key(tb)]
                        == dec_of(x as nat) implies r@.contains_key(tb) && r@[tb] == x by {
                    assert(valid_ref_bytes(kv@[term_key(tb)]));
                    assert(term_key(tb).subrange(0, 1) =~= seq![116u8]);
                    assert(is_prefix_of(seq![116u8], term_key(tb)));
                    let a = choose|a: int|
                        0 <= a < es.len() && #[trigger] es[a].0@ == term_key(tb);
                    assert(es[a].0@.skip(1) =~= tb);
                    lemma_dec_of_injective(ref_of_bytes(es[a].1@) as nat, x as nat);
                }
            }
        }
        r
    }

    /// Collects the references of every term the selector admits, in
    /// ascending order of the terms' canonical encodings.
    pub fn select(&self, term_selector: &TermSelector) -> (r: Vec<TermRef>)
        requires
            self.wf(),
        ensures
            exists|ks: Seq<Seq<u8>>|
                #![trigger ks.len()]
                {
                    &&& ks.len() == r@.len()
                    &&& (forall|i: int, j: int| 0 <= i < j < ks.len() ==> lex_lt(
                        #[trigger] ks[i],
                        #[trigger] ks[j],
                    ))
                    &&& (forall|i: int|
                        0 <= i < ks.len() ==> self@.contains_key(#[trigger] ks[i])
                            && selector_matches(*term_selector, ks[i]) && r@[i].ord == self@[ks[i]])
                    &&& (forall|k: Seq<u8>|
                        self@.contains_key(k) && selector_matches(*term_selector, k)
                            ==> #[trigger] ks.contains(k))
                },
    {
        proof {
            self.terms.lemma_entries();
        }
        let ghost evs = self.terms.entry_views();
        let mut r: Vec<TermRef> = Vec::new();
        let ghost mut ks: Seq<Seq<u8>> = Seq::empty();
        let n = self.terms.len();
        let mut i: usize = 0;
        while i < n
            invariant
                self.wf(),
                n == evs.len(),
                evs == self.terms.entry_views(),
                0 <= i <= n,
                ks.len() == r@.len(),
                forall|x: int, y: int| 0 <= x < y < evs.len() ==> lex_lt(
                    #[trigger] evs[x].0,
                    #[trigger] evs[y].0,
                ),
                forall|x: int|
                    0 <= x < evs.len() ==> self@.contains_key(#[trigger] evs[x].0)
                        && self@[evs[x].0] == evs[x].1,
                forall|k: Seq<u8>|
                    self@.contains_key(k) ==> exists|x: int|
                        0 <= x < evs.len() && #[trigger] evs[x].0 == k,
                forall|x: int, y: int| 0 <= x < y < ks.len() ==> lex_lt(
                    #[trigger] ks[x],
                    #[trigger] ks[y],
                ),
                forall|x: int|
                    0 <= x < ks.len() ==> self@.contains_key(#[trigger] ks[x])
                        && selector_matches(*term_selector, ks[x]) && r@[x].ord == self@[ks[x]],
                forall|x: int| 0 <= x < ks.len() ==> exists|y: int|
                    0 <= y < i && #[trigger] ks[x] == evs[y].0,
                forall|y: int|
                    0 <= y < i && selector_matches(*term_selector, #[trigger] evs[y].0)
                        ==> ks.contains(evs[y].0),
            decreases n - i,
        {
            let ghost kspre = ks;
            let ghost rpre = r@;
            let key = self.terms.key_at(i);
            if term_selector.matches_encoded(key) {
                let x = self.terms.value_at(i);
                let tr = TermRef::new(x);
                r.push(tr);
                proof {
                    ks = ks.push(evs[i as int].0);
                    assert(r@ =~= rpre.push(tr));
                    assert forall|a: int, b: int| 0 <= a < b < ks.len() implies lex_lt(
                        #[trigger] ks[a],
                        #[trigger] ks[b],
                    ) by {
                        if b < kspre.len() {
                            assert(ks[a] == kspre[a]);
                            assert(ks[b] == kspre[b]);
                        } else {
                            assert(ks[a] == kspre[a]);
                            assert(ks[b] == evs[i as int].0);
                            let w = choose|w: int| 0 <= w < i && kspre[a] == evs[w].0;
                            assert(lex_lt(evs[w].0, evs[i as int].0));
                        }
                    }
                    assert forall|a: int| 0 <= a < ks.len() implies self@.contains_key(
                        #[trigger] ks[a],
                    ) && selector_matches(*term_selector, ks[a]) && r@[a].ord == self@[ks[a]] by {
                        if a < kspre.len() {
                            assert(ks[a] == kspre[a]);
                            assert(r@[a] == rpre[a]);
                        }
                    }
                    assert forall|a: int| 0 <= a < ks.len() implies exists|y: int|
                        0 <= y < i + 1 && #[trigger] ks[a] == evs[y].0 by {
                        if a < kspre.len() {
                            let w = choose|w: int| 0 <= w < i && kspre[a] == evs[w].0;
                            assert(0 <= w < i + 1 && ks[a] == evs[w].0);
                        } else {
                            assert(ks[a] == evs[i as int].0);
                        }
                    }
                    assert forall|y: int|
                        0 <= y < i + 1 && selector_matches(*term_selector, #[trigger] evs[y].0)
                        implies ks.contains(evs[y].0) by {
                        if y < i {
                            let a = choose|a: int| 0 <= a < kspre.len() && kspre[a] == evs[y].0;
                            assert(ks[a] == evs[y].0);
                        } else {
                            assert(ks[kspre.len() as int] == evs[y].0);
                        }
                    }
                }
            } else {
                proof {
                    assert forall|y: int|
                        0 <= y < i + 1 && selector_matches(*term_selector, #[trigger] evs[y].0)
                        implies ks.contains(evs[y].0) by {
                        assert(y < i);
                    }
                }
            }
            i = i + 1;
        }
        proof {
            assert forall|k: Seq<u8>|
                self@.contains_key(k) && selector_matches(*term_selector, k) implies #[trigger] ks
                .contains(k) by {
                let x = choose|x: int| 0 <= x < evs.len() && #[trigger] evs[x].0 == k;
                assert(ks.contains(evs[x].0));
            }
        }
        r
    }
}

} // verus!
