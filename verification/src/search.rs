//! Query evaluation: a compiled query is evaluated one segment at a time
//! over a score slot per ordinal, and a bounded collector merges the scored
//! hits of all segments. Scores are fixed-point integers in thousandths.
//! Only ordinals whose live bit is set can match: a deleted document never
//! appears in any result.

use vstd::prelude::*;
use roaring::RoaringBitmap;
use crate::store::IndexStore;
use crate::doc::DocRef;
use crate::keys::{live_key, posting_key};
use crate::bm::{bm_of, bm_ser, bm_contains, bm_len};

verus! {

broadcast use vstd::std_specs::vec::axiom_vec_index_decreases;

/// How a term's per-document score is computed.
#[derive(Debug, Clone, Copy, PartialEq, Eq, Structural)]
pub enum CompiledScorer {
    /// The term frequency itself.
    Tf,
    /// Saturated frequency weighted by rarity and by field length: the
    /// frequency's weight flattens as it approaches `k1`, and a zero length
    /// weight turns length normalization off.
    TfIdf { k1_milli: u64, b_milli: u64 },
    /// The same score for every matching document.
    Constant { milli: u64 },
}

/// A query bound to the schema and the dictionary: fields are references
/// and terms are reference lists (a prefix becomes every reference it
/// covers).
pub enum CompiledQuery {
    All,
    Nothing,
    Term { field: u32, trefs: Vec<u32>, scorer: CompiledScorer },
    Conj { children: Vec<CompiledQuery> },
    Disj { children: Vec<CompiledQuery> },
    NDisj { children: Vec<CompiledQuery>, min: u32 },
    DisjMax { children: Vec<CompiledQuery> },
    Filtered { query: Box<CompiledQuery>, filter: Box<CompiledQuery> },
    Excl { query: Box<CompiledQuery>, exclude: Box<CompiledQuery> },
    Boost { query: Box<CompiledQuery>, mul_milli: u64, add_milli: u64 },
}

/// One score slot per possible ordinal.
pub const SLOTS: usize = 65536;

/// The product, capped at the largest 64-bit value.
pub open spec fn spec_sat_mul(a: u64, b: u64) -> u64 {
    if a * b > u64::MAX {
        u64::MAX
    } else {
        (a * b) as u64
    }
}

/// The larger of two values.
pub open spec fn spec_max(a: u64, b: u64) -> u64 {
    if a >= b {
        a
    } else {
        b
    }
}

/// The sum, capped at the largest 64-bit value.
pub open spec fn spec_sat_add(a: u64, b: u64) -> u64 {
    if a + b > u64::MAX {
        u64::MAX
    } else {
        (a + b) as u64
    }
}

/// Multiplies, capping at the largest 64-bit value.
pub fn sat_mul(a: u64, b: u64) -> (r: u64)
    ensures
        r == spec_sat_mul(a, b),
{
    if b != 0 && a > u64::MAX / b {
        proof {
            assert(a * b > u64::MAX) by (nonlinear_arith)
                requires b != 0, a > u64::MAX / b;
        }
        u64::MAX
    } else {
        if b == 0 {
            return 0;
        }
        proof {
            assert(a * b <= u64::MAX) by (nonlinear_arith)
                requires b != 0, a <= u64::MAX / b;
        }
        a * b
    }
}

/// Adds, capping at the largest 64-bit value.
pub fn sat_add(a: u64, b: u64) -> (r: u64)
    ensures
        r == spec_sat_add(a, b),
{
    if a > u64::MAX - b {
        u64::MAX
    } else {
        a + b
    }
}

/// The integer square root: the largest value whose square is not above the
/// argument.
pub fn isqrt(x: u64) -> (r: u64)
    requires
        x <= 0x0fff_ffff_ffff_ffff,
    ensures
        r * r <= x,
        x < (r + 1) * (r + 1),
{
    let mut r: u64 = 0;
    loop
        invariant
            x <= 0x0fff_ffff_ffff_ffff,
            r * r <= x,
            r <= 0x4000_0000,
        decreases x - r,
    {
        proof {
            assert((r + 1) * (r + 1) <= 0x4000_0001u64 * 0x4000_0001 < u64::MAX) by (
            nonlinear_arith)
                requires r <= 0x4000_0000;
        }
        let next = (r + 1) * (r + 1);
        if next <= x {
            proof {
                assert(r + 1 <= 0x4000_0000) by (nonlinear_arith)
                    requires (r + 1) * (r + 1) <= 0x0fff_ffff_ffff_ffff;
                assert(r < (r + 1) * (r + 1)) by (nonlinear_arith);
            }
            r = r + 1;
        } else {
            return r;
        }
    }
}

/// The rarity weight of a term in thousandths: a bounded rational
/// approximation of the logarithm of one plus the share of documents that
/// lack the term, never negative.
pub open spec fn spec_idf_milli(n: u64, df: u64) -> u64 {
    let num: u64 = if n >= df {
        (n - df) as u64
    } else {
        0u64
    };
    let ratio: u64 = (1000 + (2 * num + 1) * 1000 / (2 * df + 1)) as u64;
    ((ratio - 1000) * 2000 / (ratio + 1000)) as u64
}

/// Computes the rarity weight.
pub fn idf_milli(n: u64, df: u64) -> (r: u64)
    requires
        n <= 0xffff_ffff,
        df <= 0xffff_ffff,
    ensures
        r == spec_idf_milli(n, df),
{
    let num: u64 = if n >= df {
        n - df
    } else {
        0
    };
    let ratio: u64 = 1000 + (2 * num + 1) * 1000 / (2 * df + 1);
    proof {
        assert((2 * num + 1) * 1000 / (2 * df + 1) <= (2 * num + 1) * 1000) by (nonlinear_arith);
        assert((ratio - 1000) * 2000 <= u64::MAX) by (nonlinear_arith)
            requires ratio <= 1000 + (2 * num + 1) * 1000, num <= 0xffff_ffff;
    }
    (ratio - 1000) * 2000 / (ratio + 1000)
}

/// The length weight of a field: one over the square root of its length,
/// in thousandths; a zero length weight leaves normalization off, and an
/// empty field weighs as one.
pub fn norm_milli(len: u32, b_milli: u64) -> (r: u64)
    ensures
        b_milli == 0 ==> r == 1000,
        b_milli != 0 && len == 0 ==> r == 1000,
        b_milli != 0 && len > 0 ==> exists|s: u64|
            #![trigger s * s]
            s * s <= (len as u64) * 1_000_000 && (len as u64) * 1_000_000 < (s + 1) * (s + 1) && s
                >= 1 && r == 1_000_000u64 / s,
{
    if b_milli == 0 {
        return 1000;
    }
    let x: u64 = (len as u64) * 1_000_000;
    proof {
        assert(x <= 0x0fff_ffff_ffff_ffff) by (nonlinear_arith)
            requires x == (len as u64) * 1_000_000, len <= 0xffff_ffffu32;
    }
    let s = isqrt(x);
    if s == 0 {
        proof {
            if len > 0 {
                assert(x >= 1_000_000);
                assert((0u64 + 1) * (0u64 + 1) == 1) by (nonlinear_arith);
            }
        }
        1000
    } else {
        proof {
            if len > 0 {
                assert(s * s <= x && x < (s + 1) * (s + 1) && s >= 1);
            }
        }
        proof {
            if len == 0 {
                assert(x == 0) by (nonlinear_arith)
                    requires x == (len as u64) * 1_000_000, len == 0;
                assert(s * s <= 0);
                assert(s == 0) by (nonlinear_arith)
                    requires s * s <= 0;
            }
        }
        1_000_000 / s
    }
}

/// A fresh score array: no ordinal matches.
fn slots_none() -> (r: Vec<Option<u64>>)
    ensures
        r@.len() == SLOTS,
        forall|i: int| 0 <= i < SLOTS ==> r@[i] is None,
{
    let mut r: Vec<Option<u64>> = Vec::new();
    let mut i: usize = 0;
    while i < SLOTS
        invariant
            0 <= i <= SLOTS,
            r@.len() == i,
            forall|j: int| 0 <= j < i ==> r@[j] is None,
        decreases SLOTS - i,
    {
        r.push(None);
        i = i + 1;
    }
    r
}

/// Whether an ordinal's live bit is set.
pub open spec fn slot_live(live: Set<u32>, i: int) -> bool {
    live.contains(i as u32)
}

/// The score array of every live ordinal at a constant score.
fn slots_all(live: &RoaringBitmap) -> (r: Vec<Option<u64>>)
    ensures
        r@.len() == SLOTS,
        forall|i: int| 0 <= i < SLOTS ==> (r@[i] is Some <==> slot_live(bm_of(*live), i)),
{
    let mut r: Vec<Option<u64>> = Vec::new();
    let mut i: usize = 0;
    while i < SLOTS
        invariant
            0 <= i <= SLOTS,
            r@.len() == i,
            forall|j: int| 0 <= j < i ==> (r@[j] is Some <==> slot_live(bm_of(*live), j)),
        decreases SLOTS - i,
    {
        if bm_contains(live, i as u32) {
            r.push(Some(1000));
        } else {
            r.push(None);
        }
        i = i + 1;
    }
    r
}

/// Both sides match: scores add.
fn and2(a: &Vec<Option<u64>>, b: &Vec<Option<u64>>) -> (r: Vec<Option<u64>>)
    requires
        a@.len() == SLOTS,
        b@.len() == SLOTS,
    ensures
        r@.len() == SLOTS,
        forall|i: int| 0 <= i < SLOTS ==> (r@[i] is Some <==> a@[i] is Some && b@[i] is Some),
        forall|i: int|
            0 <= i < SLOTS && r@[i] is Some ==> r@[i] == Some(
                spec_sat_add(a@[i].unwrap(), b@[i].unwrap()),
            ),
{
    let mut r: Vec<Option<u64>> = Vec::new();
    let mut i: usize = 0;
    while i < SLOTS
        invariant
            0 <= i <= SLOTS,
            a@.len() == SLOTS,
            b@.len() == SLOTS,
            r@.len() == i,
            forall|j: int| 0 <= j < i ==> (r@[j] is Some <==> a@[j] is Some && b@[j] is Some),
            forall|j: int|
                0 <= j < i && r@[j] is Some ==> r@[j] == Some(
                    spec_sat_add(a@[j].unwrap(), b@[j].unwrap()),
                ),
        decreases SLOTS - i,
    {
        match (&a[i], &b[i]) {
            (Some(x), Some(y)) => {
                r.push(Some(sat_add(*x, *y)));
            },
            _ => {
                r.push(None);
            },
        }
        i = i + 1;
    }
    r
}

/// Either side matches: present scores add.
fn or2(a: &Vec<Option<u64>>, b: &Vec<Option<u64>>) -> (r: Vec<Option<u64>>)
    requires
        a@.len() == SLOTS,
        b@.len() == SLOTS,
    ensures
        r@.len() == SLOTS,
        forall|i: int| 0 <= i < SLOTS ==> (r@[i] is Some <==> a@[i] is Some || b@[i] is Some),
        forall|i: int|
            0 <= i < SLOTS && r@[i] is Some ==> r@[i] == Some(
                spec_sat_add(
                    if a@[i] is Some {
                        a@[i].unwrap()
                    } else {
                        0u64
                    },
                    if b@[i] is Some {
                        b@[i].unwrap()
                    } else {
                        0u64
                    },
                ),
            ),
{
    let mut r: Vec<Option<u64>> = Vec::new();
    let mut i: usize = 0;
    while i < SLOTS
        invariant
            0 <= i <= SLOTS,
            a@.len() == SLOTS,
            b@.len() == SLOTS,
            r@.len() == i,
            forall|j: int| 0 <= j < i ==> (r@[j] is Some <==> a@[j] is Some || b@[j] is Some),
            forall|j: int|
                0 <= j < i && r@[j] is Some ==> r@[j] == Some(
                    spec_sat_add(
                        if a@[j] is Some {
                            a@[j].unwrap()
                        } else {
                            0u64
                        },
                        if b@[j] is Some {
                            b@[j].unwrap()
                        } else {
                            0u64
                        },
                    ),
                ),
        decreases SLOTS - i,
    {
        match (&a[i], &b[i]) {
            (Some(x), Some(y)) => {
                r.push(Some(sat_add(*x, *y)));
            },
            (Some(x), None) => {
                let v = sat_add(*x, 0);
                r.push(Some(v));
            },
            (None, Some(y)) => {
                let v = sat_add(0, *y);
                r.push(Some(v));
            },
            (None, None) => {
                r.push(None);
            },
        }
        i = i + 1;
    }
    r
}

/// Either side matches: the larger score wins.
fn max2(a: &Vec<Option<u64>>, b: &Vec<Option<u64>>) -> (r: Vec<Option<u64>>)
    requires
        a@.len() == SLOTS,
        b@.len() == SLOTS,
    ensures
        r@.len() == SLOTS,
        forall|i: int| 0 <= i < SLOTS ==> (r@[i] is Some <==> a@[i] is Some || b@[i] is Some),
        forall|i: int|
            0 <= i < SLOTS && r@[i] is Some ==> r@[i] == Some(
                spec_max(
                    if a@[i] is Some {
                        a@[i].unwrap()
                    } else {
                        0u64
                    },
                    if b@[i] is Some {
                        b@[i].unwrap()
                    } else {
                        0u64
                    },
                ),
            ),
{
    let mut r: Vec<Option<u64>> = Vec::new();
    let mut i: usize = 0;
    while i < SLOTS
        invariant
            0 <= i <= SLOTS,
            a@.len() == SLOTS,
            b@.len() == SLOTS,
            r@.len() == i,
            forall|j: int| 0 <= j < i ==> (r@[j] is Some <==> a@[j] is Some || b@[j] is Some),
            forall|j: int|
                0 <= j < i && r@[j] is Some ==> r@[j] == Some(
                    spec_max(
                        if a@[j] is Some {
                            a@[j].unwrap()
                        } else {
                            0u64
                        },
                        if b@[j] is Some {
                            b@[j].unwrap()
                        } else {
                            0u64
                        },
                    ),
                ),
        decreases SLOTS - i,
    {
        match (&a[i], &b[i]) {
            (Some(x), Some(y)) => {
                if *x >= *y {
                    r.push(Some(*x));
                } else {
                    r.push(Some(*y));
                }
            },
            (Some(x), None) => {
                r.push(Some(*x));
            },
            (None, Some(y)) => {
                r.push(Some(*y));
            },
            (None, None) => {
                r.push(None);
            },
        }
        i = i + 1;
    }
    r
}

impl IndexStore {
    /// The score array of one term node: the live documents holding any of
    /// the term references in the field, scored and summed.
    fn eval_term(
        &self,
        seg: u32,
        live: &RoaringBitmap,
        field: u32,
        trefs: &Vec<u32>,
        scorer: &CompiledScorer,
    ) -> (r: Vec<Option<u64>>)
        requires
            self.wf(),
        ensures
            r@.len() == SLOTS,
            forall|i: int| 0 <= i < SLOTS && r@[i] is Some ==> slot_live(bm_of(*live), i),
            forall|i: int|
                #![trigger r@[i]]
                0 <= i < SLOTS ==> (r@[i] is Some <==> slot_live(bm_of(*live), i) && exists|t: int|
                    0 <= t < trefs@.len() && self.kv_map().contains_key(
                        posting_key(seg, field, trefs@[t], i as u16),
                    )),
    {
        let mut r = slots_none();
        let n64 = bm_len(live);
        let n: u64 = if n64 > 0xffff_ffff {
            0xffff_ffff
        } else {
            n64
        };
        let mut t: usize = 0;
        while t < trefs.len()
            invariant
                self.wf(),
                n <= 0xffff_ffff,
                0 <= t <= trefs@.len(),
                r@.len() == SLOTS,
                forall|i: int| 0 <= i < SLOTS && r@[i] is Some ==> slot_live(bm_of(*live), i),
                forall|i: int|
                    #![trigger r@[i]]
                    0 <= i < SLOTS ==> (r@[i] is Some <==> slot_live(bm_of(*live), i) && exists|
                        t2: int,
                    |
                        0 <= t2 < t && self.kv_map().contains_key(
                            posting_key(seg, field, trefs@[t2], i as u16),
                        )),
            decreases trefs@.len() - t,
        {
            let postings = self.read_postings(seg, field, trefs[t]);
            let df64 = postings.len() as u64;
            let df: u64 = if df64 > 0xffff_ffff {
                0xffff_ffff
            } else {
                df64
            };
            let mut p: usize = 0;
            while p < postings.len()
                invariant
                    self.wf(),
                    r@.len() == SLOTS,
                    df <= 0xffff_ffff,
                    n <= 0xffff_ffff,
                    0 <= t < trefs@.len(),
                    0 <= p <= postings@.len(),
                    forall|x: int|
                        0 <= x < postings@.len() ==> self.kv_map().contains_key(
                            #[trigger] posting_key(seg, field, trefs@[t as int], postings@[x].0),
                        ),
                    forall|ord2: u16|
                        self.kv_map().contains_key(
                            #[trigger] posting_key(seg, field, trefs@[t as int], ord2),
                        ) ==> exists|x: int| 0 <= x < postings@.len() && postings@[x].0 == ord2,
                    forall|i: int| 0 <= i < SLOTS && r@[i] is Some ==> slot_live(bm_of(*live), i),
                    forall|i: int|
                        #![trigger r@[i]]
                        0 <= i < SLOTS ==> (r@[i] is Some <==> slot_live(bm_of(*live), i) && ((
                        exists|t2: int|
                            0 <= t2 < t && self.kv_map().contains_key(
                                posting_key(seg, field, trefs@[t2], i as u16),
                            )) || (exists|p2: int|
                            0 <= p2 < p && #[trigger] postings@[p2].0 == i as u16))),
                decreases postings@.len() - p,
            {
                let (ord, tf) = postings[p];
                let ghost rpre = r@;
                if bm_contains(live, ord as u32) {
                    let score: u64 = match scorer {
                        CompiledScorer::Tf => sat_mul(tf as u64, 1000),
                        CompiledScorer::Constant { milli } => *milli,
                        CompiledScorer::TfIdf { k1_milli, b_milli } => {
                            let idf = idf_milli(n, df);
                            let flen = self.read_field_length(seg, ord, field);
                            let nm = norm_milli(flen, *b_milli);
                            let denom = sat_add(sat_mul(tf as u64, 1000), *k1_milli);
                            let tf_sat: u64 = if denom == 0 {
                                0
                            } else {
                                sat_mul(sat_mul(tf as u64, sat_add(*k1_milli, 1000)), 1000) / denom
                            };
                            sat_mul(sat_mul(tf_sat, idf), nm) / 1_000_000
                        },
                    };
                    let prev: u64 = match &r[ord as usize] {
                        Some(x) => *x,
                        None => 0,
                    };
                    r[ord as usize] = Some(sat_add(prev, score));
                }
                proof {
                    assert forall|i: int|
                        #![trigger r@[i]]
                        0 <= i < SLOTS implies (r@[i] is Some <==> slot_live(bm_of(*live), i) && ((
                        exists|t2: int|
                            0 <= t2 < t && self.kv_map().contains_key(
                                posting_key(seg, field, trefs@[t2], i as u16),
                            )) || (exists|p2: int|
                            0 <= p2 < p + 1 && #[trigger] postings@[p2].0 == i as u16))) by {
                        if i == ord as int {
                            assert(postings@[p as int].0 == i as u16);
                        } else {
                            assert(r@[i] == rpre[i]);
                            assert(i as u16 != ord);
                            assert forall|p2: int|
                                0 <= p2 < p + 1 && #[trigger] postings@[p2].0 == i as u16 implies
                                p2 < p by {
                                if p2 == p {
                                    assert(postings@[p2].0 == ord);
                                }
                            }
                        }
                    }
                }
                p = p + 1;
            }
            proof {
                assert forall|i: int|
                    #![trigger r@[i]]
                    0 <= i < SLOTS implies (r@[i] is Some <==> slot_live(bm_of(*live), i) && (
                    exists|t2: int|
                        0 <= t2 < t + 1 && self.kv_map().contains_key(
                            posting_key(seg, field, trefs@[t2], i as u16),
                        ))) by {
                    if r@[i] is Some {
                        if exists|p2: int|
                            0 <= p2 < postings@.len() && #[trigger] postings@[p2].0 == i as u16 {
                            let p2 = choose|p2: int|
                                0 <= p2 < postings@.len() && #[trigger] postings@[p2].0
                                    == i as u16;
                            assert(self.kv_map().contains_key(
                                posting_key(seg, field, trefs@[t as int], postings@[p2].0),
                            ));
                            assert(self.kv_map().contains_key(
                                posting_key(seg, field, trefs@[t as int], i as u16),
                            ));
                        }
                    } else {
                        if slot_live(bm_of(*live), i) && exists|t2: int|
                            0 <= t2 < t + 1 && self.kv_map().contains_key(
                                posting_key(seg, field, trefs@[t2], i as u16),
                            ) {
                            let t2 = choose|t2: int|
                                0 <= t2 < t + 1 && self.kv_map().contains_key(
                                    posting_key(seg, field, trefs@[t2], i as u16),
                                );
                            if t2 == t {
                                let x = choose|x: int|
                                    0 <= x < postings@.len() && #[trigger] postings@[x].0
                                        == i as u16;
                                assert(postings@[x].0 == i as u16);
                                assert(false);
                            }
                        }
                    }
                }
            }
            t = t + 1;
        }
        r
    }

    /// The score array of a query over one segment: a slot is filled exactly
    /// for the documents the node matches, and never for one whose live bit
    /// is clear.
    pub fn eval_query(&self, seg: u32, live: &RoaringBitmap, q: &CompiledQuery) -> (r: Vec<
        Option<u64>,
    >)
        requires
            self.wf(),
        ensures
            r@.len() == SLOTS,
            forall|i: int| 0 <= i < SLOTS && r@[i] is Some ==> slot_live(bm_of(*live), i),
            (*q) matches CompiledQuery::Term { field, trefs, scorer } ==> forall|i: int|
                #![trigger r@[i]]
                0 <= i < SLOTS ==> (r@[i] is Some <==> slot_live(bm_of(*live), i) && exists|t: int|
                    0 <= t < trefs@.len() && self.kv_map().contains_key(
                        posting_key(seg, field, trefs@[t], i as u16),
                    )),
        decreases q,
    {
        match q {
            CompiledQuery::All => slots_all(live),
            CompiledQuery::Nothing => slots_none(),
            CompiledQuery::Term { field, trefs, scorer } => self.eval_term(
                seg,
                live,
                *field,
                trefs,
                scorer,
            ),
            CompiledQuery::Conj { children } => {
                let mut acc = slots_all(live);
                let mut i: usize = 0;
                while i < children.len()
                    invariant
                        self.wf(),
                        acc@.len() == SLOTS,
                        forall|j: int|
                            0 <= j < SLOTS && acc@[j] is Some ==> slot_live(bm_of(*live), j),
                        *q is Conj,
                        q->Conj_children == *children,
                    decreases children@.len() - i,
                {
                    proof {
                        assert(q->Conj_children == *children);
                        assert(decreases_to!(*q => q->Conj_children));
                        assert(decreases_to!(*children => children@));
                        assert(decreases_to!(children@ => children@[i as int]));
                        assert(decreases_to!(*q => children@[i as int]));
                    }
                    let c = self.eval_query(seg, live, &children[i]);
                    acc = and2(&acc, &c);
                    i = i + 1;
                }
                acc
            },
            CompiledQuery::Disj { children } => {
                let mut acc = slots_none();
                let mut i: usize = 0;
                while i < children.len()
                    invariant
                        self.wf(),
                        acc@.len() == SLOTS,
                        forall|j: int|
                            0 <= j < SLOTS && acc@[j] is Some ==> slot_live(bm_of(*live), j),
                        *q is Disj,
                        q->Disj_children == *children,
                    decreases children@.len() - i,
                {
                    proof {
                        assert(q->Disj_children == *children);
                        assert(decreases_to!(*q => q->Disj_children));
                        assert(decreases_to!(*children => children@));
                        assert(decreases_to!(children@ => children@[i as int]));
                        assert(decreases_to!(*q => children@[i as int]));
                    }
                    let c = self.eval_query(seg, live, &children[i]);
                    acc = or2(&acc, &c);
                    i = i + 1;
                }
                acc
            },
            CompiledQuery::DisjMax { children } => {
                let mut acc = slots_none();
                let mut i: usize = 0;
                while i < children.len()
                    invariant
                        self.wf(),
                        acc@.len() == SLOTS,
                        forall|j: int|
                            0 <= j < SLOTS && acc@[j] is Some ==> slot_live(bm_of(*live), j),
                        *q is DisjMax,
                        q->DisjMax_children == *children,
                    decreases children@.len() - i,
                {
                    proof {
                        assert(q->DisjMax_children == *children);
                        assert(decreases_to!(*q => q->DisjMax_children));
                        assert(decreases_to!(*children => children@));
                        assert(decreases_to!(children@ => children@[i as int]));
                        assert(decreases_to!(*q => children@[i as int]));
                    }
                    let c = self.eval_query(seg, live, &children[i]);
                    acc = max2(&acc, &c);
                    i = i + 1;
                }
                acc
            },
            CompiledQuery::NDisj { children, min } => {
                let mut counts: Vec<u32> = Vec::new();
                let mut sums: Vec<u64> = Vec::new();
                let mut alive: Vec<bool> = Vec::new();
                let mut i: usize = 0;
                while i < SLOTS
                    invariant
                        0 <= i <= SLOTS,
                        counts@.len() == i,
                        sums@.len() == i,
                        alive@.len() == i,
                        forall|j: int| 0 <= j < i ==> !(#[trigger] alive@[j]),
                        forall|j: int| 0 <= j < i ==> #[trigger] counts@[j] == 0,
                    decreases SLOTS - i,
                {
                    counts.push(0);
                    sums.push(0);
                    alive.push(false);
                    i = i + 1;
                }
                let mut c: usize = 0;
                while c < children.len()
                    invariant
                        self.wf(),
                        counts@.len() == SLOTS,
                        sums@.len() == SLOTS,
                        alive@.len() == SLOTS,
                        forall|j: int|
                            0 <= j < SLOTS && #[trigger] alive@[j] ==> slot_live(bm_of(*live), j),
                        forall|j: int| 0 <= j < SLOTS && counts@[j] > 0 ==> #[trigger] alive@[j],
                        *q is NDisj,
                        q->NDisj_children == *children,
                    decreases children@.len() - c,
                {
                    proof {
                        assert(q->NDisj_children == *children);
                        assert(decreases_to!(*q => q->NDisj_children));
                        assert(decreases_to!(*children => children@));
                        assert(decreases_to!(children@ => children@[c as int]));
                        assert(decreases_to!(*q => children@[c as int]));
                    }
                    let arr = self.eval_query(seg, live, &children[c]);
                    let mut j: usize = 0;
                    while j < SLOTS
                        invariant
                            0 <= j <= SLOTS,
                            arr@.len() == SLOTS,
                            counts@.len() == SLOTS,
                            sums@.len() == SLOTS,
                            alive@.len() == SLOTS,
                            forall|x: int|
                                0 <= x < SLOTS && arr@[x] is Some ==> slot_live(bm_of(*live), x),
                            forall|x: int|
                                0 <= x < SLOTS && #[trigger] alive@[x] ==> slot_live(
                                    bm_of(*live),
                                    x,
                                ),
                            forall|x: int|
                                0 <= x < SLOTS && counts@[x] > 0 ==> #[trigger] alive@[x],
                        decreases SLOTS - j,
                    {
                        match &arr[j] {
                            Some(x) => {
                                let nc = if counts[j] >= 0xffff_ffff {
                                    0xffff_ffff
                                } else {
                                    counts[j] + 1
                                };
                                counts[j] = nc;
                                let ns = sat_add(sums[j], *x);
                                sums[j] = ns;
                                alive[j] = true;
                            },
                            None => {
                            },
                        }
                        j = j + 1;
                    }
                    c = c + 1;
                }
                let mut r: Vec<Option<u64>> = Vec::new();
                let mut j: usize = 0;
                while j < SLOTS
                    invariant
                        0 <= j <= SLOTS,
                        counts@.len() == SLOTS,
                        sums@.len() == SLOTS,
                        alive@.len() == SLOTS,
                        r@.len() == j,
                        forall|x: int|
                            0 <= x < SLOTS && #[trigger] alive@[x] ==> slot_live(bm_of(*live), x),
                        forall|x: int| 0 <= x < SLOTS && counts@[x] > 0 ==> #[trigger] alive@[x],
                        forall|x: int| 0 <= x < j && r@[x] is Some ==> slot_live(bm_of(*live), x),
                    decreases SLOTS - j,
                {
                    if counts[j] >= *min && counts[j] > 0 {
                        proof {
                            assert(alive@[j as int]);
                        }
                        r.push(Some(sums[j]));
                    } else {
                        r.push(None);
                    }
                    j = j + 1;
                }
                r
            },
            CompiledQuery::Filtered { query, filter } => {
                let a = self.eval_query(seg, live, query);
                let f = self.eval_query(seg, live, filter);
                let mut r: Vec<Option<u64>> = Vec::new();
                let mut i: usize = 0;
                while i < SLOTS
                    invariant
                        0 <= i <= SLOTS,
                        a@.len() == SLOTS,
                        f@.len() == SLOTS,
                        r@.len() == i,
                        forall|j: int|
                            0 <= j < SLOTS && a@[j] is Some ==> slot_live(bm_of(*live), j),
                        forall|j: int| 0 <= j < i && r@[j] is Some ==> slot_live(bm_of(*live), j),
                    decreases SLOTS - i,
                {
                    match (&a[i], &f[i]) {
                        (Some(x), Some(_)) => {
                            r.push(Some(*x));
                        },
                        _ => {
                            r.push(None);
                        },
                    }
                    i = i + 1;
                }
                r
            },
            CompiledQuery::Excl { query, exclude } => {
                let a = self.eval_query(seg, live, query);
                let f = self.eval_query(seg, live, exclude);
                let mut r: Vec<Option<u64>> = Vec::new();
                let mut i: usize = 0;
                while i < SLOTS
                    invariant
                        0 <= i <= SLOTS,
                        a@.len() == SLOTS,
                        f@.len() == SLOTS,
                        r@.len() == i,
                        forall|j: int|
                            0 <= j < SLOTS && a@[j] is Some ==> slot_live(bm_of(*live), j),
                        forall|j: int| 0 <= j < i && r@[j] is Some ==> slot_live(bm_of(*live), j),
                    decreases SLOTS - i,
                {
                    match (&a[i], &f[i]) {
                        (Some(x), None) => {
                            r.push(Some(*x));
                        },
                        _ => {
                            r.push(None);
                        },
                    }
                    i = i + 1;
                }
                r
            },
            CompiledQuery::Boost { query, mul_milli, add_milli } => {
                let a = self.eval_query(seg, live, query);
                let mut r: Vec<Option<u64>> = Vec::new();
                let mut i: usize = 0;
                while i < SLOTS
                    invariant
                        0 <= i <= SLOTS,
                        a@.len() == SLOTS,
                        r@.len() == i,
                        forall|j: int|
                            0 <= j < SLOTS && a@[j] is Some ==> slot_live(bm_of(*live), j),
                        forall|j: int| 0 <= j < i && r@[j] is Some ==> slot_live(bm_of(*live), j),
                    decreases SLOTS - i,
                {
                    match &a[i] {
                        Some(x) => {
                            let s = sat_add(sat_mul(*x, *mul_milli) / 1000, *add_milli);
                            r.push(Some(s));
                        },
                        None => {
                            r.push(None);
                        },
                    }
                    i = i + 1;
                }
                r
            },
        }
    }

    /// Evaluates a query over every committed segment and collects the best
    /// `k` hits, ordered by score, then by younger segment, then by higher
    /// ordinal. A hit's live bit is always set: a deleted document never
    /// appears.
    pub fn search(&self, q: &CompiledQuery, k: usize) -> (r: Vec<(DocRef, u64)>)
        requires
            self.wf(),
        ensures
            r@.len() <= k,
            forall|i: int, j: int|
                0 <= i < j < r@.len() ==> hit_before(#[trigger] r@[i], #[trigger] r@[j]),
            forall|i: int|
                #![trigger r@[i]]
                0 <= i < r@.len() ==> forall|s: Set<u32>|
                    self.kv_map().contains_key(live_key(r@[i].0.segment)) && self.kv_map()[
                        live_key(r@[i].0.segment)
                    ] == bm_ser(s) ==> s.contains(r@[i].0.ord as u32),
            (*q) matches CompiledQuery::Term { field, trefs, scorer } ==> (forall|
                seg2: u32,
                ord2: u16,
                s: Set<u32>,
                t: int,
            |
                #![trigger posting_key(seg2, field, trefs@[t], ord2), bm_ser(s)]
                1 <= seg2 < self.next_seg() && self.kv_map().contains_key(live_key(seg2))
                    && self.kv_map()[live_key(seg2)] == bm_ser(s) && s.contains(ord2 as u32) && 0
                    <= t < trefs@.len() && self.kv_map().contains_key(
                    posting_key(seg2, field, trefs@[t], ord2),
                ) && r@.len() < k ==> exists|i: int|
                    0 <= i < r@.len() && (#[trigger] r@[i]).0 == (DocRef {
                        segment: seg2,
                        ord: ord2,
                    })),
    {
        let mut hits: Vec<(DocRef, u64)> = Vec::new();
        let next = self.next_segment_id_value();
        let mut seg: u32 = 1;
        while seg < next
            invariant
                self.wf(),
                1 <= seg,
                next == self.next_seg(),
                forall|i: int, j: int|
                    0 <= i < j < hits@.len() ==> hit_before(#[trigger] hits@[i], #[trigger] hits@[j]),
                forall|i: int|
                    #![trigger hits@[i]]
                    0 <= i < hits@.len() ==> forall|s: Set<u32>|
                        self.kv_map().contains_key(live_key(hits@[i].0.segment)) && self.kv_map()[
                            live_key(hits@[i].0.segment)
                        ] == bm_ser(s) ==> s.contains(hits@[i].0.ord as u32),
                forall|seg2: u32, ord2: u16|
                    #![trigger term_hit_owed(self.kv_map(), *q, seg2, ord2)]
                    1 <= seg2 < seg && term_hit_owed(self.kv_map(), *q, seg2, ord2) ==> exists|i: int|
                        0 <= i < hits@.len() && (#[trigger] hits@[i]).0 == (DocRef {
                            segment: seg2,
                            ord: ord2,
                        }),
            decreases next - seg,
        {
            match self.live_docs(seg) {
                Some(live) => {
                    let arr = self.eval_query(seg, &live, q);
                    let mut ord: usize = 0;
                    while ord < SLOTS
                        invariant
                            self.wf(),
                            arr@.len() == SLOTS,
                            0 <= ord <= SLOTS,
                            1 <= seg < next,
                            next == self.next_seg(),
                            forall|j: int|
                                0 <= j < SLOTS && arr@[j] is Some ==> slot_live(bm_of(live), j),
                            (*q) matches CompiledQuery::Term { field, trefs, scorer } ==> (forall|
                                j: int,
                            |
                                #![trigger arr@[j]]
                                0 <= j < SLOTS ==> (arr@[j] is Some <==> slot_live(
                                    bm_of(live),
                                    j,
                                ) && exists|t: int|
                                    0 <= t < trefs@.len() && self.kv_map().contains_key(
                                        posting_key(seg, field, trefs@[t], j as u16),
                                    ))),
                            forall|s: Set<u32>|
                                self.kv_map().contains_key(live_key(seg)) && self.kv_map()[
                                    live_key(seg)
                                ] == bm_ser(s) ==> bm_of(live) == s,
                            forall|i: int, j: int|
                                0 <= i < j < hits@.len() ==> hit_before(
                                    #[trigger] hits@[i],
                                    #[trigger] hits@[j],
                                ),
                            forall|i: int|
                                #![trigger hits@[i]]
                                0 <= i < hits@.len() ==> forall|s: Set<u32>|
                                    self.kv_map().contains_key(live_key(hits@[i].0.segment))
                                        && self.kv_map()[live_key(hits@[i].0.segment)] == bm_ser(s)
                                        ==> s.contains(hits@[i].0.ord as u32),
                            forall|seg2: u32, ord2: u16|
                                #![trigger term_hit_owed(self.kv_map(), *q, seg2, ord2)]
                                1 <= seg2 < seg && term_hit_owed(self.kv_map(), *q, seg2, ord2) ==> exists|i: int|
                                    0 <= i < hits@.len() && (#[trigger] hits@[i]).0 == (DocRef {
                                        segment: seg2,
                                        ord: ord2,
                                    }),
                            forall|ord2: u16|
                                #![trigger term_hit_owed(self.kv_map(), *q, seg, ord2)]
                                (ord2 as int) < ord && term_hit_owed(self.kv_map(), *q, seg, ord2) ==> exists|
                                    i: int,
                                |
                                    0 <= i < hits@.len() && (#[trigger] hits@[i]).0 == (DocRef {
                                        segment: seg,
                                        ord: ord2,
                                    }),
                        decreases SLOTS - ord,
                    {
                        let slot = arr[ord];
                        match slot {
                            Some(score) => {
                                let dr = DocRef { segment: seg, ord: ord as u16 };
                                let ghost prehits = hits@;
                                insert_hit(&mut hits, (dr, score));
                                proof {
                                    assert(slot_live(bm_of(live), ord as int));
                                    assert forall|i: int|
                                        #![trigger hits@[i]]
                                        0 <= i < hits@.len() implies forall|s: Set<u32>|
                                        self.kv_map().contains_key(live_key(hits@[i].0.segment))
                                            && self.kv_map()[live_key(hits@[i].0.segment)]
                                            == bm_ser(s) ==> s.contains(hits@[i].0.ord as u32) by {
                                        if hits@[i] == (dr, score) {
                                            assert forall|s: Set<u32>|
                                                self.kv_map().contains_key(live_key(seg))
                                                    && self.kv_map()[live_key(seg)] == bm_ser(s)
                                                implies s.contains((ord as u16) as u32) by {
                                                assert(bm_of(live) == s);
                                            }
                                        } else {
                                            let j = choose|j: int|
                                                0 <= j < prehits.len() && hits@[i] == prehits[j];
                                        }
                                    }
                                    assert forall|seg2: u32, ord2: u16|
                                        #![trigger term_hit_owed(self.kv_map(), *q, seg2, ord2)]
                                        1 <= seg2 < seg && term_hit_owed(self.kv_map(), *q, seg2, ord2) implies
                                        exists|i: int|
                                        0 <= i < hits@.len() && (#[trigger] hits@[i]).0 == (DocRef {
                                            segment: seg2,
                                            ord: ord2,
                                        }) by {
                                        let j = choose|j: int|
                                            0 <= j < prehits.len() && (#[trigger] prehits[j]).0
                                                == (DocRef { segment: seg2, ord: ord2 });
                                        let i = choose|i: int|
                                            0 <= i < hits@.len() && hits@[i] == prehits[j];
                                    }
                                    assert forall|ord2: u16|
                                        #![trigger term_hit_owed(self.kv_map(), *q, seg, ord2)]
                                        (ord2 as int) < ord + 1 && term_hit_owed(self.kv_map(), *q, seg, ord2)
                                        implies exists|i: int|
                                        0 <= i < hits@.len() && (#[trigger] hits@[i]).0 == (DocRef {
                                            segment: seg,
                                            ord: ord2,
                                        }) by {
                                        if (ord2 as int) < ord {
                                            let j = choose|j: int|
                                                0 <= j < prehits.len() && (#[trigger] prehits[j]).0
                                                    == (DocRef { segment: seg, ord: ord2 });
                                            let i = choose|i: int|
                                                0 <= i < hits@.len() && hits@[i] == prehits[j];
                                        } else {
                                            let i = choose|i: int|
                                                0 <= i < hits@.len() && hits@[i] == (dr, score);
                                            assert(hits@[i].0 == (DocRef {
                                                segment: seg,
                                                ord: ord2,
                                            }));
                                        }
                                    }
                                }
                            },
                            None => {
                                proof {
                                    assert forall|ord2: u16|
                                        #![trigger term_hit_owed(self.kv_map(), *q, seg, ord2)]
                                        (ord2 as int) < ord + 1 && term_hit_owed(self.kv_map(), *q, seg, ord2)
                                        implies exists|i: int|
                                        0 <= i < hits@.len() && (#[trigger] hits@[i]).0 == (DocRef {
                                            segment: seg,
                                            ord: ord2,
                                        }) by {
                                        if (ord2 as int) == ord {
                                            assert((*q) is Term);
                                            let (s, t) = choose|s: Set<u32>, t: int|
                                                #![trigger bm_ser(s), q->Term_trefs@[t]]
                                                self.kv_map().contains_key(live_key(seg))
                                                    && self.kv_map()[live_key(seg)] == bm_ser(s)
                                                    && s.contains(ord2 as u32) && 0 <= t
                                                    < q->Term_trefs@.len()
                                                    && self.kv_map().contains_key(
                                                    posting_key(
                                                        seg,
                                                        q->Term_field,
                                                        q->Term_trefs@[t],
                                                        ord2,
                                                    ),
                                                );
                                            assert(bm_of(live) == s);
                                            assert(slot_live(bm_of(live), ord2 as int));
                                            assert(arr@[ord as int] is Some);
                                            assert(false);
                                        }
                                    }
                                }
                            },
                        }
                        ord = ord + 1;
                    }
                    proof {
                        assert forall|seg2: u32, ord2: u16|
                            #![trigger term_hit_owed(self.kv_map(), *q, seg2, ord2)]
                            1 <= seg2 < seg + 1 && term_hit_owed(self.kv_map(), *q, seg2, ord2) implies exists|
                            i: int,
                        |
                            0 <= i < hits@.len() && (#[trigger] hits@[i]).0 == (DocRef {
                                segment: seg2,
                                ord: ord2,
                            }) by {
                            if seg2 == seg {
                                assert((ord2 as int) < 65536);
                                assert(term_hit_owed(self.kv_map(), *q, seg, ord2));
                            }
                        }
                    }
                },
                None => {
                    proof {
                        assert forall|seg2: u32, ord2: u16|
                            #![trigger term_hit_owed(self.kv_map(), *q, seg2, ord2)]
                            1 <= seg2 < seg + 1 && term_hit_owed(self.kv_map(), *q, seg2, ord2) implies exists|
                            i: int,
                        |
                            0 <= i < hits@.len() && (#[trigger] hits@[i]).0 == (DocRef {
                                segment: seg2,
                                ord: ord2,
                            }) by {
                            if seg2 == seg {
                                assert((*q) is Term);
                                let (s, t) = choose|s: Set<u32>, t: int|
                                    #![trigger bm_ser(s), q->Term_trefs@[t]]
                                    self.kv_map().contains_key(live_key(seg)) && self.kv_map()[
                                        live_key(seg)
                                    ] == bm_ser(s) && s.contains(ord2 as u32) && 0 <= t
                                        < q->Term_trefs@.len() && self.kv_map().contains_key(
                                        posting_key(seg, q->Term_field, q->Term_trefs@[t], ord2),
                                    );
                                assert(false);
                            }
                        }
                    }
                },
            }
            seg = seg + 1;
        }
        let mut out: Vec<(DocRef, u64)> = Vec::new();
        let mut i: usize = 0;
        loop
            invariant_except_break
                0 <= i <= hits@.len(),
                out@.len() == (if i < k {
                    i as int
                } else {
                    k as int
                }),
                forall|x: int| 0 <= x < out@.len() ==> out@[x] == hits@[x],
            ensures
                out@.len() <= k,
                out@.len() <= hits@.len(),
                forall|x: int| 0 <= x < out@.len() ==> out@[x] == hits@[x],
                out@.len() < k ==> out@.len() == hits@.len(),
            decreases hits@.len() - i,
        {
            if i == hits.len() {
                break;
            }
            if out.len() >= k {
                break;
            }
            let (dr, sc) = hits[i];
            out.push((dr, sc));
            i = i + 1;
        }
        proof {
            assert forall|x: int|
                #![trigger out@[x]]
                0 <= x < out@.len() implies forall|s: Set<u32>|
                self.kv_map().contains_key(live_key(out@[x].0.segment)) && self.kv_map()[
                    live_key(out@[x].0.segment)
                ] == bm_ser(s) ==> s.contains(out@[x].0.ord as u32) by {
                assert(out@[x] == hits@[x]);
            }
            if out@.len() < k {
                assert(out@.len() == hits@.len());
                if (*q) is Term {
                    assert forall|seg2: u32, ord2: u16, s: Set<u32>, t: int|
                        #![trigger posting_key(seg2, q->Term_field, q->Term_trefs@[t], ord2), bm_ser(s)]
                        1 <= seg2 < self.next_seg() && self.kv_map().contains_key(live_key(seg2))
                            && self.kv_map()[live_key(seg2)] == bm_ser(s) && s.contains(
                            ord2 as u32,
                        ) && 0 <= t < q->Term_trefs@.len() && self.kv_map().contains_key(
                            posting_key(seg2, q->Term_field, q->Term_trefs@[t], ord2),
                        ) implies exists|i: int|
                        0 <= i < out@.len() && (#[trigger] out@[i]).0 == (DocRef {
                            segment: seg2,
                            ord: ord2,
                        }) by {
                        assert(term_hit_owed(self.kv_map(), *q, seg2, ord2));
                        let j = choose|j: int|
                            0 <= j < hits@.len() && (#[trigger] hits@[j]).0 == (DocRef {
                                segment: seg2,
                                ord: ord2,
                            });
                        assert(out@[j] == hits@[j]);
                    }
                }
            }
        }
        out
    }
}

/// A term query owes a hit: the segment's live bitmap is persisted, holds
/// the ordinal, and some selected reference has a posting key for it.
pub open spec fn term_hit_owed(
    m: Map<Seq<u8>, Seq<u8>>,
    q: CompiledQuery,
    seg2: u32,
    ord2: u16,
) -> bool {
    match q {
        CompiledQuery::Term { field, trefs, scorer } => exists|s: Set<u32>, t: int|
            #![trigger bm_ser(s), trefs@[t]]
            m.contains_key(live_key(seg2)) && m[live_key(seg2)] == bm_ser(s) && s.contains(
                ord2 as u32,
            ) && 0 <= t < trefs@.len() && m.contains_key(posting_key(seg2, field, trefs@[t], ord2)),
        _ => false,
    }
}

/// The collector's order: higher score first, then the younger segment,
/// then the higher ordinal.
pub open spec fn hit_before(a: (DocRef, u64), b: (DocRef, u64)) -> bool {
    ||| a.1 > b.1
    ||| (a.1 == b.1 && a.0.segment > b.0.segment)
    ||| (a.1 == b.1 && a.0.segment == b.0.segment && a.0.ord >= b.0.ord)
}

/// Whether `a` comes no later than `b` under the collector's order.
fn hit_before_exec(a: &(DocRef, u64), b: &(DocRef, u64)) -> (r: bool)
    ensures
        r == hit_before(*a, *b),
{
    if a.1 > b.1 {
        true
    } else if a.1 == b.1 && a.0.segment > b.0.segment {
        true
    } else if a.1 == b.1 && a.0.segment == b.0.segment && a.0.ord >= b.0.ord {
        true
    } else {
        false
    }
}

/// Inserts a hit, keeping the collector's order. The order is total, so the
/// list stays sorted.
#[verifier::rlimit(60)]
fn insert_hit(hits: &mut Vec<(DocRef, u64)>, h: (DocRef, u64))
    requires
        forall|i: int, j: int|
            0 <= i < j < old(hits)@.len() ==> hit_before(
                #[trigger] old(hits)@[i],
                #[trigger] old(hits)@[j],
            ),
    ensures
        final(hits)@.len() == old(hits)@.len() + 1,
        forall|i: int, j: int|
            0 <= i < j < final(hits)@.len() ==> hit_before(
                #[trigger] final(hits)@[i],
                #[trigger] final(hits)@[j],
            ),
        forall|i: int|
            0 <= i < final(hits)@.len() ==> final(hits)@[i] == h || exists|j: int|
                0 <= j < old(hits)@.len() && final(hits)@[i] == #[trigger] old(hits)@[j],
        exists|i: int| 0 <= i < final(hits)@.len() && final(hits)@[i] == h,
        forall|j: int|
            0 <= j < old(hits)@.len() ==> exists|i: int|
                0 <= i < final(hits)@.len() && final(hits)@[i] == #[trigger] old(hits)@[j],
{
    let ghost pre = hits@;
    let mut p: usize = 0;
    loop
        invariant_except_break
            0 <= p <= hits@.len(),
            hits@ == pre,
            forall|j: int| 0 <= j < p ==> hit_before(#[trigger] hits@[j], h),
        ensures
            hits@ == pre,
            0 <= p <= pre.len(),
            forall|j: int| 0 <= j < p ==> hit_before(#[trigger] pre[j], h),
            p < pre.len() ==> !hit_before(pre[p as int], h),
        decreases hits@.len() - p,
    {
        if p == hits.len() {
            break;
        }
        if !hit_before_exec(&hits[p], &h) {
            break;
        }
        p = p + 1;
    }
    proof {
        if p < pre.len() {
            assert(hit_before(h, pre[p as int]));
        }
    }
    hits.insert(p, h);
    proof {
        assert forall|i: int, j: int|
            0 <= i < j < hits@.len() implies hit_before(#[trigger] hits@[i], #[trigger] hits@[j]) by {
            let pi = p as int;
            if j < pi {
                assert(hits@[i] == pre[i]);
                assert(hits@[j] == pre[j]);
            } else if j == pi {
                assert(hits@[i] == pre[i]);
            } else if i < pi {
                assert(hits@[i] == pre[i]);
                assert(hits@[j] == pre[j - 1]);
                if j - 1 == pi {
                    assert(hit_before(pre[i], h));
                    assert(hit_before(h, pre[pi]));
                    assert(hit_before(pre[i], pre[pi]));
                } else {
                    assert(hit_before(pre[i], pre[j - 1]));
                }
            } else if i == pi {
                assert(hits@[j] == pre[j - 1]);
                if j - 1 == pi {
                    assert(hit_before(h, pre[pi]));
                } else {
                    assert(hit_before(h, pre[pi]));
                    assert(hit_before(pre[pi], pre[j - 1]));
                }
            } else {
                assert(hits@[i] == pre[i - 1]);
                assert(hits@[j] == pre[j - 1]);
                assert(hit_before(pre[i - 1], pre[j - 1]));
            }
        }
        assert forall|i: int|
            0 <= i < hits@.len() implies hits@[i] == h || exists|j: int|
            0 <= j < pre.len() && hits@[i] == #[trigger] pre[j] by {
            let pi = p as int;
            if i < pi {
                assert(hits@[i] == pre[i]);
            } else if i > pi {
                assert(hits@[i] == pre[i - 1]);
            }
        }
        assert(hits@[p as int] == h);
        assert forall|j: int| 0 <= j < pre.len() implies exists|i: int|
            0 <= i < hits@.len() && hits@[i] == #[trigger] pre[j] by {
            let pi = p as int;
            if j < pi {
                assert(hits@[j] == pre[j]);
            } else {
                assert(hits@[j + 1] == pre[j]);
            }
        }
    }
}

} // verus!
