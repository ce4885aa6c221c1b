//! The index store: segments, the document-key index and the term
//! dictionary, all persisted in one ordered key-value store.
//!
//! Two invariants are kept at every step. The in-memory term dictionary and
//! its persisted mirror agree, so a reopened store reports every reference
//! the lost process issued. And every term reference in any posting key is
//! present in the dictionary, in memory and on disk.

use vstd::prelude::*;
use crate::kvstore::KvStore;
use crate::assoc::SortedMap;
use crate::term_dictionary::{TermDictionaryManager, term_key, next_ref_key, valid_ref_bytes,
    counter_consistent};
use crate::dec::{dec_of, dec_to_u32, u32_to_dec, lemma_dec_of_canonical};
use crate::doc::{DocRef, SegmentBuilder, AnalyzedDocument, FieldTokens};
use crate::keys::{be32, be16, posting_key, posting_prefix, len_key, stored_key, live_key, doc_key,
    next_seg_key, posting_key_exec, posting_prefix_exec, len_key_exec, stored_key_exec,
    live_key_exec, doc_key_exec, next_seg_key_exec, push_be32, push_be16, enc_positions,
    enc_positions_exec};
use crate::bm::{bm_of, bm_ser, bm_new, bm_insert, bm_remove, bm_contains, bm_len, bm_serialize,
    bm_deserialize};
use crate::lex::bytes_eq;

verus! {

/// The store refused an operation: the reference or segment space is used
/// up, or a persisted structure cannot be read back.
#[derive(Debug, Clone, Copy, PartialEq, Eq, Structural)]
pub enum StorageError {
    RefSpace,
    Corrupt,
}

/// The persisted value of a document reference.
pub open spec fn doc_ref_bytes(r: DocRef) -> Seq<u8> {
    be32(r.segment) + be16(r.ord)
}

/// The document reference six persisted bytes denote.
pub open spec fn doc_ref_of_bytes(b: Seq<u8>) -> DocRef
    recommends
        b.len() == 6,
{
    DocRef {
        segment: crate::keys::val32(b.subrange(0, 4)),
        ord: ((b[4] as u16) << 8) | (b[5] as u16),
    }
}

/// The in-memory dictionary and its persisted mirror agree: every term held
/// in memory is on disk with the same reference, and the other way round.
pub open spec fn dict_mirrored(m: Map<Seq<u8>, Seq<u8>>, d: Map<Seq<u8>, u32>) -> bool {
    &&& forall|tb: Seq<u8>|
        d.contains_key(tb) ==> m.contains_key(#[trigger] term_key(tb)) && m[term_key(tb)]
            == dec_of(d[tb] as nat) && 1 <= d[tb] < u32::MAX
    &&& forall|tb: Seq<u8>|
        m.contains_key(#[trigger] term_key(tb)) && valid_ref_bytes(m[term_key(tb)])
            ==> d.contains_key(tb)
}

/// The term frequency a posting value encodes: one position per four
/// bytes, capped at the largest 32-bit value.
pub open spec fn tf_of(b: Seq<u8>) -> u32 {
    if b.len() / 4 >= 0xffff_ffff {
        0xffff_ffff
    } else {
        (b.len() / 4) as u32
    }
}

/// Every term reference in any posting key is held by the dictionary.
pub open spec fn postings_resolved(m: Map<Seq<u8>, Seq<u8>>, d: Map<Seq<u8>, u32>) -> bool {
    forall|seg: u32, field: u32, tref: u32, ord: u16|
        m.contains_key(#[trigger] posting_key(seg, field, tref, ord)) ==> exists|tb: Seq<u8>|
            d.contains_key(tb) && d[tb] == tref
}

/// The token's term has a reference and its posting key is persisted.
pub open spec fn token_posted(
    m: Map<Seq<u8>, Seq<u8>>,
    d: Map<Seq<u8>, u32>,
    seg: u32,
    field: u32,
    ord: u16,
    t: crate::term::Term,
) -> bool {
    &&& d.contains_key(crate::term::term_bytes(t))
    &&& m.contains_key(posting_key(seg, field, d[crate::term::term_bytes(t)], ord))
}

/// Every token of one document's first `upto` fields is posted.
pub open spec fn fields_posted(
    m: Map<Seq<u8>, Seq<u8>>,
    d: Map<Seq<u8>, u32>,
    seg: u32,
    fs: Seq<FieldTokens>,
    ord: u16,
    upto: int,
) -> bool {
    forall|b: int, c: int|
        #![trigger fs[b].tokens@[c]]
        0 <= b < upto && b < fs.len() && 0 <= c < fs[b].tokens@.len() ==> token_posted(
            m,
            d,
            seg,
            fs[b].field,
            ord,
            fs[b].tokens@[c].term,
        )
}

/// Every token of the first `upto` documents is posted at its ordinal.
pub open spec fn docs_posted(
    m: Map<Seq<u8>, Seq<u8>>,
    d: Map<Seq<u8>, u32>,
    seg: u32,
    docs: Seq<AnalyzedDocument>,
    upto: int,
) -> bool {
    forall|a: int|
        0 <= a < upto && a < docs.len() ==> fields_posted(
            m,
            d,
            seg,
            #[trigger] docs[a].fields@,
            a as u16,
            docs[a].fields@.len() as int,
        )
}

/// Every posting key of the segment that the store gained comes from a
/// token of the first `upto` documents: the right field, the document's
/// ordinal, and the term's own reference.
pub open spec fn new_postings_from(
    m0: Map<Seq<u8>, Seq<u8>>,
    m: Map<Seq<u8>, Seq<u8>>,
    d: Map<Seq<u8>, u32>,
    seg: u32,
    docs: Seq<AnalyzedDocument>,
    upto: int,
) -> bool {
    forall|f: u32, t: u32, o: u16|
        #![trigger posting_key(seg, f, t, o)]
        m.contains_key(posting_key(seg, f, t, o)) && !m0.contains_key(posting_key(seg, f, t, o))
            ==> exists|di: int, fi: int, ti: int|
            #![trigger docs[di].fields@[fi].tokens@[ti]]
            0 <= di < upto && di < docs.len() && 0 <= fi < docs[di].fields@.len() && 0 <= ti
                < docs[di].fields@[fi].tokens@.len() && docs[di].fields@[fi].field == f && (
            di as u16) == o && d.contains_key(
                crate::term::term_bytes(docs[di].fields@[fi].tokens@[ti].term),
            ) && d[crate::term::term_bytes(docs[di].fields@[fi].tokens@[ti].term)] == t
}

/// Inserting a key that is not a posting key gains no posting.
proof fn lemma_new_postings_other(
    m0: Map<Seq<u8>, Seq<u8>>,
    m: Map<Seq<u8>, Seq<u8>>,
    d: Map<Seq<u8>, u32>,
    seg: u32,
    docs: Seq<AnalyzedDocument>,
    upto: int,
    k: Seq<u8>,
    v: Seq<u8>,
)
    requires
        new_postings_from(m0, m, d, seg, docs, upto),
        k.len() >= 1,
        k[0] != 112,
    ensures
        new_postings_from(m0, m.insert(k, v), d, seg, docs, upto),
{
    let m2 = m.insert(k, v);
    assert forall|f: u32, t: u32, o: u16|
        #![trigger posting_key(seg, f, t, o)]
        m2.contains_key(posting_key(seg, f, t, o)) && !m0.contains_key(
            posting_key(seg, f, t, o),
        ) implies exists|di: int, fi: int, ti: int|
        #![trigger docs[di].fields@[fi].tokens@[ti]]
        0 <= di < upto && di < docs.len() && 0 <= fi < docs[di].fields@.len() && 0 <= ti
            < docs[di].fields@[fi].tokens@.len() && docs[di].fields@[fi].field == f && (di as u16)
            == o && d.contains_key(
            crate::term::term_bytes(docs[di].fields@[fi].tokens@[ti].term),
        ) && d[crate::term::term_bytes(docs[di].fields@[fi].tokens@[ti].term)] == t by {
        assert(posting_key(seg, f, t, o)[0] == 112);
        assert(posting_key(seg, f, t, o) != k);
        assert(m.contains_key(posting_key(seg, f, t, o)));
    }
}

/// A value-stable dictionary growth keeps every gained posting accounted.
proof fn lemma_new_postings_dict(
    m0: Map<Seq<u8>, Seq<u8>>,
    m: Map<Seq<u8>, Seq<u8>>,
    d: Map<Seq<u8>, u32>,
    d2: Map<Seq<u8>, u32>,
    seg: u32,
    docs: Seq<AnalyzedDocument>,
    upto: int,
)
    requires
        new_postings_from(m0, m, d, seg, docs, upto),
        forall|tb: Seq<u8>| d.contains_key(tb) ==> #[trigger] d2.contains_key(tb) && d2[tb]
            == d[tb],
    ensures
        new_postings_from(m0, m, d2, seg, docs, upto),
{
    assert forall|f: u32, t: u32, o: u16|
        #![trigger posting_key(seg, f, t, o)]
        m.contains_key(posting_key(seg, f, t, o)) && !m0.contains_key(
            posting_key(seg, f, t, o),
        ) implies exists|di: int, fi: int, ti: int|
        #![trigger docs[di].fields@[fi].tokens@[ti]]
        0 <= di < upto && di < docs.len() && 0 <= fi < docs[di].fields@.len() && 0 <= ti
            < docs[di].fields@[fi].tokens@.len() && docs[di].fields@[fi].field == f && (di as u16)
            == o && d2.contains_key(
            crate::term::term_bytes(docs[di].fields@[fi].tokens@[ti].term),
        ) && d2[crate::term::term_bytes(docs[di].fields@[fi].tokens@[ti].term)] == t by {
        let (di, fi, ti) = choose|di: int, fi: int, ti: int|
            #![trigger docs[di].fields@[fi].tokens@[ti]]
            0 <= di < upto && di < docs.len() && 0 <= fi < docs[di].fields@.len() && 0 <= ti
                < docs[di].fields@[fi].tokens@.len() && docs[di].fields@[fi].field == f && (
            di as u16) == o && d.contains_key(
                crate::term::term_bytes(docs[di].fields@[fi].tokens@[ti].term),
            ) && d[crate::term::term_bytes(docs[di].fields@[fi].tokens@[ti].term)] == t;
        assert(d2.contains_key(crate::term::term_bytes(docs[di].fields@[fi].tokens@[ti].term)));
    }
}

/// Posting keys agree on every component.
proof fn lemma_posting_key_parts(s1: u32, f1: u32, t1: u32, o1: u16, s2: u32, f2: u32, t2: u32, o2: u16)
    requires
        posting_key(s1, f1, t1, o1) == posting_key(s2, f2, t2, o2),
    ensures
        f1 == f2,
        t1 == t2,
        o1 == o2,
{
    let k1 = posting_key(s1, f1, t1, o1);
    let k2 = posting_key(s2, f2, t2, o2);
    assert(k1.subrange(5, 9) =~= be32(f1));
    assert(k2.subrange(5, 9) =~= be32(f2));
    crate::keys::lemma_val32_be32(f1);
    crate::keys::lemma_val32_be32(f2);
    assert(k1.subrange(9, 13) =~= be32(t1));
    assert(k2.subrange(9, 13) =~= be32(t2));
    crate::keys::lemma_val32_be32(t1);
    crate::keys::lemma_val32_be32(t2);
    assert(k1.subrange(13, 15) =~= be16(o1));
    assert(k2.subrange(13, 15) =~= be16(o2));
    crate::keys::lemma_be16_injective(o1, o2);
}

/// A grown dictionary and store keep every posted token posted: the
/// dictionary never rebinds a term, and the store never loses a key.
proof fn lemma_posted_monotone(
    m: Map<Seq<u8>, Seq<u8>>,
    d: Map<Seq<u8>, u32>,
    m2: Map<Seq<u8>, Seq<u8>>,
    d2: Map<Seq<u8>, u32>,
    seg: u32,
    docs: Seq<AnalyzedDocument>,
    upto: int,
    fs: Seq<FieldTokens>,
    ord: u16,
    fupto: int,
)
    requires
        forall|k: Seq<u8>| m.contains_key(k) ==> #[trigger] m2.contains_key(k),
        forall|tb: Seq<u8>| d.contains_key(tb) ==> #[trigger] d2.contains_key(tb) && d2[tb]
            == d[tb],
        docs_posted(m, d, seg, docs, upto),
        fields_posted(m, d, seg, fs, ord, fupto),
    ensures
        docs_posted(m2, d2, seg, docs, upto),
        fields_posted(m2, d2, seg, fs, ord, fupto),
{
    assert forall|a: int| 0 <= a < upto && a < docs.len() implies fields_posted(
        m2,
        d2,
        seg,
        #[trigger] docs[a].fields@,
        a as u16,
        docs[a].fields@.len() as int,
    ) by {
        assert(fields_posted(m, d, seg, docs[a].fields@, a as u16, docs[a].fields@.len() as int));
        lemma_fields_posted_monotone(m, d, m2, d2, seg, docs[a].fields@, a as u16, docs[a].fields@.len() as int);
    }
    lemma_fields_posted_monotone(m, d, m2, d2, seg, fs, ord, fupto);
}

/// The field-level half of the monotonicity above.
proof fn lemma_fields_posted_monotone(
    m: Map<Seq<u8>, Seq<u8>>,
    d: Map<Seq<u8>, u32>,
    m2: Map<Seq<u8>, Seq<u8>>,
    d2: Map<Seq<u8>, u32>,
    seg: u32,
    fs: Seq<FieldTokens>,
    ord: u16,
    fupto: int,
)
    requires
        forall|k: Seq<u8>| m.contains_key(k) ==> #[trigger] m2.contains_key(k),
        forall|tb: Seq<u8>| d.contains_key(tb) ==> #[trigger] d2.contains_key(tb) && d2[tb]
            == d[tb],
        fields_posted(m, d, seg, fs, ord, fupto),
    ensures
        fields_posted(m2, d2, seg, fs, ord, fupto),
{
    assert forall|b: int, c: int|
        #![trigger fs[b].tokens@[c]]
        0 <= b < fupto && b < fs.len() && 0 <= c < fs[b].tokens@.len() implies token_posted(
        m2,
        d2,
        seg,
        fs[b].field,
        ord,
        fs[b].tokens@[c].term,
    ) by {
        assert(token_posted(m, d, seg, fs[b].field, ord, fs[b].tokens@[c].term));
        let tb = crate::term::term_bytes(fs[b].tokens@[c].term);
        assert(d2.contains_key(tb) && d2[tb] == d[tb]);
        assert(m2.contains_key(posting_key(seg, fs[b].field, d[tb], ord)));
    }
}

/// Inserting a key that is neither a posting nor a dictionary entry keeps
/// both store invariants.
proof fn lemma_put_other(m: Map<Seq<u8>, Seq<u8>>, d: Map<Seq<u8>, u32>, k: Seq<u8>, v: Seq<u8>)
    requires
        dict_mirrored(m, d),
        postings_resolved(m, d),
        k.len() >= 1,
        k[0] != 112,
        k[0] != 116,
    ensures
        dict_mirrored(m.insert(k, v), d),
        postings_resolved(m.insert(k, v), d),
{
    let m2 = m.insert(k, v);
    assert forall|tb: Seq<u8>| d.contains_key(tb) implies m2.contains_key(#[trigger] term_key(tb))
        && m2[term_key(tb)] == dec_of(d[tb] as nat) && 1 <= d[tb] < u32::MAX by {
        assert(term_key(tb)[0] == 116);
        assert(term_key(tb) != k);
    }
    assert forall|tb: Seq<u8>|
        m2.contains_key(#[trigger] term_key(tb)) && valid_ref_bytes(m2[term_key(tb)]) implies d
        .contains_key(tb) by {
        assert(term_key(tb)[0] == 116);
        assert(term_key(tb) != k);
    }
    assert forall|seg: u32, field: u32, tref: u32, ord: u16|
        m2.contains_key(#[trigger] posting_key(seg, field, tref, ord)) implies exists|tb: Seq<u8>|
        d.contains_key(tb) && d[tb] == tref by {
        assert(posting_key(seg, field, tref, ord)[0] == 112);
        assert(posting_key(seg, field, tref, ord) != k);
    }
}

/// Removing a key that is neither a posting nor a dictionary entry keeps
/// both store invariants.
proof fn lemma_remove_other(m: Map<Seq<u8>, Seq<u8>>, d: Map<Seq<u8>, u32>, k: Seq<u8>)
    requires
        dict_mirrored(m, d),
        postings_resolved(m, d),
        k.len() >= 1,
        k[0] != 112,
        k[0] != 116,
    ensures
        dict_mirrored(m.remove(k), d),
        postings_resolved(m.remove(k), d),
{
    let m2 = m.remove(k);
    assert forall|tb: Seq<u8>| d.contains_key(tb) implies m2.contains_key(#[trigger] term_key(tb))
        && m2[term_key(tb)] == dec_of(d[tb] as nat) && 1 <= d[tb] < u32::MAX by {
        assert(term_key(tb)[0] == 116);
        assert(term_key(tb) != k);
    }
    assert forall|tb: Seq<u8>|
        m2.contains_key(#[trigger] term_key(tb)) && valid_ref_bytes(m2[term_key(tb)]) implies d
        .contains_key(tb) by {
        assert(term_key(tb)[0] == 116);
        assert(term_key(tb) != k);
    }
    assert forall|seg: u32, field: u32, tref: u32, ord: u16|
        m2.contains_key(#[trigger] posting_key(seg, field, tref, ord)) implies exists|tb: Seq<u8>|
        d.contains_key(tb) && d[tb] == tref by {
        assert(posting_key(seg, field, tref, ord)[0] == 112);
        assert(posting_key(seg, field, tref, ord) != k);
    }
}

/// Inserting a posting key whose reference the dictionary holds keeps both
/// store invariants.
proof fn lemma_put_posting(
    m: Map<Seq<u8>, Seq<u8>>,
    d: Map<Seq<u8>, u32>,
    seg: u32,
    field: u32,
    tref: u32,
    ord: u16,
    v: Seq<u8>,
)
    requires
        dict_mirrored(m, d),
        postings_resolved(m, d),
        exists|tb: Seq<u8>| d.contains_key(tb) && d[tb] == tref,
    ensures
        dict_mirrored(m.insert(posting_key(seg, field, tref, ord), v), d),
        postings_resolved(m.insert(posting_key(seg, field, tref, ord), v), d),
{
    let k = posting_key(seg, field, tref, ord);
    let m2 = m.insert(k, v);
    assert(k[0] == 112);
    assert forall|tb: Seq<u8>| d.contains_key(tb) implies m2.contains_key(#[trigger] term_key(tb))
        && m2[term_key(tb)] == dec_of(d[tb] as nat) && 1 <= d[tb] < u32::MAX by {
        assert(term_key(tb)[0] == 116);
        assert(term_key(tb) != k);
    }
    assert forall|tb: Seq<u8>|
        m2.contains_key(#[trigger] term_key(tb)) && valid_ref_bytes(m2[term_key(tb)]) implies d
        .contains_key(tb) by {
        assert(term_key(tb)[0] == 116);
        assert(term_key(tb) != k);
    }
    assert forall|s2: u32, f2: u32, t2: u32, o2: u16|
        m2.contains_key(#[trigger] posting_key(s2, f2, t2, o2)) implies exists|tb: Seq<u8>|
        d.contains_key(tb) && d[tb] == t2 by {
        if posting_key(s2, f2, t2, o2) == k {
            crate::keys::lemma_val32_be32(t2);
            crate::keys::lemma_val32_be32(tref);
            assert(posting_key(s2, f2, t2, o2).subrange(9, 13) =~= be32(t2));
            assert(k.subrange(9, 13) =~= be32(tref));
            assert(t2 == tref);
        }
    }
}

/// Issuing a fresh reference — the bumped counter, the dictionary entry on
/// disk, the entry in memory — keeps both store invariants.
proof fn lemma_put_created(
    m: Map<Seq<u8>, Seq<u8>>,
    d: Map<Seq<u8>, u32>,
    tb: Seq<u8>,
    r: u32,
)
    requires
        dict_mirrored(m, d),
        postings_resolved(m, d),
        !d.contains_key(tb),
        1 <= r < u32::MAX,
    ensures
        dict_mirrored(
            m.insert(next_ref_key(), dec_of((r + 1) as nat)).insert(term_key(tb), dec_of(r as nat)),
            d.insert(tb, r),
        ),
        postings_resolved(
            m.insert(next_ref_key(), dec_of((r + 1) as nat)).insert(term_key(tb), dec_of(r as nat)),
            d.insert(tb, r),
        ),
{
    let m1 = m.insert(next_ref_key(), dec_of((r + 1) as nat));
    lemma_put_other(m, d, next_ref_key(), dec_of((r + 1) as nat));
    let m2 = m1.insert(term_key(tb), dec_of(r as nat));
    let d2 = d.insert(tb, r);
    assert forall|tb2: Seq<u8>| d2.contains_key(tb2) implies m2.contains_key(
        #[trigger] term_key(tb2),
    ) && m2[term_key(tb2)] == dec_of(d2[tb2] as nat) && 1 <= d2[tb2] < u32::MAX by {
        if tb2 == tb {
        } else {
            assert(term_key(tb2).skip(1) =~= tb2);
            assert(term_key(tb).skip(1) =~= tb);
            assert(term_key(tb2) != term_key(tb));
        }
    }
    assert forall|tb2: Seq<u8>|
        m2.contains_key(#[trigger] term_key(tb2)) && valid_ref_bytes(m2[term_key(tb2)]) implies d2
        .contains_key(tb2) by {
        if term_key(tb2) == term_key(tb) {
            assert(term_key(tb2).skip(1) =~= tb2);
            assert(term_key(tb).skip(1) =~= tb);
        }
    }
    assert forall|s2: u32, f2: u32, t2: u32, o2: u16|
        m2.contains_key(#[trigger] posting_key(s2, f2, t2, o2)) implies exists|tb3: Seq<u8>|
        d2.contains_key(tb3) && d2[tb3] == t2 by {
        assert(posting_key(s2, f2, t2, o2)[0] == 112);
        assert(term_key(tb)[0] == 116);
        assert(next_ref_key()[0] == 46);
        assert(posting_key(s2, f2, t2, o2) != term_key(tb));
        assert(posting_key(s2, f2, t2, o2) != next_ref_key());
        assert(m.contains_key(posting_key(s2, f2, t2, o2)));
        let tb3 = choose|tb3: Seq<u8>| d.contains_key(tb3) && d[tb3] == t2;
        assert(tb3 != tb);
        assert(d2.contains_key(tb3) && d2[tb3] == t2);
    }
}

/// An index: its key-value store, term dictionary, document-key index and
/// segment counter. Segments are append-only; deleting a document clears
/// one live bit.
pub struct IndexStore {
    pub kv: KvStore,
    pub term_dictionary: TermDictionaryManager,
    pub doc_index: SortedMap<DocRef>,
    pub next_segment_id: u32,
}

impl IndexStore {
    /// The persisted map.
    pub open spec fn kv_map(&self) -> Map<Seq<u8>, Seq<u8>> {
        self.kv@
    }

    /// The in-memory term dictionary's contents.
    pub open spec fn dict(&self) -> Map<Seq<u8>, u32> {
        self.term_dictionary@
    }

    /// The document-key index: external key bytes to the one live reference.
    pub open spec fn doc_refs(&self) -> Map<Seq<u8>, DocRef> {
        self.doc_index@
    }

    /// The next segment identifier.
    pub open spec fn next_seg(&self) -> u32 {
        self.next_segment_id
    }

    /// The store's invariants.
    pub closed spec fn wf(&self) -> bool {
        &&& self.kv.wf()
        &&& self.term_dictionary.wf()
        &&& self.doc_index.wf()
        &&& self.next_segment_id >= 1
        &&& dict_mirrored(self.kv@, self.term_dictionary@)
        &&& postings_resolved(self.kv@, self.term_dictionary@)
        &&& self.kv@.contains_key(next_ref_key())
        &&& self.kv@[next_ref_key()] == dec_of(self.term_dictionary.next_ref() as nat)
    }

    /// The persisted next-reference counter always equals the in-memory one.
    pub proof fn lemma_counter_persisted(&self)
        requires
            self.wf(),
        ensures
            self.kv_map().contains_key(next_ref_key()),
            self.kv_map()[next_ref_key()] == dec_of(self.term_dictionary.next_ref() as nat),
    {
    }

    /// Every term reference in any persisted posting key is present in the
    /// in-memory dictionary.
    pub proof fn lemma_postings_in_dictionary(&self)
        requires
            self.wf(),
        ensures
            forall|seg: u32, field: u32, tref: u32, ord: u16|
                self.kv_map().contains_key(#[trigger] posting_key(seg, field, tref, ord))
                    ==> exists|tb: Seq<u8>| self.dict().contains_key(tb) && self.dict()[tb]
                    == tref,
    {
        assert forall|seg: u32, field: u32, tref: u32, ord: u16|
            self.kv_map().contains_key(#[trigger] posting_key(seg, field, tref, ord)) implies
            exists|tb: Seq<u8>| self.dict().contains_key(tb) && self.dict()[tb] == tref by {
            assert(postings_resolved(self.kv@, self.term_dictionary@));
            let tb = choose|tb: Seq<u8>|
                self.term_dictionary@.contains_key(tb) && self.term_dictionary@[tb] == tref;
            assert(self.dict().contains_key(tb) && self.dict()[tb] == tref);
        }
    }

    /// The parts a well-formed store holds are themselves well-formed.
    pub proof fn lemma_components_wf(&self)
        requires
            self.wf(),
        ensures
            self.term_dictionary.wf(),
            self.kv.wf(),
            self.doc_index.wf(),
    {
    }

    /// A fresh, empty index.
    pub fn create() -> (r: IndexStore)
        ensures
            r.wf(),
            r.doc_refs() == Map::<Seq<u8>, DocRef>::empty(),
            r.dict() == Map::<Seq<u8>, u32>::empty(),
            r.next_seg() == 1,
    {
        let mut kv = KvStore::new();
        let term_dictionary = TermDictionaryManager::new(&mut kv);
        proof {
            lemma_dec_of_canonical(1);
        }
        let ghost m1 = kv@;
        let ghost d1 = term_dictionary@;
        proof {
            assert(dict_mirrored(m1, d1));
            assert forall|seg: u32, field: u32, tref: u32, ord: u16|
                m1.contains_key(#[trigger] posting_key(seg, field, tref, ord)) implies exists|
                tb: Seq<u8>,
            | d1.contains_key(tb) && d1[tb] == tref by {
                assert(posting_key(seg, field, tref, ord)[0] == 112);
                assert(posting_key(seg, field, tref, ord) != next_ref_key());
            }
            lemma_put_other(m1, d1, next_seg_key(), dec_of(1));
        }
        let nk = next_seg_key_exec();
        kv.put(nk, u32_to_dec(1));
        IndexStore { kv, term_dictionary, doc_index: SortedMap::new(), next_segment_id: 1 }
    }

    /// Encodes a document reference for the key index.
    fn doc_ref_bytes_exec(r: DocRef) -> (out: Vec<u8>)
        ensures
            out@ == doc_ref_bytes(r),
    {
        let mut out: Vec<u8> = Vec::new();
        push_be32(&mut out, r.segment);
        push_be16(&mut out, r.ord);
        proof {
            assert(out@ =~= doc_ref_bytes(r));
        }
        out
    }

    /// Persists one builder as a fresh immutable segment: every posting, the
    /// field lengths and stored fields, then the full live-docs bitmap, then
    /// the bumped segment counter. The live bitmap is written last but for
    /// the counter, so a reader sees the whole segment or none of it.
    pub fn write_segment(&mut self, builder: &SegmentBuilder) -> (r: Result<u32, StorageError>)
        requires
            old(self).wf(),
            builder.wf(),
        ensures
            final(self).wf(),
            final(self).doc_refs() == old(self).doc_refs(),
            r matches Ok(seg) ==> seg == old(self).next_seg() && final(self).next_seg() == seg + 1
                && final(self).kv_map().contains_key(live_key(seg)) && final(self).kv_map()[
                live_key(seg)
            ] == bm_ser(Set::new(|v: u32| (v as int) < builder@.len())),
            r matches Ok(seg) ==> docs_posted(
                final(self).kv_map(),
                final(self).dict(),
                seg,
                builder@,
                builder@.len() as int,
            ),
            r matches Ok(seg) ==> new_postings_from(
                old(self).kv_map(),
                final(self).kv_map(),
                final(self).dict(),
                seg,
                builder@,
                builder@.len() as int,
            ),
            r is Err ==> final(self).next_seg() == old(self).next_seg(),
            r is Err ==> old(self).next_seg() == 0xffff_ffff
                || final(self).term_dictionary.next_ref() == 0xffff_ffff,
    {
        if self.next_segment_id == 0xffff_ffff {
            return Err(StorageError::RefSpace);
        }
        let seg = self.next_segment_id;
        let count = builder.document_count();
        let mut di: usize = 0;
        while di < count as usize
            invariant
                self.wf(),
                count == builder@.len(),
                builder.wf(),
                seg == self.next_segment_id,
                self.next_segment_id == old(self).next_segment_id,
                self.next_segment_id < 0xffff_ffff,
                self.doc_refs() == old(self).doc_refs(),
                docs_posted(self.kv@, self.term_dictionary@, seg, builder@, di as int),
                new_postings_from(
                    old(self).kv@,
                    self.kv@,
                    self.term_dictionary@,
                    seg,
                    builder@,
                    di as int,
                ),
            decreases count as int - di,
        {
            let doc = builder.doc_at(di);
            let ord = di as u16;
            let mut fi: usize = 0;
            while fi < doc.fields.len()
                invariant
                    self.wf(),
                    count == builder@.len(),
                    builder.wf(),
                    seg == self.next_segment_id,
                    self.next_segment_id == old(self).next_segment_id,
                    self.next_segment_id < 0xffff_ffff,
                    self.doc_refs() == old(self).doc_refs(),
                    di < count as usize,
                    doc == &builder@[di as int],
                    ord == di as u16,
                    docs_posted(self.kv@, self.term_dictionary@, seg, builder@, di as int),
                    fields_posted(
                        self.kv@,
                        self.term_dictionary@,
                        seg,
                        doc.fields@,
                        ord,
                        fi as int,
                    ),
                    new_postings_from(
                        old(self).kv@,
                        self.kv@,
                        self.term_dictionary@,
                        seg,
                        builder@,
                        di as int + 1,
                    ),
                decreases doc.fields@.len() - fi,
            {
                let ft = &doc.fields[fi];
                let flen: u32 = if ft.tokens.len() >= 0xffff_ffff {
                    0xffff_ffff
                } else {
                    ft.tokens.len() as u32
                };
                let lk = len_key_exec(seg, ord, ft.field);
                let mut lv: Vec<u8> = Vec::new();
                push_be32(&mut lv, flen);
                proof {
                    assert(len_key(seg, ord, ft.field)[0] == 108);
                    lemma_put_other(self.kv@, self.term_dictionary@, lk@, lv@);
                    lemma_new_postings_other(
                        old(self).kv@,
                        self.kv@,
                        self.term_dictionary@,
                        seg,
                        builder@,
                        di as int + 1,
                        lk@,
                        lv@,
                    );
                    lemma_posted_monotone(
                        self.kv@,
                        self.term_dictionary@,
                        self.kv@.insert(lk@, lv@),
                        self.term_dictionary@,
                        seg,
                        builder@,
                        di as int,
                        doc.fields@,
                        ord,
                        fi as int,
                    );
                }
                self.kv.put(lk, lv);
                let mut ti: usize = 0;
                while ti < ft.tokens.len()
                    invariant
                        self.wf(),
                        count == builder@.len(),
                        builder.wf(),
                        seg == self.next_segment_id,
                        self.next_segment_id == old(self).next_segment_id,
                        self.next_segment_id < 0xffff_ffff,
                        self.doc_refs() == old(self).doc_refs(),
                        di < count as usize,
                        doc == &builder@[di as int],
                        ord == di as u16,
                        fi < doc.fields@.len(),
                        ft == &doc.fields@[fi as int],
                        docs_posted(self.kv@, self.term_dictionary@, seg, builder@, di as int),
                        fields_posted(
                            self.kv@,
                            self.term_dictionary@,
                            seg,
                            doc.fields@,
                            ord,
                            fi as int,
                        ),
                        forall|c: int|
                            0 <= c < ti ==> token_posted(
                                self.kv@,
                                self.term_dictionary@,
                                seg,
                                ft.field,
                                ord,
                                #[trigger] ft.tokens@[c].term,
                            ),
                        new_postings_from(
                            old(self).kv@,
                            self.kv@,
                            self.term_dictionary@,
                            seg,
                            builder@,
                            di as int + 1,
                        ),
                    decreases ft.tokens@.len() - ti,
                {
                    let enc = ft.tokens[ti].term.encode();
                    let mut dup = false;
                    let mut tj: usize = 0;
                    while tj < ti
                        invariant
                            0 <= tj <= ti,
                            ti < ft.tokens@.len(),
                            fi < doc.fields@.len(),
                            ft == &doc.fields@[fi as int],
                            enc@ == crate::term::term_bytes(ft.tokens@[ti as int].term),
                            dup ==> exists|t2: int|
                                0 <= t2 < ti && crate::term::term_bytes(
                                    #[trigger] ft.tokens@[t2].term,
                                ) == crate::term::term_bytes(ft.tokens@[ti as int].term),
                        decreases ti - tj,
                    {
                        let enc2 = ft.tokens[tj].term.encode();
                        if bytes_eq(&enc2, &enc) {
                            dup = true;
                            proof {
                                assert(crate::term::term_bytes(ft.tokens@[tj as int].term)
                                    == crate::term::term_bytes(ft.tokens@[ti as int].term));
                            }
                        }
                        tj = tj + 1;
                    }
                    if !dup {
                        let mut positions: Vec<u32> = Vec::new();
                        let mut tk: usize = ti;
                        while tk < ft.tokens.len()
                            invariant
                                ti <= tk <= ft.tokens@.len(),
                                fi < doc.fields@.len(),
                                ft == &doc.fields@[fi as int],
                            decreases ft.tokens@.len() - tk,
                        {
                            let enc3 = ft.tokens[tk].term.encode();
                            if bytes_eq(&enc3, &enc) {
                                positions.push(ft.tokens[tk].position);
                            }
                            tk = tk + 1;
                        }
                        if self.term_dictionary.next_ref_value() == 0xffff_ffff {
                            return Err(StorageError::RefSpace);
                        }
                        let ghost m0 = self.kv@;
                        let ghost d0 = self.term_dictionary@;
                        let tref = self.term_dictionary.get_or_create(
                            &mut self.kv,
                            &ft.tokens[ti].term,
                        );
                        proof {
                            let tb = crate::term::term_bytes(ft.tokens@[ti as int].term);
                            if d0.contains_key(tb) {
                                assert(self.term_dictionary@ =~= d0);
                                assert(dict_mirrored(self.kv@, self.term_dictionary@));
                                assert(postings_resolved(self.kv@, self.term_dictionary@));
                            } else {
                                lemma_put_created(m0, d0, tb, tref.ord);
                            }
                            assert(self.term_dictionary@.contains_key(tb)
                                && self.term_dictionary@[tb] == tref.ord);
                            assert forall|tb2: Seq<u8>| d0.contains_key(tb2) implies
                                #[trigger] self.term_dictionary@.contains_key(tb2)
                                && self.term_dictionary@[tb2] == d0[tb2] by {
                            }
                            if !d0.contains_key(tb) {
                                assert(next_ref_key()[0] == 46);
                                assert(term_key(tb)[0] == 116);
                                lemma_new_postings_other(
                                    old(self).kv@,
                                    m0,
                                    d0,
                                    seg,
                                    builder@,
                                    di as int + 1,
                                    next_ref_key(),
                                    dec_of((tref.ord + 1) as nat),
                                );
                                lemma_new_postings_other(
                                    old(self).kv@,
                                    m0.insert(next_ref_key(), dec_of((tref.ord + 1) as nat)),
                                    d0,
                                    seg,
                                    builder@,
                                    di as int + 1,
                                    term_key(tb),
                                    dec_of(tref.ord as nat),
                                );
                            }
                            lemma_new_postings_dict(
                                old(self).kv@,
                                self.kv@,
                                d0,
                                self.term_dictionary@,
                                seg,
                                builder@,
                                di as int + 1,
                            );
                            lemma_posted_monotone(
                                m0,
                                d0,
                                self.kv@,
                                self.term_dictionary@,
                                seg,
                                builder@,
                                di as int,
                                doc.fields@,
                                ord,
                                fi as int,
                            );
                            lemma_put_posting(
                                self.kv@,
                                self.term_dictionary@,
                                seg,
                                ft.field,
                                tref.ord,
                                ord,
                                enc_positions(positions@),
                            );
                        }
                        let pk = posting_key_exec(seg, ft.field, tref.ord(), ord);
                        let pv = enc_positions_exec(&positions);
                        let ghost m1 = self.kv@;
                        let ghost d1 = self.term_dictionary@;
                        self.kv.put(pk, pv);
                        proof {
                            assert forall|f: u32, t: u32, o: u16|
                                #![trigger posting_key(seg, f, t, o)]
                                self.kv@.contains_key(posting_key(seg, f, t, o)) && !old(
                                    self,
                                ).kv@.contains_key(posting_key(seg, f, t, o)) implies exists|
                                di2: int,
                                fi2: int,
                                ti2: int,
                            |
                                #![trigger builder@[di2].fields@[fi2].tokens@[ti2]]
                                0 <= di2 < di + 1 && di2 < builder@.len() && 0 <= fi2
                                    < builder@[di2].fields@.len() && 0 <= ti2
                                    < builder@[di2].fields@[fi2].tokens@.len()
                                    && builder@[di2].fields@[fi2].field == f && (di2 as u16) == o
                                    && self.term_dictionary@.contains_key(
                                    crate::term::term_bytes(
                                        builder@[di2].fields@[fi2].tokens@[ti2].term,
                                    ),
                                ) && self.term_dictionary@[crate::term::term_bytes(
                                    builder@[di2].fields@[fi2].tokens@[ti2].term,
                                )] == t by {
                                if posting_key(seg, f, t, o) == posting_key(
                                    seg,
                                    ft.field,
                                    tref.ord,
                                    ord,
                                ) {
                                    lemma_posting_key_parts(
                                        seg,
                                        f,
                                        t,
                                        o,
                                        seg,
                                        ft.field,
                                        tref.ord,
                                        ord,
                                    );
                                    assert(builder@[di as int].fields@[fi as int].tokens@[
                                        ti as int
                                    ].term == ft.tokens@[ti as int].term);
                                } else {
                                    assert(m1.contains_key(posting_key(seg, f, t, o)));
                                }
                            }
                            lemma_posted_monotone(
                                m1,
                                d1,
                                self.kv@,
                                self.term_dictionary@,
                                seg,
                                builder@,
                                di as int,
                                doc.fields@,
                                ord,
                                fi as int,
                            );
                            let tb = crate::term::term_bytes(ft.tokens@[ti as int].term);
                            assert(token_posted(
                                self.kv@,
                                self.term_dictionary@,
                                seg,
                                ft.field,
                                ord,
                                ft.tokens@[ti as int].term,
                            ));
                            assert forall|c: int| 0 <= c < ti + 1 implies token_posted(
                                self.kv@,
                                self.term_dictionary@,
                                seg,
                                ft.field,
                                ord,
                                #[trigger] ft.tokens@[c].term,
                            ) by {
                                if c < ti {
                                    let tbc = crate::term::term_bytes(ft.tokens@[c].term);
                                    assert(token_posted(m1, d1, seg, ft.field, ord,
                                        ft.tokens@[c].term));
                                    assert(d1.contains_key(tbc));
                                }
                            }
                        }
                    } else {
                        proof {
                            let t2 = choose|t2: int|
                                0 <= t2 < ti && crate::term::term_bytes(
                                    #[trigger] ft.tokens@[t2].term,
                                ) == crate::term::term_bytes(ft.tokens@[ti as int].term);
                            assert(token_posted(
                                self.kv@,
                                self.term_dictionary@,
                                seg,
                                ft.field,
                                ord,
                                ft.tokens@[t2].term,
                            ));
                            assert(token_posted(
                                self.kv@,
                                self.term_dictionary@,
                                seg,
                                ft.field,
                                ord,
                                ft.tokens@[ti as int].term,
                            ));
                        }
                    }
                    ti = ti + 1;
                }
                proof {
                    assert forall|b: int, c: int|
                        #![trigger doc.fields@[b].tokens@[c]]
                        0 <= b < fi + 1 && b < doc.fields@.len() && 0 <= c
                            < doc.fields@[b].tokens@.len() implies token_posted(
                        self.kv@,
                        self.term_dictionary@,
                        seg,
                        doc.fields@[b].field,
                        ord,
                        doc.fields@[b].tokens@[c].term,
                    ) by {
                        if b == fi {
                            assert(token_posted(
                                self.kv@,
                                self.term_dictionary@,
                                seg,
                                ft.field,
                                ord,
                                ft.tokens@[c].term,
                            ));
                        }
                    }
                }
                fi = fi + 1;
            }
            let mut si: usize = 0;
            while si < doc.stored.len()
                invariant
                    self.wf(),
                    count == builder@.len(),
                    builder.wf(),
                    seg == self.next_segment_id,
                    self.next_segment_id == old(self).next_segment_id,
                    self.next_segment_id < 0xffff_ffff,
                    self.doc_refs() == old(self).doc_refs(),
                    di < count as usize,
                    doc == &builder@[di as int],
                    ord == di as u16,
                    docs_posted(self.kv@, self.term_dictionary@, seg, builder@, di as int),
                    fields_posted(
                        self.kv@,
                        self.term_dictionary@,
                        seg,
                        doc.fields@,
                        ord,
                        doc.fields@.len() as int,
                    ),
                    new_postings_from(
                        old(self).kv@,
                        self.kv@,
                        self.term_dictionary@,
                        seg,
                        builder@,
                        di as int + 1,
                    ),
                decreases doc.stored@.len() - si,
            {
                let sf = &doc.stored[si];
                let sk = stored_key_exec(seg, ord, sf.field);
                let sv = crate::kvstore::clone_bytes(&sf.value);
                proof {
                    assert(stored_key(seg, ord, sf.field)[0] == 115);
                    lemma_put_other(self.kv@, self.term_dictionary@, sk@, sv@);
                    lemma_new_postings_other(
                        old(self).kv@,
                        self.kv@,
                        self.term_dictionary@,
                        seg,
                        builder@,
                        di as int + 1,
                        sk@,
                        sv@,
                    );
                    lemma_posted_monotone(
                        self.kv@,
                        self.term_dictionary@,
                        self.kv@.insert(sk@, sv@),
                        self.term_dictionary@,
                        seg,
                        builder@,
                        di as int,
                        doc.fields@,
                        ord,
                        doc.fields@.len() as int,
                    );
                }
                self.kv.put(sk, sv);
                si = si + 1;
            }
            proof {
                assert forall|a: int| 0 <= a < di + 1 && a < builder@.len() implies fields_posted(
                    self.kv@,
                    self.term_dictionary@,
                    seg,
                    #[trigger] builder@[a].fields@,
                    a as u16,
                    builder@[a].fields@.len() as int,
                ) by {
                    if a == di {
                        assert(fields_posted(
                            self.kv@,
                            self.term_dictionary@,
                            seg,
                            doc.fields@,
                            ord,
                            doc.fields@.len() as int,
                        ));
                    }
                }
            }
            di = di + 1;
        }
        let mut live = bm_new();
        let mut v: u32 = 0;
        proof {
            assert(bm_of(live) =~= Set::new(|x: u32| (x as int) < 0));
        }
        while v < count as u32
            invariant
                0 <= v <= count as u32,
                bm_of(live) == Set::new(|x: u32| (x as int) < v as int),
            decreases count as int - v,
        {
            bm_insert(&mut live, v);
            v = v + 1;
            proof {
                assert(bm_of(live) =~= Set::new(|x: u32| (x as int) < v as int));
            }
        }
        let lk = live_key_exec(seg);
        let ser = bm_serialize(&live);
        proof {
            assert(live_key(seg)[0] == 118);
            lemma_put_other(self.kv@, self.term_dictionary@, lk@, ser@);
            lemma_new_postings_other(
                old(self).kv@,
                self.kv@,
                self.term_dictionary@,
                seg,
                builder@,
                builder@.len() as int,
                lk@,
                ser@,
            );
            lemma_posted_monotone(
                self.kv@,
                self.term_dictionary@,
                self.kv@.insert(lk@, ser@),
                self.term_dictionary@,
                seg,
                builder@,
                builder@.len() as int,
                Seq::<FieldTokens>::empty(),
                0,
                0,
            );
        }
        self.kv.put(lk, ser);
        let nk = next_seg_key_exec();
        let nv = u32_to_dec(seg + 1);
        proof {
            assert(next_seg_key()[0] == 46);
            assert(live_key(seg)[0] == 118);
            assert(next_seg_key() != live_key(seg));
            lemma_put_other(self.kv@, self.term_dictionary@, nk@, nv@);
            lemma_new_postings_other(
                old(self).kv@,
                self.kv@,
                self.term_dictionary@,
                seg,
                builder@,
                builder@.len() as int,
                nk@,
                nv@,
            );
            lemma_posted_monotone(
                self.kv@,
                self.term_dictionary@,
                self.kv@.insert(nk@, nv@),
                self.term_dictionary@,
                seg,
                builder@,
                builder@.len() as int,
                Seq::<FieldTokens>::empty(),
                0,
                0,
            );
        }
        self.kv.put(nk, nv);
        self.next_segment_id = seg + 1;
        proof {
            assert(Set::new(|x: u32| (x as int) < count as int) =~= Set::new(
                |x: u32| (x as int) < builder@.len(),
            ));
        }
        Ok(seg)
    }

    /// Binds an external key to a document, clearing the live bit of the
    /// document the key pointed at before: at most one live document is ever
    /// reachable from a key.
    pub fn insert_or_replace_key(&mut self, key: &Vec<u8>, doc_ref: DocRef)
        requires
            old(self).wf(),
        ensures
            final(self).wf(),
            final(self).next_seg() == old(self).next_seg(),
            final(self).doc_refs() == old(self).doc_refs().insert(key@, doc_ref),
            final(self).kv_map().contains_key(doc_key(key@)),
            final(self).kv_map()[doc_key(key@)] == doc_ref_bytes(doc_ref),
            forall|s: Set<u32>|
                #![trigger bm_ser(s)]
                old(self).doc_refs().contains_key(key@) && old(self).kv_map().contains_key(
                    live_key(old(self).doc_refs()[key@].segment),
                ) && old(self).kv_map()[live_key(old(self).doc_refs()[key@].segment)] == bm_ser(s)
                    ==> final(self).kv_map().contains_key(
                    live_key(old(self).doc_refs()[key@].segment),
                ) && final(self).kv_map()[live_key(old(self).doc_refs()[key@].segment)] == bm_ser(
                    s.remove(old(self).doc_refs()[key@].ord as u32),
                ),
            forall|k: Seq<u8>|
                #![trigger old(self).kv_map()[k]]
                old(self).kv_map().contains_key(k) && k != doc_key(key@) && (!old(
                    self,
                ).doc_refs().contains_key(key@) || k != live_key(
                    old(self).doc_refs()[key@].segment,
                )) ==> final(self).kv_map().contains_key(k) && final(self).kv_map()[k] == old(
                    self,
                ).kv_map()[k],
    {
        proof {
            assert(next_ref_key()[0] == 46);
        }
        match self.doc_index.get(key) {
            Some(old_ref) => {
                let lk = live_key_exec(old_ref.segment);
                match self.kv.get(&lk) {
                    Some(lv) => {
                        match bm_deserialize(&lv) {
                            Some(mut bmv) => {
                                bm_remove(&mut bmv, old_ref.ord as u32);
                                let ser = bm_serialize(&bmv);
                                proof {
                                    assert(live_key(old_ref.segment)[0] == 118);
                                    assert(live_key(old_ref.segment) != next_ref_key());
                                    lemma_put_other(self.kv@, self.term_dictionary@, lk@, ser@);
                                }
                                self.kv.put(lk, ser);
                            },
                            None => {
                            },
                        }
                    },
                    None => {
                    },
                }
            },
            None => {
            },
        }
        let dk = doc_key_exec(key);
        let dv = Self::doc_ref_bytes_exec(doc_ref);
        proof {
            assert(doc_key(key@)[0] == 107);
            assert(doc_key(key@) != next_ref_key());
            lemma_put_other(self.kv@, self.term_dictionary@, dk@, dv@);
        }
        self.kv.put(dk, dv);
        let kc = crate::kvstore::clone_bytes(key);
        self.doc_index.insert(kc, doc_ref);
    }

    /// Whether an external key is bound to a live document.
    pub fn contains_document_key(&self, key: &Vec<u8>) -> (r: bool)
        requires
            self.wf(),
        ensures
            r == self.doc_refs().contains_key(key@),
    {
        match self.doc_index.get(key) {
            Some(_) => true,
            None => false,
        }
    }

    /// The document a key is bound to, if any.
    pub fn get_document_ref(&self, key: &Vec<u8>) -> (r: Option<DocRef>)
        requires
            self.wf(),
        ensures
            r is Some <==> self.doc_refs().contains_key(key@),
            r is Some ==> r.unwrap() == self.doc_refs()[key@],
    {
        self.doc_index.get(key)
    }

    /// Unbinds an external key — in memory and in the store — and clears
    /// its document's live bit. Deletion is logical: every key but the
    /// binding and the one live bitmap is untouched, posting data included.
    pub fn remove_document_by_key(&mut self, key: &Vec<u8>) -> (r: bool)
        requires
            old(self).wf(),
        ensures
            final(self).wf(),
            final(self).next_seg() == old(self).next_seg(),
            r == old(self).doc_refs().contains_key(key@),
            final(self).doc_refs() == old(self).doc_refs().remove(key@),
            r ==> !final(self).kv_map().contains_key(doc_key(key@)),
            !r ==> final(self).kv_map() == old(self).kv_map(),
            forall|s: Set<u32>|
                #![trigger bm_ser(s)]
                old(self).doc_refs().contains_key(key@) && old(self).kv_map().contains_key(
                    live_key(old(self).doc_refs()[key@].segment),
                ) && old(self).kv_map()[live_key(old(self).doc_refs()[key@].segment)] == bm_ser(s)
                    ==> final(self).kv_map().contains_key(
                    live_key(old(self).doc_refs()[key@].segment),
                ) && final(self).kv_map()[live_key(old(self).doc_refs()[key@].segment)] == bm_ser(
                    s.remove(old(self).doc_refs()[key@].ord as u32),
                ),
            forall|k: Seq<u8>|
                #![trigger old(self).kv_map()[k]]
                old(self).kv_map().contains_key(k) && k != doc_key(key@) && (!old(
                    self,
                ).doc_refs().contains_key(key@) || k != live_key(
                    old(self).doc_refs()[key@].segment,
                )) ==> final(self).kv_map().contains_key(k) && final(self).kv_map()[k] == old(
                    self,
                ).kv_map()[k],
    {
        proof {
            assert(next_ref_key()[0] == 46);
        }
        match self.doc_index.get(key) {
            Some(old_ref) => {
                let lk = live_key_exec(old_ref.segment);
                match self.kv.get(&lk) {
                    Some(lv) => {
                        match bm_deserialize(&lv) {
                            Some(mut bmv) => {
                                bm_remove(&mut bmv, old_ref.ord as u32);
                                let ser = bm_serialize(&bmv);
                                proof {
                                    assert(live_key(old_ref.segment)[0] == 118);
                                    assert(live_key(old_ref.segment) != next_ref_key());
                                    lemma_put_other(self.kv@, self.term_dictionary@, lk@, ser@);
                                }
                                self.kv.put(lk, ser);
                            },
                            None => {
                            },
                        }
                    },
                    None => {
                    },
                }
                let dk = doc_key_exec(key);
                proof {
                    assert(doc_key(key@)[0] == 107);
                    assert(doc_key(key@) != next_ref_key());
                    lemma_remove_other(self.kv@, self.term_dictionary@, dk@);
                }
                self.kv.delete(&dk);
                self.doc_index.remove(key);
                true
            },
            None => {
                proof {
                    assert(self.doc_refs().remove(key@) =~= self.doc_refs());
                }
                false
            },
        }
    }

    /// Reads one stored field of the document a key is bound to: the very
    /// bytes the store holds, exactly when the key is bound and the entry
    /// exists.
    pub fn get_stored_field(&self, key: &Vec<u8>, field: u32) -> (r: Option<Vec<u8>>)
        requires
            self.wf(),
        ensures
            r is Some <==> self.doc_refs().contains_key(key@) && self.kv_map().contains_key(
                stored_key(self.doc_refs()[key@].segment, self.doc_refs()[key@].ord, field),
            ),
            r is Some ==> r.unwrap()@ == self.kv_map()[stored_key(
                self.doc_refs()[key@].segment,
                self.doc_refs()[key@].ord,
                field,
            )],
    {
        match self.doc_index.get(key) {
            Some(dr) => {
                let sk = stored_key_exec(dr.segment, dr.ord, field);
                self.kv.get(&sk)
            },
            None => None,
        }
    }

    /// The live-docs bitmap of a segment, if the segment exists.
    pub fn live_docs(&self, seg: u32) -> (r: Option<roaring::RoaringBitmap>)
        requires
            self.wf(),
        ensures
            forall|s: Set<u32>|
                self.kv_map().contains_key(live_key(seg)) && self.kv_map()[live_key(seg)]
                    == bm_ser(s) ==> r is Some && bm_of(r.unwrap()) == s,
            r is Some ==> self.kv_map().contains_key(live_key(seg)),
    {
        let lk = live_key_exec(seg);
        match self.kv.get(&lk) {
            Some(v) => bm_deserialize(&v),
            None => None,
        }
    }

    /// The first segment identifier never issued yet.
    pub fn next_segment_id_value(&self) -> (r: u32)
        ensures
            r == self.next_seg(),
    {
        self.next_segment_id
    }

    /// The postings of one term in one field of one segment: each pair is a
    /// document ordinal and the term's frequency in that document's field,
    /// read from a posting key of this very segment, field and term.
    pub fn read_postings(&self, seg: u32, field: u32, tref: u32) -> (r: Vec<(u16, u32)>)
        requires
            self.wf(),
        ensures
            forall|i: int|
                0 <= i < r@.len() ==> self.kv_map().contains_key(
                    #[trigger] posting_key(seg, field, tref, r@[i].0),
                ),
            forall|ord: u16|
                self.kv_map().contains_key(#[trigger] posting_key(seg, field, tref, ord))
                    ==> exists|i: int| 0 <= i < r@.len() && r@[i].0 == ord,
            forall|i: int|
                0 <= i < r@.len() ==> #[trigger] r@[i].1 == tf_of(
                    self.kv_map()[posting_key(seg, field, tref, r@[i].0)],
                ),
    {
        let prefix = posting_prefix_exec(seg, field, tref);
        let entries = self.kv.iter_from(&prefix);
        let ghost es = entries@;
        let mut r: Vec<(u16, u32)> = Vec::new();
        let mut i: usize = 0;
        while i < entries.len()
            invariant
                0 <= i <= entries@.len(),
                es == entries@,
                forall|a: int|
                    0 <= a < entries@.len() ==> crate::lex::is_prefix_of(
                        posting_prefix(seg, field, tref),
                        #[trigger] entries@[a].0@,
                    ),
                forall|a: int|
                    0 <= a < entries@.len() ==> self.kv_map().contains_key(
                        #[trigger] entries@[a].0@,
                    ) && self.kv_map()[entries@[a].0@] == entries@[a].1@,
                forall|k: Seq<u8>|
                    self.kv_map().contains_key(k) && crate::lex::is_prefix_of(
                        posting_prefix(seg, field, tref),
                        k,
                    ) ==> exists|a: int| 0 <= a < entries@.len() && #[trigger] entries@[a].0@ == k,
                forall|x: int|
                    0 <= x < r@.len() ==> self.kv_map().contains_key(
                        #[trigger] posting_key(seg, field, tref, r@[x].0),
                    ),
                forall|x: int|
                    0 <= x < r@.len() ==> #[trigger] r@[x].1 == tf_of(
                        self.kv_map()[posting_key(seg, field, tref, r@[x].0)],
                    ),
                forall|a: int|
                    0 <= a < i && #[trigger] es[a].0@.len() == 15 ==> exists|x: int|
                        0 <= x < r@.len() && es[a].0@ == posting_key(seg, field, tref, r@[x].0),
            decreases entries@.len() - i,
        {
            let ghost rpre = r@;
            let klen = entries[i].0.len();
            if klen == 15 {
                let b0 = entries[i].0[13];
                let b1 = entries[i].0[14];
                let ord: u16 = ((b0 as u16) << 8) | (b1 as u16);
                let vlen = entries[i].1.len();
                let tf: u32 = if vlen / 4 >= 0xffff_ffff {
                    0xffff_ffff
                } else {
                    (vlen / 4) as u32
                };
                proof {
                    crate::keys::lemma_be16_pack(b0, b1);
                    let k = entries@[i as int].0@;
                    assert(crate::lex::is_prefix_of(posting_prefix(seg, field, tref), k));
                    assert(k.subrange(0, 13) == posting_prefix(seg, field, tref));
                    assert(k =~= posting_key(seg, field, tref, ord)) by {
                        assert forall|j: int| 0 <= j < 15 implies k[j] == posting_key(
                            seg,
                            field,
                            tref,
                            ord,
                        )[j] by {
                            if j < 13 {
                                assert(k.subrange(0, 13)[j] == k[j]);
                            } else {
                                assert(be16(ord) == seq![b0, b1]);
                            }
                        }
                    }
                }
                proof {
                    assert(self.kv@[entries@[i as int].0@] == entries@[i as int].1@);
                    assert(tf == tf_of(entries@[i as int].1@));
                }
                r.push((ord, tf));
                proof {
                    assert forall|a: int|
                        0 <= a < i + 1 && #[trigger] es[a].0@.len() == 15 implies exists|x: int|
                        0 <= x < r@.len() && es[a].0@ == posting_key(seg, field, tref, r@[x].0) by {
                        if a < i {
                            let x = choose|x: int|
                                0 <= x < rpre.len() && es[a].0@ == posting_key(
                                    seg,
                                    field,
                                    tref,
                                    rpre[x].0,
                                );
                            assert(r@[x] == rpre[x]);
                        } else {
                            assert(r@[rpre.len() as int].0 == ord);
                            assert(es[a].0@ == posting_key(seg, field, tref, ord));
                        }
                    }
                }
            }
            i = i + 1;
        }
        proof {
            assert forall|ord: u16|
                self.kv_map().contains_key(#[trigger] posting_key(seg, field, tref, ord)) implies
                exists|x: int| 0 <= x < r@.len() && r@[x].0 == ord by {
                let pk = posting_key(seg, field, tref, ord);
                assert(pk.subrange(0, 13) =~= posting_prefix(seg, field, tref));
                assert(crate::lex::is_prefix_of(posting_prefix(seg, field, tref), pk));
                let a = choose|a: int| 0 <= a < es.len() && #[trigger] es[a].0@ == pk;
                assert(es[a].0@.len() == 15);
                let x = choose|x: int|
                    0 <= x < r@.len() && es[a].0@ == posting_key(seg, field, tref, r@[x].0);
                assert(posting_key(seg, field, tref, r@[x].0) == pk);
                assert(be16(r@[x].0) =~= pk.subrange(13, 15));
                assert(be16(ord) =~= pk.subrange(13, 15));
                crate::keys::lemma_be16_injective(r@[x].0, ord);
            }
        }
        r
    }

    /// The length of one field of one document, as persisted; a missing or
    /// malformed entry counts as one.
    pub fn read_field_length(&self, seg: u32, ord: u16, field: u32) -> (r: u32)
        requires
            self.wf(),
        ensures
            self.kv_map().contains_key(len_key(seg, ord, field)) && self.kv_map()[len_key(
                seg,
                ord,
                field,
            )].len() == 4 ==> r == crate::keys::val32(self.kv_map()[len_key(seg, ord, field)]),
            !(self.kv_map().contains_key(len_key(seg, ord, field)) && self.kv_map()[len_key(
                seg,
                ord,
                field,
            )].len() == 4) ==> r == 1,
    {
        let lk = len_key_exec(seg, ord, field);
        match self.kv.get(&lk) {
            Some(v) => {
                if v.len() == 4 {
                    let r = crate::keys::read_be32(&v, 0);
                    proof {
                        assert(v@.subrange(0, 4) =~= v@);
                    }
                    r
                } else {
                    1
                }
            },
            None => 1,
        }
    }

    /// Reopens an index from its persisted state alone: the dictionary, the
    /// counters and the document-key index are rebuilt from the store, and
    /// every reference and binding the store holds is reported again.
    /// Whatever was only in memory — a pending segment builder — is gone.
    pub fn reopen(self) -> (r: IndexStore)
        requires
            self.wf(),
        ensures
            r.wf(),
            r.kv_map() == self.kv_map(),
            r.next_seg() >= 1,
            r.term_dictionary.next_ref() == self.term_dictionary.next_ref(),
            forall|tb: Seq<u8>, x: u32|
                #![trigger self.kv_map()[term_key(tb)], dec_of(x as nat)]
                self.kv_map().contains_key(term_key(tb)) && 1 <= x < u32::MAX && self.kv_map()[
                    term_key(tb)
                ] == dec_of(x as nat) ==> r.dict().contains_key(tb) && r.dict()[tb] == x,
            forall|tb: Seq<u8>|
                #![trigger self.dict()[tb]]
                self.dict().contains_key(tb) ==> r.dict().contains_key(tb) && r.dict()[tb]
                    == self.dict()[tb],
            forall|kb: Seq<u8>, dr: DocRef|
                #![trigger self.kv_map()[doc_key(kb)], doc_ref_bytes(dr)]
                self.kv_map().contains_key(doc_key(kb)) && self.kv_map()[doc_key(kb)]
                    == doc_ref_bytes(dr) ==> r.doc_refs().contains_key(kb) && r.doc_refs()[kb]
                    == dr,
    {
        let ghost old_dict = self.term_dictionary@;
        let ghost old_next = self.term_dictionary.next_ref();
        proof {
            self.term_dictionary.lemma_ref_bounds();
            assert(old_next >= 1);
            assert(crate::term_dictionary::t_entries_injective(self.kv@)) by {
                assert forall|tb1: Seq<u8>, tb2: Seq<u8>, x: u32|
                    #![trigger self.kv@[term_key(tb1)], self.kv@[term_key(tb2)], dec_of(x as nat)]
                    self.kv@.contains_key(term_key(tb1)) && self.kv@.contains_key(term_key(tb2))
                        && 1 <= x < u32::MAX && self.kv@[term_key(tb1)] == dec_of(x as nat)
                        && self.kv@[term_key(tb2)] == dec_of(x as nat) implies tb1 == tb2 by {
                    assert(valid_ref_bytes(self.kv@[term_key(tb1)]));
                    assert(valid_ref_bytes(self.kv@[term_key(tb2)]));
                    assert(old_dict.contains_key(tb1));
                    assert(old_dict.contains_key(tb2));
                    assert(self.kv@[term_key(tb1)] == dec_of(old_dict[tb1] as nat));
                    assert(self.kv@[term_key(tb2)] == dec_of(old_dict[tb2] as nat));
                    crate::term_dictionary::lemma_dec_of_injective(old_dict[tb1] as nat, x as nat);
                    crate::term_dictionary::lemma_dec_of_injective(old_dict[tb2] as nat, x as nat);
                }
            }
            assert(counter_consistent(self.kv@, old_next)) by {
                assert(self.kv@.contains_key(next_ref_key()));
                assert(self.kv@[next_ref_key()] == dec_of(old_next as nat));
                assert forall|tb: Seq<u8>, x: u32|
                    #![trigger self.kv@[term_key(tb)], dec_of(x as nat)]
                    self.kv@.contains_key(term_key(tb)) && 1 <= x < u32::MAX && self.kv@[term_key(
                        tb,
                    )] == dec_of(x as nat) implies x < old_next by {
                    assert(valid_ref_bytes(self.kv@[term_key(tb)]));
                    assert(old_dict.contains_key(tb));
                    assert(self.kv@[term_key(tb)] == dec_of(old_dict[tb] as nat));
                    crate::term_dictionary::lemma_dec_of_injective(x as nat, old_dict[tb] as nat);
                }
            }
        }
        let IndexStore { kv, term_dictionary: _, doc_index: _, next_segment_id: _ } = self;
        let term_dictionary = TermDictionaryManager::open(&kv);
        proof {
            assert(term_dictionary.next_ref() == old_next);
        }
        let nk = next_seg_key_exec();
        let mut next_segment_id: u32 = 1;
        match kv.get(&nk) {
            Some(v) => {
                match dec_to_u32(&v) {
                    Some(n) => {
                        if n >= 1 {
                            next_segment_id = n;
                        }
                    },
                    None => {
                    },
                }
            },
            None => {
            },
        }
        let mut doc_index: SortedMap<DocRef> = SortedMap::new();
        let mut kprefix: Vec<u8> = Vec::new();
        kprefix.push(107);
        let entries = kv.iter_from(&kprefix);
        let ghost es = entries@;
        proof {
            crate::kvstore::lemma_sorted_distinct(es);
        }
        let mut i: usize = 0;
        while i < entries.len()
            invariant
                0 <= i <= es.len(),
                es == entries@,
                doc_index.wf(),
                forall|a: int, b: int|
                    0 <= a < es.len() && 0 <= b < es.len() && a != b ==> #[trigger] es[a].0@
                        != #[trigger] es[b].0@,
                forall|a: int| 0 <= a < es.len() ==> crate::lex::is_prefix_of(
                    seq![107u8],
                    #[trigger] es[a].0@,
                ),
                forall|a: int|
                    0 <= a < es.len() ==> kv@.contains_key(#[trigger] es[a].0@) && kv@[es[a].0@]
                        == es[a].1@,
                forall|k: Seq<u8>|
                    kv@.contains_key(k) && crate::lex::is_prefix_of(seq![107u8], k) ==> exists|
                        a: int,
                    | 0 <= a < es.len() && #[trigger] es[a].0@ == k,
                forall|a: int|
                    0 <= a < i && #[trigger] es[a].1@.len() == 6 ==> doc_index@.contains_key(
                        es[a].0@.skip(1),
                    ) && doc_index@[es[a].0@.skip(1)] == doc_ref_of_bytes(es[a].1@),
            decreases es.len() - i,
        {
            let klen = entries[i].0.len();
            let vlen = entries[i].1.len();
            if vlen == 6 {
                let seg = crate::keys::read_be32(&entries[i].1, 0);
                let b0 = entries[i].1[4];
                let b1 = entries[i].1[5];
                let ord: u16 = ((b0 as u16) << 8) | (b1 as u16);
                let tail = crate::term_dictionary::strip_first(&entries[i].0);
                proof {
                    crate::keys::lemma_be16_pack(b0, b1);
                    assert(DocRef { segment: seg, ord } == doc_ref_of_bytes(es[i as int].1@));
                }
                doc_index.insert(tail, DocRef { segment: seg, ord });
                proof {
                    assert forall|a: int|
                        0 <= a < i + 1 && #[trigger] es[a].1@.len() == 6 implies doc_index@
                        .contains_key(es[a].0@.skip(1)) && doc_index@[es[a].0@.skip(1)]
                        == doc_ref_of_bytes(es[a].1@) by {
                        if a < i {
                            if es[a].0@.skip(1) == es[i as int].0@.skip(1) {
                                assert(es[a].0@.subrange(0, 1) =~= seq![107u8]);
                                assert(es[i as int].0@.subrange(0, 1) =~= seq![107u8]);
                                assert(es[a].0@.subrange(0, 1)[0] == es[a].0@[0]);
                                assert(es[i as int].0@.subrange(0, 1)[0] == es[i as int].0@[0]);
                                assert(es[a].0@[0] == 107);
                                assert(es[i as int].0@[0] == 107);
                                assert(es[a].0@.skip(1).len() == es[a].0@.len() - 1);
                                assert(es[i as int].0@.skip(1).len() == es[i as int].0@.len() - 1);
                                assert(es[a].0@.len() == es[i as int].0@.len());
                                assert forall|j: int| 0 <= j < es[a].0@.len() implies es[a].0@[j]
                                    == es[i as int].0@[j] by {
                                    if j > 0 {
                                        assert(es[a].0@.skip(1)[j - 1] == es[i as int].0@.skip(
                                            1,
                                        )[j - 1]);
                                    }
                                }
                                assert(es[a].0@ =~= es[i as int].0@);
                            }
                        }
                    }
                }
            }
            i = i + 1;
        }
        let r = IndexStore { kv, term_dictionary, doc_index, next_segment_id };
        proof {
            assert(dict_mirrored(r.kv@, r.term_dictionary@)) by {
                assert forall|tb: Seq<u8>| r.term_dictionary@.contains_key(tb) implies r.kv@
                    .contains_key(#[trigger] term_key(tb)) && r.kv@[term_key(tb)] == dec_of(
                    r.term_dictionary@[tb] as nat,
                ) && 1 <= r.term_dictionary@[tb] < u32::MAX by {
                    assert(valid_ref_bytes(r.kv@[term_key(tb)]));
                    let x = choose|x: u32|
                        1 <= x < u32::MAX && r.kv@[term_key(tb)] == dec_of(x as nat);
                    assert(r.term_dictionary@[tb] == x);
                }
            }
            assert forall|tb: Seq<u8>|
                #![trigger self.dict()[tb]]
                self.dict().contains_key(tb) implies r.term_dictionary@.contains_key(tb)
                && r.term_dictionary@[tb] == self.term_dictionary@[tb] by {
                assert(self.kv@.contains_key(term_key(tb)));
                assert(self.kv@[term_key(tb)] == dec_of(self.term_dictionary@[tb] as nat));
                assert(1 <= self.term_dictionary@[tb] < u32::MAX);
            }
            assert(postings_resolved(r.kv@, r.term_dictionary@)) by {
                assert forall|seg: u32, field: u32, tref: u32, ord: u16|
                    r.kv@.contains_key(#[trigger] posting_key(seg, field, tref, ord)) implies
                    exists|tb: Seq<u8>|
                    r.term_dictionary@.contains_key(tb) && r.term_dictionary@[tb] == tref by {
                    let tb = choose|tb: Seq<u8>|
                        old_dict.contains_key(tb) && old_dict[tb] == tref;
                    assert(r.kv@.contains_key(term_key(tb)));
                    assert(r.kv@[term_key(tb)] == dec_of(tref as nat));
                    assert(1 <= tref < u32::MAX);
                    assert(r.term_dictionary@.contains_key(tb) && r.term_dictionary@[tb] == tref);
                }
            }
            assert forall|kb: Seq<u8>, dr: DocRef|
                #![trigger self.kv_map()[doc_key(kb)], doc_ref_bytes(dr)]
                self.kv_map().contains_key(doc_key(kb)) && self.kv_map()[doc_key(kb)]
                    == doc_ref_bytes(dr) implies r.doc_refs().contains_key(kb) && r.doc_refs()[kb]
                == dr by {
                assert(doc_key(kb).subrange(0, 1) =~= seq![107u8]);
                assert(crate::lex::is_prefix_of(seq![107u8], doc_key(kb)));
                let a = choose|a: int| 0 <= a < es.len() && #[trigger] es[a].0@ == doc_key(kb);
                assert(es[a].1@.len() == 6) by {
                    assert(doc_ref_bytes(dr).len() == 6);
                }
                assert(es[a].0@.skip(1) =~= kb);
                assert(doc_ref_of_bytes(es[a].1@) == dr) by {
                    lemma_doc_ref_bytes_round(dr);
                }
            }
        }
        r
    }
}

/// Reading back the bytes of a document reference gives the reference.
proof fn lemma_doc_ref_bytes_round(dr: DocRef)
    ensures
        doc_ref_of_bytes(doc_ref_bytes(dr)) == dr,
{
    let b = doc_ref_bytes(dr);
    assert(b.subrange(0, 4) =~= be32(dr.segment));
    crate::keys::lemma_val32_be32(dr.segment);
    assert(b[4] == be16(dr.ord)[0]);
    assert(b[5] == be16(dr.ord)[1]);
    crate::keys::lemma_be16_pack(b[4], b[5]);
    crate::keys::lemma_be16_injective(((b[4] as u16) << 8) | (b[5] as u16), dr.ord);
}

} // verus!
