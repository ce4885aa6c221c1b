//! The key layout of the store. Reserved prefixes: `.` metadata, `t` term
//! dictionary, `k` document keys, `p` postings, `d` document frequencies,
//! `l` field lengths, `s` stored fields, `v` live-docs. Numbers inside keys
//! are fixed-width big-endian, so key order follows numeric order; a posting
//! key carries segment, field, term reference and ordinal, one key per
//! posting, and its value holds the positions.

use vstd::prelude::*;

verus! {

/// The big-endian bytes of a 32-bit value.
pub open spec fn be32(x: u32) -> Seq<u8> {
    seq![
        (x >> 24) as u8,
        ((x >> 16) & 0xff) as u8,
        ((x >> 8) & 0xff) as u8,
        (x & 0xff) as u8,
    ]
}

/// The big-endian bytes of a 16-bit value.
pub open spec fn be16(x: u16) -> Seq<u8> {
    seq![(x >> 8) as u8, (x & 0xff) as u8]
}

/// The 32-bit value of four big-endian bytes.
pub open spec fn val32(b: Seq<u8>) -> u32
    recommends
        b.len() == 4,
{
    ((b[0] as u32) << 24) | ((b[1] as u32) << 16) | ((b[2] as u32) << 8) | (b[3] as u32)
}

/// Reading back the bytes of a value gives the value.
pub proof fn lemma_val32_be32(x: u32)
    ensures
        val32(be32(x)) == x,
{
    let b = be32(x);
    assert(b[0] == (x >> 24) as u8);
    assert(b[1] == ((x >> 16) & 0xff) as u8);
    assert(b[2] == ((x >> 8) & 0xff) as u8);
    assert(b[3] == (x & 0xff) as u8);
    assert(((((x >> 24) as u8) as u32) << 24) | (((((x >> 16) & 0xff) as u8) as u32) << 16) | ((((
    (x >> 8) & 0xff) as u8) as u32) << 8) | (((x & 0xff) as u8) as u32) == x) by (bit_vector);
}

/// Appends the big-endian bytes of a 32-bit value.
pub fn push_be32(out: &mut Vec<u8>, x: u32)
    ensures
        final(out)@ == old(out)@ + be32(x),
{
    let ghost pre = out@;
    assert((x >> 24) <= 0xff) by (bit_vector);
    assert(((x >> 16) & 0xff) <= 0xff) by (bit_vector);
    assert(((x >> 8) & 0xff) <= 0xff) by (bit_vector);
    assert((x & 0xff) <= 0xff) by (bit_vector);
    out.push((x >> 24) as u8);
    out.push(((x >> 16) & 0xff) as u8);
    out.push(((x >> 8) & 0xff) as u8);
    out.push((x & 0xff) as u8);
    proof {
        assert(out@ =~= pre + be32(x));
    }
}

/// Appends the big-endian bytes of a 16-bit value.
pub fn push_be16(out: &mut Vec<u8>, x: u16)
    ensures
        final(out)@ == old(out)@ + be16(x),
{
    let ghost pre = out@;
    assert((x >> 8) <= 0xff) by (bit_vector);
    assert((x & 0xff) <= 0xff) by (bit_vector);
    out.push((x >> 8) as u8);
    out.push((x & 0xff) as u8);
    proof {
        assert(out@ =~= pre + be16(x));
    }
}

/// Reads the 32-bit value at an offset of a byte string.
pub fn read_be32(b: &Vec<u8>, at: usize) -> (r: u32)
    requires
        at + 4 <= b@.len(),
    ensures
        r == val32(b@.subrange(at as int, at as int + 4)),
{
    let n = b.len();
    let b0 = b[at] as u32;
    let b1 = b[at + 1] as u32;
    let b2 = b[at + 2] as u32;
    let b3 = b[at + 3] as u32;
    let r = (b0 << 24) | (b1 << 16) | (b2 << 8) | b3;
    proof {
        let sub = b@.subrange(at as int, at as int + 4);
        assert(sub[0] == b@[at as int]);
        assert(sub[1] == b@[at as int + 1]);
        assert(sub[2] == b@[at as int + 2]);
        assert(sub[3] == b@[at as int + 3]);
    }
    r
}

/// The posting key of one posting: `p`, segment, field, term reference,
/// ordinal.
pub open spec fn posting_key(seg: u32, field: u32, tref: u32, ord: u16) -> Seq<u8> {
    seq![112u8] + be32(seg) + be32(field) + be32(tref) + be16(ord)
}

/// The prefix of every posting key of one term in one field of one segment.
pub open spec fn posting_prefix(seg: u32, field: u32, tref: u32) -> Seq<u8> {
    seq![112u8] + be32(seg) + be32(field) + be32(tref)
}

/// The document-frequency key of one term in one field of one segment.
pub open spec fn df_key(seg: u32, field: u32, tref: u32) -> Seq<u8> {
    seq![100u8] + be32(seg) + be32(field) + be32(tref)
}

/// The field-length key of one field of one document.
pub open spec fn len_key(seg: u32, ord: u16, field: u32) -> Seq<u8> {
    seq![108u8] + be32(seg) + be16(ord) + be32(field)
}

/// The stored-field key of one field of one document.
pub open spec fn stored_key(seg: u32, ord: u16, field: u32) -> Seq<u8> {
    seq![115u8] + be32(seg) + be16(ord) + be32(field)
}

/// The live-docs key of one segment.
pub open spec fn live_key(seg: u32) -> Seq<u8> {
    seq![118u8] + be32(seg)
}

/// The document-key-index key of one external document key.
pub open spec fn doc_key(k: Seq<u8>) -> Seq<u8> {
    seq![107u8] + k
}

/// The key of the next-segment counter: the bytes of `.next_segment_id`.
pub open spec fn next_seg_key() -> Seq<u8> {
    seq![46u8, 110, 101, 120, 116, 95, 115, 101, 103, 109, 101, 110, 116, 95, 105, 100]
}

/// Builds a posting key.
pub fn posting_key_exec(seg: u32, field: u32, tref: u32, ord: u16) -> (r: Vec<u8>)
    ensures
        r@ == posting_key(seg, field, tref, ord),
{
    let mut r: Vec<u8> = Vec::new();
    r.push(112);
    push_be32(&mut r, seg);
    push_be32(&mut r, field);
    push_be32(&mut r, tref);
    push_be16(&mut r, ord);
    proof {
        assert(r@ =~= posting_key(seg, field, tref, ord));
    }
    r
}

/// Builds the shared prefix of a term's posting keys.
pub fn posting_prefix_exec(seg: u32, field: u32, tref: u32) -> (r: Vec<u8>)
    ensures
        r@ == posting_prefix(seg, field, tref),
{
    let mut r: Vec<u8> = Vec::new();
    r.push(112);
    push_be32(&mut r, seg);
    push_be32(&mut r, field);
    push_be32(&mut r, tref);
    proof {
        assert(r@ =~= posting_prefix(seg, field, tref));
    }
    r
}

/// Builds a document-frequency key.
pub fn df_key_exec(seg: u32, field: u32, tref: u32) -> (r: Vec<u8>)
    ensures
        r@ == df_key(seg, field, tref),
{
    let mut r: Vec<u8> = Vec::new();
    r.push(100);
    push_be32(&mut r, seg);
    push_be32(&mut r, field);
    push_be32(&mut r, tref);
    proof {
        assert(r@ =~= df_key(seg, field, tref));
    }
    r
}

/// Builds a field-length key.
pub fn len_key_exec(seg: u32, ord: u16, field: u32) -> (r: Vec<u8>)
    ensures
        r@ == len_key(seg, ord, field),
{
    let mut r: Vec<u8> = Vec::new();
    r.push(108);
    push_be32(&mut r, seg);
    push_be16(&mut r, ord);
    push_be32(&mut r, field);
    proof {
        assert(r@ =~= len_key(seg, ord, field));
    }
    r
}

/// Builds a stored-field key.
pub fn stored_key_exec(seg: u32, ord: u16, field: u32) -> (r: Vec<u8>)
    ensures
        r@ == stored_key(seg, ord, field),
{
    let mut r: Vec<u8> = Vec::new();
    r.push(115);
    push_be32(&mut r, seg);
    push_be16(&mut r, ord);
    push_be32(&mut r, field);
    proof {
        assert(r@ =~= stored_key(seg, ord, field));
    }
    r
}

/// Builds a live-docs key.
pub fn live_key_exec(seg: u32) -> (r: Vec<u8>)
    ensures
        r@ == live_key(seg),
{
    let mut r: Vec<u8> = Vec::new();
    r.push(118);
    push_be32(&mut r, seg);
    proof {
        assert(r@ =~= live_key(seg));
    }
    r
}

/// Builds a document-key-index key.
pub fn doc_key_exec(k: &Vec<u8>) -> (r: Vec<u8>)
    ensures
        r@ == doc_key(k@),
{
    let mut r: Vec<u8> = Vec::new();
    r.push(107);
    r.extend_from_slice(k.as_slice());
    proof {
        assert(r@ =~= doc_key(k@));
    }
    r
}

/// Builds the next-segment counter key.
pub fn next_seg_key_exec() -> (r: Vec<u8>)
    ensures
        r@ == next_seg_key(),
{
    let r: Vec<u8> = vec![
        46u8,
        110,
        101,
        120,
        116,
        95,
        115,
        101,
        103,
        109,
        101,
        110,
        116,
        95,
        105,
        100,
    ];
    proof {
        assert(r@ =~= next_seg_key());
    }
    r
}

/// Two bytes are the encoding of the value they pack.
pub proof fn lemma_be16_pack(b0: u8, b1: u8)
    ensures
        be16(((b0 as u16) << 8) | (b1 as u16)) == seq![b0, b1],
{
    assert(((((b0 as u16) << 8) | (b1 as u16)) >> 8) as u8 == b0) by (bit_vector);
    assert(((((b0 as u16) << 8) | (b1 as u16)) & 0xff) as u8 == b1) by (bit_vector);
    assert(be16(((b0 as u16) << 8) | (b1 as u16)) =~= seq![b0, b1]);
}

/// Equal two-byte encodings come from equal values.
pub proof fn lemma_be16_injective(a: u16, b: u16)
    requires
        be16(a) == be16(b),
    ensures
        a == b,
{
    assert(be16(a)[0] == be16(b)[0]);
    assert(be16(a)[1] == be16(b)[1]);
    assert((a >> 8) as u8 == (b >> 8) as u8 && (a & 0xff) as u8 == (b & 0xff) as u8 ==> a == b)
        by (bit_vector);
}

/// The positions of one posting, each as four big-endian bytes.
pub open spec fn enc_positions(qs: Seq<u32>) -> Seq<u8>
    decreases qs.len(),
{
    if qs.len() == 0 {
        Seq::empty()
    } else {
        be32(qs[0]) + enc_positions(qs.skip(1))
    }
}

/// Encodes a positions list.
pub fn enc_positions_exec(qs: &Vec<u32>) -> (r: Vec<u8>)
    ensures
        r@ == enc_positions(qs@),
{
    let ghost total = enc_positions(qs@);
    let mut r: Vec<u8> = Vec::new();
    let mut i: usize = 0;
    proof {
        assert(qs@.skip(0) =~= qs@);
    }
    while i < qs.len()
        invariant
            0 <= i <= qs@.len(),
            total == enc_positions(qs@),
            r@ + enc_positions(qs@.skip(i as int)) =~= total,
        decreases qs@.len() - i,
    {
        let ghost pre = r@;
        push_be32(&mut r, qs[i]);
        proof {
            assert(qs@.skip(i as int)[0] == qs@[i as int]);
            assert(qs@.skip(i as int).skip(1) =~= qs@.skip(i as int + 1));
            assert(enc_positions(qs@.skip(i as int)) == be32(qs@[i as int]) + enc_positions(
                qs@.skip(i as int + 1),
            ));
            assert(r@ + enc_positions(qs@.skip(i as int + 1)) =~= total);
        }
        i = i + 1;
    }
    proof {
        assert(enc_positions(qs@.skip(i as int)) =~= Seq::<u8>::empty());
        assert(r@ =~= total);
    }
    r
}

/// Decodes a positions list: the byte length must be a multiple of four.
pub fn dec_positions_exec(b: &Vec<u8>) -> (r: Option<Vec<u32>>)
    ensures
        r is Some ==> enc_positions(r.unwrap()@) == b@,
        b@.len() % 4 == 0 ==> r is Some,
        r is Some ==> r.unwrap()@.len() * 4 == b@.len(),
{
    let n = b.len();
    if n % 4 != 0 {
        return None;
    }
    let mut r: Vec<u32> = Vec::new();
    let mut i: usize = 0;
    while i < n
        invariant
            0 <= i <= n,
            n == b@.len(),
            i % 4 == 0,
            n % 4 == 0,
            r@.len() * 4 == i,
            enc_positions(r@) =~= b@.subrange(0, i as int),
        decreases n - i,
    {
        let v = read_be32(b, i);
        let ghost pre = r@;
        r.push(v);
        proof {
            lemma_enc_positions_snoc(pre, v);
            let sub = b@.subrange(i as int, i as int + 4);
            assert(val32(sub) == v);
            lemma_be32_of_val(sub);
            assert(be32(v) =~= sub);
            assert(enc_positions(r@) =~= b@.subrange(0, i as int + 4));
        }
        i = i + 4;
    }
    proof {
        assert(b@.subrange(0, n as int) =~= b@);
    }
    Some(r)
}

/// Appending one position appends its four bytes.
pub proof fn lemma_enc_positions_snoc(qs: Seq<u32>, v: u32)
    ensures
        enc_positions(qs.push(v)) == enc_positions(qs) + be32(v),
    decreases qs.len(),
{
    if qs.len() == 0 {
        assert(qs.push(v)[0] == v);
        assert(qs.push(v).skip(1) =~= Seq::<u32>::empty());
        assert(enc_positions(qs.push(v)) == be32(qs.push(v)[0]) + enc_positions(
            qs.push(v).skip(1),
        ));
        assert(enc_positions(Seq::<u32>::empty()) =~= Seq::<u8>::empty());
        assert(enc_positions(qs.push(v)) =~= be32(v));
        assert(enc_positions(qs) + be32(v) =~= be32(v));
    } else {
        assert(qs.push(v)[0] == qs[0]);
        assert(qs.push(v).skip(1) =~= qs.skip(1).push(v));
        lemma_enc_positions_snoc(qs.skip(1), v);
        assert(enc_positions(qs.push(v)) =~= enc_positions(qs) + be32(v));
    }
}

/// Four bytes are the encoding of their value.
pub proof fn lemma_be32_of_val(b: Seq<u8>)
    requires
        b.len() == 4,
    ensures
        be32(val32(b)) == b,
{
    let b0 = b[0];
    let b1 = b[1];
    let b2 = b[2];
    let b3 = b[3];
    let x = val32(b);
    assert(x == ((b0 as u32) << 24) | ((b1 as u32) << 16) | ((b2 as u32) << 8) | (b3 as u32));
    assert(((((b0 as u32) << 24) | ((b1 as u32) << 16) | ((b2 as u32) << 8) | (b3 as u32)) >> 24)
        as u8 == b0) by (bit_vector);
    assert((((((b0 as u32) << 24) | ((b1 as u32) << 16) | ((b2 as u32) << 8) | (b3 as u32)) >> 16)
        & 0xff) as u8 == b1) by (bit_vector);
    assert((((((b0 as u32) << 24) | ((b1 as u32) << 16) | ((b2 as u32) << 8) | (b3 as u32)) >> 8)
        & 0xff) as u8 == b2) by (bit_vector);
    assert(((((b0 as u32) << 24) | ((b1 as u32) << 16) | ((b2 as u32) << 8) | (b3 as u32)) & 0xff)
        as u8 == b3) by (bit_vector);
    assert(be32(x) =~= b);
}

} // verus!
