//! The live-docs bitmap, relied on from the `roaring` crate: a set of 32-bit
//! values with a portable serialized form. The set a bitmap holds is named
//! `bm_of`; its serialized bytes, a function of the set alone, `bm_ser`.

use vstd::prelude::*;
use roaring::RoaringBitmap;

verus! {

#[verifier::external_type_specification]
#[verifier::external_body]
pub struct ExRoaringBitmap(RoaringBitmap);

/// The set of values a bitmap holds.
pub uninterp spec fn bm_of(bm: RoaringBitmap) -> Set<u32>;

/// The portable serialized bytes of a set of values. The bytes are a
/// function of the set because every bitmap here is kept in the canonical
/// container form: `insert` and `remove` maintain it (`ensure_correct_store`
/// switches array and bitmap stores exactly at the cardinality bound), and
/// `bm_deserialize` restores it by removing run containers, which the
/// portable format may carry. `optimize`, which introduces run containers
/// and would change the bytes, must never be called on these bitmaps.
pub uninterp spec fn bm_ser(s: Set<u32>) -> Seq<u8>;

/// Relies on `RoaringBitmap::new`: an empty bitmap.
#[verifier::external_body]
pub fn bm_new() -> (r: RoaringBitmap)
    ensures
        bm_of(r) == Set::<u32>::empty(),
{
    RoaringBitmap::new()
}

/// Relies on `RoaringBitmap::insert`: adds one value.
#[verifier::external_body]
pub fn bm_insert(bm: &mut RoaringBitmap, value: u32)
    ensures
        bm_of(*final(bm)) == bm_of(*old(bm)).insert(value),
{
    bm.insert(value);
}

/// Relies on `RoaringBitmap::remove`: takes one value out.
#[verifier::external_body]
pub fn bm_remove(bm: &mut RoaringBitmap, value: u32)
    ensures
        bm_of(*final(bm)) == bm_of(*old(bm)).remove(value),
{
    bm.remove(value);
}

/// Relies on `RoaringBitmap::contains`.
#[verifier::external_body]
pub fn bm_contains(bm: &RoaringBitmap, value: u32) -> (r: bool)
    ensures
        r == bm_of(*bm).contains(value),
{
    bm.contains(value)
}

/// Relies on `RoaringBitmap::len`: how many values are held.
#[verifier::external_body]
pub fn bm_len(bm: &RoaringBitmap) -> (r: u64)
    ensures
        r == bm_of(*bm).len(),
{
    bm.len()
}

/// Relies on `RoaringBitmap::serialize_into`: the portable form, a function
/// of the held set alone; writing into a byte vector cannot fail.
#[verifier::external_body]
pub fn bm_serialize(bm: &RoaringBitmap) -> (r: Vec<u8>)
    ensures
        r@ == bm_ser(bm_of(*bm)),
{
    let mut out: Vec<u8> = Vec::new();
    match bm.serialize_into(&mut out) {
        Ok(()) => out,
        Err(_) => Vec::new(),
    }
}

/// Relies on `RoaringBitmap::deserialize_from` and
/// `remove_run_compression`: reads the portable form back and restores the
/// canonical container form, so the held set is recovered and the bitmap
/// serializes canonically again; bytes written by `serialize_into` give
/// back the set they came from.
#[verifier::external_body]
pub fn bm_deserialize(b: &Vec<u8>) -> (r: Option<RoaringBitmap>)
    ensures
        forall|s: Set<u32>| b@ == bm_ser(s) ==> r is Some && bm_of(r.unwrap()) == s,
{
    match RoaringBitmap::deserialize_from(&b[..]) {
        Ok(mut bm) => {
            bm.remove_run_compression();
            Some(bm)
        },
        Err(_) => None,
    }
}

} // verus!
