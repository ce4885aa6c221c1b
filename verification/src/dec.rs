//! ASCII decimal encoding of counters: the persisted form of term
//! references and of the next-reference and next-segment counters.

use vstd::prelude::*;
use crate::lex::bytes_eq;

verus! {

/// The ASCII decimal digits of `x`, most significant first.
pub open spec fn dec_of(x: nat) -> Seq<u8>
    decreases x,
{
    if x < 10 {
        seq![(48 + x) as u8]
    } else {
        dec_of(x / 10).push((48 + x % 10) as u8)
    }
}

/// The value of a digit string, most significant first.
pub open spec fn dec_val(b: Seq<u8>) -> int
    decreases b.len(),
{
    if b.len() == 0 {
        0
    } else {
        dec_val(b.drop_last()) * 10 + (b.last() - 48)
    }
}

/// Every byte is an ASCII digit.
pub open spec fn all_digits(b: Seq<u8>) -> bool {
    forall|i: int| 0 <= i < b.len() ==> 48 <= #[trigger] b[i] <= 57
}

/// The encoding of `x` is non-empty, all digits, has no leading zero unless
/// it is "0" itself, and evaluates back to `x`.
pub proof fn lemma_dec_of_canonical(x: nat)
    ensures
        dec_of(x).len() >= 1,
        all_digits(dec_of(x)),
        dec_of(x).len() > 1 ==> dec_of(x)[0] != 48,
        dec_val(dec_of(x)) == x,
    decreases x,
{
    if x < 10 {
        assert((48 + x) as u8 == 48 + x);
        let b = dec_of(x);
        assert(b =~= seq![(48 + x) as u8]);
        assert(b.len() == 1);
        assert(b.last() == (48 + x) as u8);
        assert(b.drop_last() =~= Seq::<u8>::empty());
        assert(dec_val(b.drop_last()) == 0);
        assert(dec_val(b) == dec_val(b.drop_last()) * 10 + (b.last() - 48));
        assert(dec_val(b) == x);
    } else {
        lemma_dec_of_canonical(x / 10);
        lemma_dec_of_len(x / 10);
        let b = dec_of(x);
        let h = dec_of(x / 10);
        assert(b =~= h.push((48 + x % 10) as u8));
        assert(b.drop_last() =~= h);
        assert(b[0] == h[0]);
        assert(x / 10 >= 1);
        if x / 10 < 10 {
            assert((48 + x / 10) as u8 == 48 + x / 10);
            assert(h =~= seq![(48 + x / 10) as u8]);
            assert(h[0] != 48);
        } else {
            assert(h.len() >= 2);
            assert(h[0] != 48);
        }
        assert(all_digits(b)) by {
            assert forall|i: int| 0 <= i < b.len() implies 48 <= #[trigger] b[i] <= 57 by {
                if i < h.len() {
                    assert(b[i] == h[i]);
                }
            }
        }
        assert(dec_val(b) == dec_val(h) * 10 + (x % 10));
        assert(dec_val(b) == x) by {
            assert(dec_val(h) == x / 10);
            assert((x / 10) * 10 + x % 10 == x) by (nonlinear_arith);
        }
    }
}

/// The encoding of `x` has one digit below ten and more above.
pub proof fn lemma_dec_of_len(x: nat)
    ensures
        dec_of(x).len() >= 1,
        x >= 10 ==> dec_of(x).len() >= 2,
    decreases x,
{
    if x >= 10 {
        lemma_dec_of_len(x / 10);
    }
}

/// A digit string is worth at least any of its front parts.
pub proof fn lemma_dec_val_prefix(b: Seq<u8>, j: int)
    requires
        all_digits(b),
        0 <= j <= b.len(),
    ensures
        0 <= dec_val(b.take(j)),
        dec_val(b.take(j)) <= dec_val(b),
    decreases b.len() - j,
{
    if j == b.len() {
        assert(b.take(j) =~= b);
        lemma_dec_val_nonneg(b);
    } else {
        lemma_dec_val_prefix(b, j + 1);
        assert(b.take(j + 1).drop_last() =~= b.take(j));
        assert(b.take(j + 1).last() == b[j]);
        assert(dec_val(b.take(j + 1)) == dec_val(b.take(j)) * 10 + (b[j] - 48));
        lemma_dec_val_nonneg(b.take(j));
        assert(dec_val(b.take(j)) <= dec_val(b.take(j)) * 10) by (nonlinear_arith)
            requires dec_val(b.take(j)) >= 0;
    }
}

/// The value of a digit string is never negative.
pub proof fn lemma_dec_val_nonneg(b: Seq<u8>)
    requires
        all_digits(b),
    ensures
        dec_val(b) >= 0,
    decreases b.len(),
{
    if b.len() > 0 {
        assert(all_digits(b.drop_last())) by {
            assert forall|i: int| 0 <= i < b.len() - 1 implies 48 <= #[trigger] b.drop_last()[i]
                <= 57 by {
                assert(b.drop_last()[i] == b[i]);
            }
        }
        lemma_dec_val_nonneg(b.drop_last());
        assert(dec_val(b.drop_last()) * 10 >= 0) by (nonlinear_arith)
            requires dec_val(b.drop_last()) >= 0;
    }
}

/// Writes `x` in ASCII decimal.
pub fn u32_to_dec(x: u32) -> (r: Vec<u8>)
    ensures
        r@ == dec_of(x as nat),
    decreases x,
{
    if x < 10 {
        let mut r: Vec<u8> = Vec::new();
        r.push(48 + x as u8);
        proof {
            assert(r@ =~= dec_of(x as nat));
        }
        r
    } else {
        let mut r = u32_to_dec(x / 10);
        r.push(48 + (x % 10) as u8);
        proof {
            assert(r@ =~= dec_of(x as nat));
        }
        r
    }
}

/// Writes a 64-bit value in ASCII decimal.
pub fn u64_to_dec(x: u64) -> (r: Vec<u8>)
    ensures
        r@ == dec_of(x as nat),
    decreases x,
{
    if x < 10 {
        let mut r: Vec<u8> = Vec::new();
        r.push(48 + x as u8);
        proof {
            assert(r@ =~= dec_of(x as nat));
        }
        r
    } else {
        let mut r = u64_to_dec(x / 10);
        r.push(48 + (x % 10) as u8);
        proof {
            assert(r@ =~= dec_of(x as nat));
        }
        r
    }
}

/// Reads a value from ASCII decimal. Returns the value exactly when the
/// bytes are the canonical decimal form of a 32-bit value.
pub fn dec_to_u32(b: &Vec<u8>) -> (r: Option<u32>)
    ensures
        r is Some <==> exists|x: u32| b@ == dec_of(x as nat),
        r is Some ==> b@ == dec_of(r.unwrap() as nat),
{
    proof {
        if exists|x: u32| b@ == dec_of(x as nat) {
            let x = choose|x: u32| b@ == dec_of(x as nat);
            lemma_dec_of_canonical(x as nat);
        }
    }
    if b.len() == 0 {
        return None;
    }
    if b.len() > 1 && b[0] == 48 {
        return None;
    }
    let mut acc: u32 = 0;
    let mut i: usize = 0;
    while i < b.len()
        invariant
            0 <= i <= b@.len(),
            b@.len() >= 1,
            all_digits(b@.take(i as int)),
            acc == dec_val(b@.take(i as int)),
        decreases b@.len() - i,
    {
        let d = b[i];
        proof {
            assert(b@.take(i as int + 1).drop_last() =~= b@.take(i as int));
            assert(b@.take(i as int + 1).last() == b@[i as int]);
        }
        if d < 48 || d > 57 {
            proof {
                if exists|x: u32| b@ == dec_of(x as nat) {
                    let x = choose|x: u32| b@ == dec_of(x as nat);
                    lemma_dec_of_canonical(x as nat);
                }
            }
            return None;
        }
        let dv: u32 = (d - 48) as u32;
        if acc > (u32::MAX - dv) / 10 {
            proof {
                assert(acc * 10 + dv > u32::MAX) by (nonlinear_arith)
                    requires acc > (u32::MAX - dv) / 10, dv <= 9, acc <= u32::MAX;
                if exists|x: u32| b@ == dec_of(x as nat) {
                    let x = choose|x: u32| b@ == dec_of(x as nat);
                    lemma_dec_of_canonical(x as nat);
                    lemma_dec_val_prefix(b@, i as int + 1);
                    assert(dec_val(b@.take(i as int + 1)) == acc * 10 + dv);
                }
            }
            return None;
        }
        proof {
            assert(acc * 10 + dv <= u32::MAX) by (nonlinear_arith)
                requires acc <= (u32::MAX - dv) / 10, dv <= 9;
        }
        acc = acc * 10 + dv;
        i = i + 1;
        proof {
            assert(all_digits(b@.take(i as int)));
        }
    }
    proof {
        assert(b@.take(i as int) =~= b@);
    }
    let enc = u32_to_dec(acc);
    if bytes_eq(&enc, b) {
        Some(acc)
    } else {
        proof {
            if exists|x: u32| b@ == dec_of(x as nat) {
                let x = choose|x: u32| b@ == dec_of(x as nat);
                lemma_dec_of_canonical(x as nat);
                assert(acc == dec_val(b@));
                assert(acc == x);
            }
        }
        None
    }
}

} // verus!
