//! Terms, term references and tokens: the atomic values of the index.
//!
//! A term is a typed atomic value. Its canonical byte encoding — a tag byte
//! followed by an order-preserving payload — is the key of the term
//! dictionary, and the lexicographic order of these encodings is the
//! canonical term order.

use vstd::prelude::*;
use vstd::utf8::encode_utf8;
use vstd::string::StrSliceExecFns;

verus! {

/// Tag byte of a string term.
pub const TAG_STRING: u8 = 1;

/// Tag byte of a signed 64-bit integer term.
pub const TAG_INTEGER: u8 = 2;

/// Tag byte of a boolean term.
pub const TAG_BOOLEAN: u8 = 3;

/// Tag byte of a datetime term (epoch nanoseconds).
pub const TAG_DATETIME: u8 = 4;

/// A typed atomic value comparable by its canonical byte encoding.
#[derive(Debug, Clone)]
pub enum Term {
    Str(String),
    I64(i64),
    Bool(bool),
    DateTime(i64),
}

/// The big-endian bytes of a 64-bit value.
pub open spec fn be64(x: u64) -> Seq<u8> {
    seq![
        (x >> 56) as u8,
        ((x >> 48) & 0xff) as u8,
        ((x >> 40) & 0xff) as u8,
        ((x >> 32) & 0xff) as u8,
        ((x >> 24) & 0xff) as u8,
        ((x >> 16) & 0xff) as u8,
        ((x >> 8) & 0xff) as u8,
        (x & 0xff) as u8,
    ]
}

/// A signed value mapped to an unsigned one with the sign bit flipped, so
/// that unsigned order matches signed order.
pub open spec fn sign_flip(v: i64) -> u64 {
    (v as u64) ^ 0x8000_0000_0000_0000
}

/// The canonical byte encoding of a term: tag byte, then the payload.
pub open spec fn term_bytes(t: Term) -> Seq<u8> {
    match t {
        Term::Str(s) => seq![TAG_STRING] + encode_utf8(s@),
        Term::I64(v) => seq![TAG_INTEGER] + be64(sign_flip(v)),
        Term::Bool(b) => seq![TAG_BOOLEAN, if b { 1u8 } else { 0u8 }],
        Term::DateTime(v) => seq![TAG_DATETIME] + be64(sign_flip(v)),
    }
}

/// Appends the big-endian bytes of `x`.
fn push_be64(out: &mut Vec<u8>, x: u64)
    ensures
        final(out)@ == old(out)@ + be64(x),
{
    let ghost pre = out@;
    assert((x >> 56) <= 0xff) by (bit_vector);
    assert(((x >> 48) & 0xff) <= 0xff) by (bit_vector);
    assert(((x >> 40) & 0xff) <= 0xff) by (bit_vector);
    assert(((x >> 32) & 0xff) <= 0xff) by (bit_vector);
    assert(((x >> 24) & 0xff) <= 0xff) by (bit_vector);
    assert(((x >> 16) & 0xff) <= 0xff) by (bit_vector);
    assert(((x >> 8) & 0xff) <= 0xff) by (bit_vector);
    assert((x & 0xff) <= 0xff) by (bit_vector);
    out.push((x >> 56) as u8);
    out.push(((x >> 48) & 0xff) as u8);
    out.push(((x >> 40) & 0xff) as u8);
    out.push(((x >> 32) & 0xff) as u8);
    out.push(((x >> 24) & 0xff) as u8);
    out.push(((x >> 16) & 0xff) as u8);
    out.push(((x >> 8) & 0xff) as u8);
    out.push((x & 0xff) as u8);
    proof {
        assert(out@ =~= pre + be64(x));
    }
}

impl Term {
    /// A string term.
    pub fn from_string(s: String) -> (t: Term)
        ensures
            t == Term::Str(s),
    {
        Term::Str(s)
    }

    /// The canonical byte encoding of this term.
    pub fn encode(&self) -> (r: Vec<u8>)
        ensures
            r@ == term_bytes(*self),
    {
        let mut out: Vec<u8> = Vec::new();
        match self {
            Term::Str(s) => {
                out.push(TAG_STRING);
                let bytes = s.as_str().as_bytes();
                out.extend_from_slice(bytes);
                proof {
                    assert(out@ =~= term_bytes(*self));
                }
            },
            Term::I64(v) => {
                out.push(TAG_INTEGER);
                push_be64(&mut out, (*v as u64) ^ 0x8000_0000_0000_0000);
                proof {
                    assert(out@ =~= term_bytes(*self));
                }
            },
            Term::Bool(b) => {
                out.push(TAG_BOOLEAN);
                out.push(if *b { 1u8 } else { 0u8 });
                proof {
                    assert(out@ =~= term_bytes(*self));
                }
            },
            Term::DateTime(v) => {
                out.push(TAG_DATETIME);
                push_be64(&mut out, (*v as u64) ^ 0x8000_0000_0000_0000);
                proof {
                    assert(out@ =~= term_bytes(*self));
                }
            },
        }
        out
    }
}

impl PartialEq for Term {
    fn eq(&self, other: &Term) -> (r: bool) {
        match (self, other) {
            (Term::Str(a), Term::Str(b)) => *a == *b,
            (Term::I64(a), Term::I64(b)) => *a == *b,
            (Term::Bool(a), Term::Bool(b)) => *a == *b,
            (Term::DateTime(a), Term::DateTime(b)) => *a == *b,
            _ => false,
        }
    }
}

/// Term equality at the specification level: same variant, same value;
/// strings are compared by their character sequences.
pub open spec fn term_eq(a: Term, b: Term) -> bool {
    match (a, b) {
        (Term::Str(x), Term::Str(y)) => x@ == y@,
        (Term::I64(x), Term::I64(y)) => x == y,
        (Term::Bool(x), Term::Bool(y)) => x == y,
        (Term::DateTime(x), Term::DateTime(y)) => x == y,
        _ => false,
    }
}

impl vstd::std_specs::cmp::PartialEqSpecImpl for Term {
    open spec fn obeys_eq_spec() -> bool {
        true
    }

    open spec fn eq_spec(&self, other: &Term) -> bool {
        term_eq(*self, *other)
    }
}

impl Eq for Term {

}

/// A non-zero 32-bit handle to a term, unique for the life of an index and
/// issued in ascending order. Zero is reserved and never issued.
#[derive(Debug, Clone, Copy, PartialEq, Eq, Structural, Hash)]
pub struct TermRef {
    pub ord: u32,
}

impl TermRef {
    /// Wraps a raw handle value.
    pub fn new(ord: u32) -> (r: TermRef)
        ensures
            r.ord == ord,
    {
        TermRef { ord }
    }

    /// The raw handle value.
    pub fn ord(&self) -> (r: u32)
        ensures
            r == self.ord,
    {
        self.ord
    }

    /// A handle is valid when it is non-zero.
    pub open spec fn valid(self) -> bool {
        self.ord >= 1
    }

    /// The raw handle value, for specifications.
    pub open spec fn spec_ord(self) -> u32 {
        self.ord
    }
}

/// An analyzed unit: a term together with its position in the source field.
/// Positions start at 1; every n-gram of a word carries the word's position.
#[derive(Debug, Clone)]
pub struct Token {
    pub term: Term,
    pub position: u32,
}

impl PartialEq for Token {
    fn eq(&self, other: &Token) -> (r: bool) {
        self.term == other.term && self.position == other.position
    }
}

impl vstd::std_specs::cmp::PartialEqSpecImpl for Token {
    open spec fn obeys_eq_spec() -> bool {
        true
    }

    open spec fn eq_spec(&self, other: &Token) -> bool {
        term_eq(self.term, other.term) && self.position == other.position
    }
}

impl Eq for Token {

}

} // verus!
