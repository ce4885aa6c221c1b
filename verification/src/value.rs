//! The JSON model the parsers and the document preparer read: a plain tree
//! of values. A number that is not a 64-bit integer is carried as its
//! literal text.

use vstd::prelude::*;
use vstd::utf8::{encode_utf8, encode_utf8_decode_utf8};
use vstd::string::StrSliceExecFns;

verus! {

/// A JSON value.
#[derive(Debug, PartialEq)]
pub enum Value {
    Null,
    Boolean(bool),
    Str(String),
    I64(i64),
    FloatLit(String),
    Array(Vec<Value>),
    Object(Vec<(String, Value)>),
}

/// Compares a string with a literal by characters.
pub fn string_is(a: &String, b: &str) -> (r: bool)
    ensures
        r == (a@ == b@),
{
    let ab = a.as_str().as_bytes_vec();
    let bb = b.as_bytes_vec();
    let r = crate::lex::bytes_eq(&ab, &bb);
    proof {
        if ab@ == bb@ {
            encode_utf8_decode_utf8(a@);
            encode_utf8_decode_utf8(b@);
        }
    }
    r
}

/// The value under the first binding of a key, if any.
pub open spec fn obj_lookup(fields: Seq<(String, Value)>, k: Seq<char>) -> Option<Value>
    decreases fields.len(),
{
    if fields.len() == 0 {
        None
    } else if fields[0].0@ == k {
        Some(fields[0].1)
    } else {
        obj_lookup(fields.skip(1), k)
    }
}

impl Value {
    /// Reads the value bound to a key of an object; a missing key or a
    /// value of another shape yields nothing.
    pub fn get_key(&self, k: &str) -> (r: Option<&Value>)
        ensures
            match *self {
                Value::Object(fields) => (match r {
                    Some(v) => obj_lookup(fields@, k@) == Some(*v),
                    None => obj_lookup(fields@, k@) is None,
                }),
                _ => r is None,
            },
            r is Some ==> decreases_to!(*self => *r.unwrap()),
    {
        match self {
            Value::Object(fields) => {
                let mut i: usize = 0;
                proof {
                    assert(fields@.skip(0) =~= fields@);
                }
                while i < fields.len()
                    invariant
                        0 <= i <= fields@.len(),
                        *self is Object,
                        self->Object_0 == *fields,
                        obj_lookup(fields@, k@) == obj_lookup(fields@.skip(i as int), k@),
                    decreases fields@.len() - i,
                {
                    proof {
                        assert(fields@.skip(i as int)[0] == fields@[i as int]);
                        assert(fields@.skip(i as int).skip(1) =~= fields@.skip(i as int + 1));
                    }
                    if string_is(&fields[i].0, k) {
                        proof {
                            assert(self->Object_0 == *fields);
                            assert(decreases_to!(*self => self->Object_0));
                            assert(decreases_to!(*fields => fields@));
                            assert(decreases_to!(fields@ => fields@[i as int]));
                            assert(decreases_to!(fields@[i as int] => fields@[i as int].1));
                        }
                        return Some(&fields[i].1);
                    }
                    i = i + 1;
                }
                proof {
                    assert(fields@.skip(i as int) =~= Seq::<(String, Value)>::empty());
                }
                None
            },
            _ => None,
        }
    }

    /// How many keys an object holds; any other shape holds none.
    pub fn key_count(&self) -> (r: usize)
        ensures
            match *self {
                Value::Object(fields) => r == fields@.len(),
                _ => r == 0,
            },
    {
        match self {
            Value::Object(fields) => fields.len(),
            _ => 0,
        }
    }
}

} // verus!
