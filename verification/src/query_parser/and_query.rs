//! Parses conjunction queries: an array of queries that must all hold.

use vstd::prelude::*;
use crate::value::Value;
use crate::query::Query;
use crate::query_parser::{QueryParseContext, QueryParseError, parse as parse_query,
    spec_term_object};

verus! {

/// Parses an array of queries into their normalized conjunction: one query
/// per element, in element order; an empty array is everything, a single
/// element stands alone; anything but an array is refused. A failing
/// element fails the whole parse.
pub fn parse(context: &QueryParseContext, json: &Value) -> (r: Result<Query, QueryParseError>)
    ensures
        !(json is Array) ==> r == Err::<Query, QueryParseError>(QueryParseError::ExpectedArray),
        json matches Value::Array(items) ==> (items@.len() == 0 ==> r == Ok::<
            Query,
            QueryParseError,
        >(Query::MatchAll)),
        json matches Value::Array(items) ==> (items@.len() == 1 ==> (spec_term_object(items@[0])
            matches Some(q) ==> r == Ok::<Query, QueryParseError>(q))),
        json matches Value::Array(items) ==> (r matches Ok(q) ==> (items@.len() > 1 ==> (q
            matches Query::Conjunction { queries } && queries@.len() == items@.len()))),
        json matches Value::Array(items) ==> (items@.len() > 1 && (forall|i: int|
            0 <= i < items@.len() ==> #[trigger] spec_term_object(items@[i]) is Some) ==> (r
            matches Ok(q) && q matches Query::Conjunction { queries } && queries@.len()
            == items@.len() && (forall|i: int|
            0 <= i < queries@.len() ==> #[trigger] queries@[i] == spec_term_object(
                items@[i],
            ).unwrap()))),
    decreases *json, 1int,
{
    match json {
        Value::Array(items) => {
            let mut sub_queries: Vec<Query> = Vec::new();
            let mut i: usize = 0;
            while i < items.len()
                invariant
                    0 <= i <= items@.len(),
                    *json is Array,
                    json->Array_0 == *items,
                    sub_queries@.len() == i,
                    forall|j: int|
                        0 <= j < i ==> (#[trigger] spec_term_object(items@[j]) is Some
                            ==> sub_queries@[j] == spec_term_object(items@[j]).unwrap()),
                decreases items@.len() - i,
            {
                proof {
                    assert(decreases_to!(*json => json->Array_0));
                    assert(decreases_to!(*items => items@));
                    assert(decreases_to!(items@ => items@[i as int]));
                }
                match parse_query(context, &items[i]) {
                    Ok(q) => {
                        sub_queries.push(q);
                    },
                    Err(e) => {
                        proof {
                            if spec_term_object(items@[i as int]) is Some {
                                assert(false);
                            }
                        }
                        return Err(e);
                    },
                }
                i = i + 1;
            }
            Ok(Query::new_conjunction(sub_queries))
        },
        _ => Err(QueryParseError::ExpectedArray),
    }
}

} // verus!
