//! Parses the JSON query dialect into query trees. The top level dispatches
//! on the single key of the query object.

pub mod and_query;
pub mod terms_query;

use vstd::prelude::*;
use crate::value::{Value, string_is};
use crate::query::{Query, TermMatcher};
use crate::term::Term;
use crate::unicode::{unicode_words, lowercase};

verus! {

/// Why a query could not be parsed.
#[derive(Debug, Clone, Copy, PartialEq, Eq, Structural)]
pub enum QueryParseError {
    ExpectedObject,
    ExpectedArray,
    ExpectedString,
    ExpectedSingleKey,
    UnrecognizedQueryType,
    UnknownField,
    InvalidTermValue,
}

/// What a parse runs against; queries carry field names, so nothing is
/// resolved yet.
pub struct QueryParseContext {
}

impl QueryParseContext {
    /// A fresh context.
    pub fn new() -> (r: QueryParseContext) {
        QueryParseContext {  }
    }
}

/// The term a JSON value denotes: a string, an integer or a boolean.
pub open spec fn spec_term_of(v: Value) -> Option<Term> {
    match v {
        Value::Str(s) => Some(Term::Str(s)),
        Value::I64(n) => Some(Term::I64(n)),
        Value::Boolean(b) => Some(Term::Bool(b)),
        _ => None,
    }
}

/// The query a one-key field-to-value object denotes under a matcher.
pub open spec fn spec_field_term(body: Value, matcher: TermMatcher) -> Result<
    Query,
    QueryParseError,
> {
    match body {
        Value::Object(fields) => if fields@.len() != 1 {
            Err(QueryParseError::ExpectedSingleKey)
        } else {
            match spec_term_of(fields@[0].1) {
                Some(t) => Ok(
                    Query::MatchTerm { field: fields@[0].0, term: t, matcher },
                ),
                None => Err(QueryParseError::InvalidTermValue),
            }
        },
        _ => Err(QueryParseError::ExpectedObject),
    }
}

/// The keys the dispatch recognizes.
pub open spec fn recognized_query_key(k: Seq<char>) -> bool {
    ||| k == "term"@
    ||| k == "prefix"@
    ||| k == "terms"@
    ||| k == "match"@
    ||| k == "bool"@
    ||| k == "and"@
    ||| k == "match_all"@
    ||| k == "match_none"@
    ||| k == "filtered"@
    ||| k == "function_score"@
}

/// An exact term query in its one-key object form, if the value is one.
pub open spec fn spec_term_object(v: Value) -> Option<Query> {
    match v {
        Value::Object(fields) => if fields@.len() == 1 && fields@[0].0@ == "term"@ {
            match spec_field_term(fields@[0].1, TermMatcher::Exact) {
                Ok(q) => Some(q),
                Err(_) => None,
            }
        } else {
            None
        },
        _ => None,
    }
}

/// Turns a JSON value into a term: a string, an integer or a boolean.
pub fn term_of_value(v: &Value) -> (r: Result<Term, QueryParseError>)
    ensures
        spec_term_of(*v) matches Some(t) ==> r == Ok::<Term, QueryParseError>(t),
        spec_term_of(*v) is None ==> r == Err::<Term, QueryParseError>(
            QueryParseError::InvalidTermValue,
        ),
{
    match v {
        Value::Str(s) => Ok(Term::Str(s.clone())),
        Value::I64(n) => Ok(Term::I64(*n)),
        Value::Boolean(b) => Ok(Term::Bool(*b)),
        _ => Err(QueryParseError::InvalidTermValue),
    }
}

/// Parses a one-key object of field name to term value into an exact or
/// prefix term query.
fn parse_field_term(json: &Value, matcher: TermMatcher) -> (r: Result<Query, QueryParseError>)
    ensures
        r == spec_field_term(*json, matcher),
{
    match json {
        Value::Object(fields) => {
            if fields.len() != 1 {
                return Err(QueryParseError::ExpectedSingleKey);
            }
            let field = fields[0].0.clone();
            match term_of_value(&fields[0].1) {
                Ok(term) => Ok(Query::MatchTerm { field, term, matcher }),
                Err(e) => Err(e),
            }
        },
        _ => Err(QueryParseError::ExpectedObject),
    }
}

/// Parses a match query: the text is split into lowercased words, each an
/// exact term, combined as a disjunction.
fn parse_match(json: &Value) -> (r: Result<Query, QueryParseError>)
    ensures
        !(json is Object) ==> r == Err::<Query, QueryParseError>(QueryParseError::ExpectedObject),
{
    match json {
        Value::Object(fields) => {
            if fields.len() != 1 {
                return Err(QueryParseError::ExpectedSingleKey);
            }
            let field = &fields[0].0;
            match &fields[0].1 {
                Value::Str(text) => {
                    let words = unicode_words(text);
                    let mut queries: Vec<Query> = Vec::new();
                    let mut i: usize = 0;
                    while i < words.len()
                        decreases words@.len() - i,
                    {
                        let w = lowercase(&words[i]);
                        queries.push(
                            Query::MatchTerm {
                                field: field.clone(),
                                term: Term::Str(w),
                                matcher: TermMatcher::Exact,
                            },
                        );
                        i = i + 1;
                    }
                    Ok(Query::new_disjunction(queries))
                },
                _ => Err(QueryParseError::ExpectedString),
            }
        },
        _ => Err(QueryParseError::ExpectedObject),
    }
}

/// Collects the queries of a clause that is one query object or an array of
/// them.
fn parse_clause_list(context: &QueryParseContext, json: &Value) -> (r: Result<
    Vec<Query>,
    QueryParseError,
>)
    decreases *json, 1int,
{
    match json {
        Value::Array(items) => {
            let mut queries: Vec<Query> = Vec::new();
            let mut i: usize = 0;
            while i < items.len()
                invariant
                    0 <= i <= items@.len(),
                    *json is Array,
                    json->Array_0 == *items,
                decreases items@.len() - i,
            {
                proof {
                    assert(decreases_to!(*json => json->Array_0));
                    assert(decreases_to!(*items => items@));
                    assert(decreases_to!(items@ => items@[i as int]));
                }
                match parse(context, &items[i]) {
                    Ok(q) => {
                        queries.push(q);
                    },
                    Err(e) => {
                        return Err(e);
                    },
                }
                i = i + 1;
            }
            Ok(queries)
        },
        _ => {
            match parse(context, json) {
                Ok(q) => {
                    let mut queries: Vec<Query> = Vec::new();
                    queries.push(q);
                    Ok(queries)
                },
                Err(e) => Err(e),
            }
        },
    }
}

/// Parses a boolean query: `must` clauses all hold; of the `should`
/// clauses, at least `minimum_should_match` hold, any of them when the
/// minimum is absent or zero; no `must_not` clause holds.
fn parse_bool(context: &QueryParseContext, json: &Value) -> (r: Result<Query, QueryParseError>)
    ensures
        !(json is Object) ==> r == Err::<Query, QueryParseError>(QueryParseError::ExpectedObject),
    decreases *json, 1int,
{
    if !matches!(json, Value::Object(_)) {
        return Err(QueryParseError::ExpectedObject);
    }
    let mut must: Vec<Query> = Vec::new();
    let mut should: Vec<Query> = Vec::new();
    let mut min: i32 = 0;
    match json.get_key("must") {
        Some(m) => {
            proof {
                assert(decreases_to!(*json => *m));
            }
            match parse_clause_list(context, m) {
                Ok(qs) => {
                    must = qs;
                },
                Err(e) => {
                    return Err(e);
                },
            }
        },
        None => {
        },
    }
    match json.get_key("should") {
        Some(m) => {
            proof {
                assert(decreases_to!(*json => *m));
            }
            match parse_clause_list(context, m) {
                Ok(qs) => {
                    should = qs;
                },
                Err(e) => {
                    return Err(e);
                },
            }
        },
        None => {
        },
    }
    let mut must_not: Vec<Query> = Vec::new();
    match json.get_key("must_not") {
        Some(m) => {
            proof {
                assert(decreases_to!(*json => *m));
            }
            match parse_clause_list(context, m) {
                Ok(qs) => {
                    must_not = qs;
                },
                Err(e) => {
                    return Err(e);
                },
            }
        },
        None => {
        },
    }
    match json.get_key("minimum_should_match") {
        Some(m) => {
            match m {
                Value::I64(n) => {
                    if *n >= 0 && *n <= 0x7fff_ffff {
                        min = *n as i32;
                    } else {
                        return Err(QueryParseError::InvalidTermValue);
                    }
                },
                _ => {
                    return Err(QueryParseError::InvalidTermValue);
                },
            }
        },
        None => {
        },
    }
    let should_query: Option<Query> = if should.len() == 0 {
        None
    } else if min > 0 {
        Some(Query::NDisjunction { queries: should, minimum_should_match: min })
    } else {
        Some(Query::new_disjunction(should))
    };
    let base = match should_query {
        Some(sq) => {
            if must.len() == 0 {
                sq
            } else {
                let mut both = must;
                both.push(sq);
                Query::Conjunction { queries: both }
            }
        },
        None => Query::new_conjunction(must),
    };
    if must_not.len() == 0 {
        Ok(base)
    } else {
        Ok(
            Query::Exclude {
                query: Box::new(base),
                exclude: Box::new(Query::new_disjunction(must_not)),
            },
        )
    }
}

/// Parses a filtered query: the query's documents kept to the filter's.
fn parse_filtered(context: &QueryParseContext, json: &Value) -> (r: Result<
    Query,
    QueryParseError,
>)
    ensures
        !(json is Object) ==> r == Err::<Query, QueryParseError>(QueryParseError::ExpectedObject),
    decreases *json, 1int,
{
    if !matches!(json, Value::Object(_)) {
        return Err(QueryParseError::ExpectedObject);
    }
    let query: Query = match json.get_key("query") {
        Some(m) => {
            proof {
                assert(decreases_to!(*json => *m));
            }
            match parse(context, m) {
                Ok(q) => q,
                Err(e) => {
                    return Err(e);
                },
            }
        },
        None => Query::MatchAll,
    };
    let filter: Query = match json.get_key("filter") {
        Some(m) => {
            proof {
                assert(decreases_to!(*json => *m));
            }
            match parse(context, m) {
                Ok(q) => q,
                Err(e) => {
                    return Err(e);
                },
            }
        },
        None => Query::MatchAll,
    };
    Ok(Query::Filter { query: Box::new(query), filter: Box::new(filter) })
}

/// Parses a function-score query: a boost folded into the child's score as
/// a factor or an addend.
fn parse_function_score(context: &QueryParseContext, json: &Value) -> (r: Result<
    Query,
    QueryParseError,
>)
    ensures
        !(json is Object) ==> r == Err::<Query, QueryParseError>(QueryParseError::ExpectedObject),
    decreases *json, 1int,
{
    if !matches!(json, Value::Object(_)) {
        return Err(QueryParseError::ExpectedObject);
    }
    let query: Query = match json.get_key("query") {
        Some(m) => {
            proof {
                assert(decreases_to!(*json => *m));
            }
            match parse(context, m) {
                Ok(q) => q,
                Err(e) => {
                    return Err(e);
                },
            }
        },
        None => Query::MatchAll,
    };
    let boost_milli: i64 = match json.get_key("boost") {
        Some(m) => {
            match m {
                Value::I64(n) => {
                    if *n >= -0x7fff_ffff && *n <= 0x7fff_ffff {
                        *n * 1000
                    } else {
                        return Err(QueryParseError::InvalidTermValue);
                    }
                },
                _ => {
                    return Err(QueryParseError::InvalidTermValue);
                },
            }
        },
        None => 1000,
    };
    let multiply: bool = match json.get_key("boost_mode") {
        Some(m) => {
            match m {
                Value::Str(s) => string_is(s, "multiply"),
                _ => true,
            }
        },
        None => true,
    };
    if multiply {
        Ok(Query::Score { query: Box::new(query), mul_milli: boost_milli, add_milli: 0 })
    } else {
        Ok(Query::Score { query: Box::new(query), mul_milli: 1000, add_milli: boost_milli })
    }
}

/// Parses a query object: one key names the query type, its value the
/// query's body.
#[verifier::rlimit(50)]
pub fn parse(context: &QueryParseContext, json: &Value) -> (r: Result<Query, QueryParseError>)
    ensures
        !(json is Object) ==> r == Err::<Query, QueryParseError>(QueryParseError::ExpectedObject),
        json matches Value::Object(fields) && fields@.len() != 1 ==> r == Err::<
            Query,
            QueryParseError,
        >(QueryParseError::ExpectedSingleKey),
        json matches Value::Object(fields) ==> (fields@.len() == 1 && fields@[0].0@ == "term"@
            ==> r == spec_field_term(fields@[0].1, TermMatcher::Exact)),
        json matches Value::Object(fields) ==> (fields@.len() == 1 && fields@[0].0@ == "prefix"@
            ==> r == spec_field_term(fields@[0].1, TermMatcher::Prefix)),
        json matches Value::Object(fields) ==> (fields@.len() == 1 && fields@[0].0@
            == "match_all"@ ==> r == Ok::<Query, QueryParseError>(Query::MatchAll)),
        json matches Value::Object(fields) ==> (fields@.len() == 1 && fields@[0].0@
            == "match_none"@ ==> r == Ok::<Query, QueryParseError>(Query::MatchNone)),
        json matches Value::Object(fields) ==> (fields@.len() == 1 && !recognized_query_key(
            fields@[0].0@,
        ) ==> r == Err::<Query, QueryParseError>(QueryParseError::UnrecognizedQueryType)),
    decreases *json, 0int,
{
    match json {
        Value::Object(fields) => {
            if fields.len() != 1 {
                return Err(QueryParseError::ExpectedSingleKey);
            }
            let key = &fields[0].0;
            let body = &fields[0].1;
            proof {
                assert(json->Object_0 == *fields);
                assert(decreases_to!(*json => json->Object_0));
                assert(decreases_to!(*fields => fields@));
                assert(decreases_to!(fields@ => fields@[0]));
                assert(decreases_to!(fields@[0] => fields@[0].1));
                reveal_strlit("term");
                reveal_strlit("prefix");
                reveal_strlit("terms");
                reveal_strlit("match");
                reveal_strlit("bool");
                reveal_strlit("and");
                reveal_strlit("match_all");
                reveal_strlit("match_none");
                reveal_strlit("filtered");
                reveal_strlit("function_score");
                assert("term"@.len() == 4);
                assert("prefix"@.len() == 6);
                assert("terms"@.len() == 5);
                assert("match"@.len() == 5);
                assert("bool"@.len() == 4);
                assert("and"@.len() == 3);
                assert("match_all"@.len() == 9);
                assert("match_none"@.len() == 10);
                assert("filtered"@.len() == 8);
                assert("function_score"@.len() == 14);
            }
            if string_is(key, "term") {
                parse_field_term(body, TermMatcher::Exact)
            } else if string_is(key, "prefix") {
                parse_field_term(body, TermMatcher::Prefix)
            } else if string_is(key, "terms") {
                match terms_query::parse(context, body) {
                    Ok(builder) => Ok(builder.build()),
                    Err(e) => Err(e),
                }
            } else if string_is(key, "match") {
                parse_match(body)
            } else if string_is(key, "bool") {
                parse_bool(context, body)
            } else if string_is(key, "and") {
                and_query::parse(context, body)
            } else if string_is(key, "match_all") {
                Ok(Query::MatchAll)
            } else if string_is(key, "match_none") {
                Ok(Query::MatchNone)
            } else if string_is(key, "filtered") {
                parse_filtered(context, body)
            } else if string_is(key, "function_score") {
                parse_function_score(context, body)
            } else {
                Err(QueryParseError::UnrecognizedQueryType)
            }
        },
        _ => Err(QueryParseError::ExpectedObject),
    }
}

} // verus!
