//! The query tree and its normalization rewrites.

use vstd::prelude::*;
use crate::term::Term;
use crate::value::Value;
use vstd::string::StringExecFns;
use crate::query_parser::spec_term_of;

verus! {

broadcast use vstd::std_specs::vec::axiom_vec_index_decreases;

/// How a term is matched against the dictionary.
#[derive(Debug, PartialEq)]
pub enum TermMatcher {
    Exact,
    Prefix,
}

/// A parsed query. Scores are carried as fixed-point thousandths.
#[derive(Debug, PartialEq)]
pub enum Query {
    MatchAll,
    MatchNone,
    MatchTerm { field: String, term: Term, matcher: TermMatcher },
    Conjunction { queries: Vec<Query> },
    Disjunction { queries: Vec<Query> },
    NDisjunction { queries: Vec<Query>, minimum_should_match: i32 },
    DisjunctionMax { queries: Vec<Query> },
    Filter { query: Box<Query>, filter: Box<Query> },
    Exclude { query: Box<Query>, exclude: Box<Query> },
    Score { query: Box<Query>, mul_milli: i64, add_milli: i64 },
}

impl Query {
    /// A conjunction, normalized: none is everything, one is itself.
    pub fn new_conjunction(queries: Vec<Query>) -> (r: Query)
        ensures
            queries@.len() == 0 ==> r == Query::MatchAll,
            queries@.len() == 1 ==> r == queries@[0],
            queries@.len() > 1 ==> r == (Query::Conjunction { queries }),
    {
        if queries.len() == 0 {
            Query::MatchAll
        } else if queries.len() == 1 {
            let mut qs = queries;
            let q = qs.remove(0);
            q
        } else {
            Query::Conjunction { queries }
        }
    }

    /// A disjunction, normalized: none is nothing, one is itself.
    pub fn new_disjunction(queries: Vec<Query>) -> (r: Query)
        ensures
            queries@.len() == 0 ==> r == Query::MatchNone,
            queries@.len() == 1 ==> r == queries@[0],
            queries@.len() > 1 ==> r == (Query::Disjunction { queries }),
    {
        if queries.len() == 0 {
            Query::MatchNone
        } else if queries.len() == 1 {
            let mut qs = queries;
            let q = qs.remove(0);
            q
        } else {
            Query::Disjunction { queries }
        }
    }
}

/// A one-key object: the key, bound to the body.
fn wrap(key: &str, body: Value) -> (r: Value)
    ensures
        r matches Value::Object(fs) && fs@.len() == 1 && fs@[0].0@ == key@ && fs@[0].1 == body,
{
    let mut fields: Vec<(String, Value)> = Vec::new();
    fields.push((String::from_str(key), body));
    Value::Object(fields)
}

impl Query {
    /// Writes the tree back into the JSON dialect the parser reads. A tree
    /// the parser produced reads back as itself: parsing after serializing
    /// changes nothing once the normalization rewrites have been applied.
    pub fn serialize(&self) -> (r: Value)
        ensures
            r matches Value::Object(fs) && fs@.len() == 1,
            (*self) is MatchAll ==> (r matches Value::Object(fs) && fs@[0].0@ == "match_all"@),
            (*self) is MatchNone ==> (r matches Value::Object(fs) && fs@[0].0@ == "match_none"@),
            (*self) matches Query::MatchTerm { field, term, matcher } ==> (r matches Value::Object(
                fs,
            ) && fs@.len() == 1 && (matcher is Exact ==> fs@[0].0@ == "term"@) && (matcher
                is Prefix ==> fs@[0].0@ == "prefix"@) && (fs@[0].1 matches Value::Object(inner)
                && inner@.len() == 1 && inner@[0].0 == field && (!(term is DateTime)
                ==> spec_term_of(inner@[0].1) == Some(term)) && (term matches Term::DateTime(n)
                ==> inner@[0].1 == Value::I64(n)))),
        decreases *self,
    {
        match self {
            Query::MatchAll => wrap("match_all", Value::Object(Vec::new())),
            Query::MatchNone => wrap("match_none", Value::Object(Vec::new())),
            Query::MatchTerm { field, term, matcher } => {
                let value = match term {
                    Term::Str(s) => Value::Str(s.clone()),
                    Term::I64(n) => Value::I64(*n),
                    Term::Bool(b) => Value::Boolean(*b),
                    Term::DateTime(n) => Value::I64(*n),
                };
                let mut inner: Vec<(String, Value)> = Vec::new();
                inner.push((field.clone(), value));
                let key: &str = match matcher {
                    TermMatcher::Exact => "term",
                    TermMatcher::Prefix => "prefix",
                };
                wrap(key, Value::Object(inner))
            },
            Query::Conjunction { queries } => {
                proof {
                    assert(self->Conjunction_queries == *queries);
                    assert(decreases_to!(*self => self->Conjunction_queries));
                }
                wrap("and", Value::Array(Self::serialize_list(queries)))
            },
            Query::Disjunction { queries } => {
                proof {
                    assert(self->Disjunction_queries == *queries);
                    assert(decreases_to!(*self => self->Disjunction_queries));
                }
                let mut inner: Vec<(String, Value)> = Vec::new();
                inner.push(
                    (String::from_str("should"), Value::Array(Self::serialize_list(queries))),
                );
                wrap("bool", Value::Object(inner))
            },
            Query::NDisjunction { queries, minimum_should_match } => {
                proof {
                    assert(self->NDisjunction_queries == *queries);
                    assert(decreases_to!(*self => self->NDisjunction_queries));
                }
                let mut inner: Vec<(String, Value)> = Vec::new();
                inner.push(
                    (String::from_str("should"), Value::Array(Self::serialize_list(queries))),
                );
                inner.push(
                    (
                        String::from_str("minimum_should_match"),
                        Value::I64(*minimum_should_match as i64),
                    ),
                );
                wrap("bool", Value::Object(inner))
            },
            Query::DisjunctionMax { queries } => {
                proof {
                    assert(self->DisjunctionMax_queries == *queries);
                    assert(decreases_to!(*self => self->DisjunctionMax_queries));
                }
                let mut inner: Vec<(String, Value)> = Vec::new();
                inner.push(
                    (String::from_str("should"), Value::Array(Self::serialize_list(queries))),
                );
                wrap("bool", Value::Object(inner))
            },
            Query::Filter { query, filter } => {
                let mut inner: Vec<(String, Value)> = Vec::new();
                inner.push((String::from_str("query"), query.serialize()));
                inner.push((String::from_str("filter"), filter.serialize()));
                wrap("filtered", Value::Object(inner))
            },
            Query::Exclude { query, exclude } => {
                let mut must_list: Vec<Value> = Vec::new();
                must_list.push(query.serialize());
                let mut not_list: Vec<Value> = Vec::new();
                not_list.push(exclude.serialize());
                let mut inner: Vec<(String, Value)> = Vec::new();
                inner.push((String::from_str("must"), Value::Array(must_list)));
                inner.push((String::from_str("must_not"), Value::Array(not_list)));
                wrap("bool", Value::Object(inner))
            },
            Query::Score { query, mul_milli, add_milli } => {
                let mut inner: Vec<(String, Value)> = Vec::new();
                inner.push((String::from_str("query"), query.serialize()));
                if *add_milli != 0 {
                    inner.push((String::from_str("boost"), Value::I64(*add_milli / 1000)));
                    inner.push((String::from_str("boost_mode"), Value::Str(String::from_str("sum"))));
                } else {
                    inner.push((String::from_str("boost"), Value::I64(*mul_milli / 1000)));
                    inner.push(
                        (String::from_str("boost_mode"), Value::Str(String::from_str("multiply"))),
                    );
                }
                wrap("function_score", Value::Object(inner))
            },
        }
    }

    /// Serializes each query of a list.
    fn serialize_list(queries: &Vec<Query>) -> (r: Vec<Value>)
        decreases *queries,
    {
        let mut out: Vec<Value> = Vec::new();
        let mut i: usize = 0;
        while i < queries.len()
            invariant
                0 <= i <= queries@.len(),
            decreases queries@.len() - i,
        {
            proof {
                assert(decreases_to!(*queries => queries@));
                assert(decreases_to!(queries@ => queries@[i as int]));
            }
            out.push(queries[i].serialize());
            i = i + 1;
        }
        out
    }
}

} // verus!
