//! Parses terms queries: one field against a list of term values.

use vstd::prelude::*;
use crate::value::Value;
use crate::query::{Query, TermMatcher};
use crate::term::Term;
use crate::query_parser::{QueryParseContext, QueryParseError, term_of_value, spec_term_of};

verus! {

/// The terms of a value list, in order; values of other shapes are passed
/// over.
pub open spec fn spec_terms_of(items: Seq<Value>) -> Seq<Term>
    decreases items.len(),
{
    if items.len() == 0 {
        Seq::empty()
    } else {
        match spec_term_of(items[0]) {
            Some(t) => seq![t] + spec_terms_of(items.skip(1)),
            None => spec_terms_of(items.skip(1)),
        }
    }
}

/// A parsed terms query, ready to be built into a tree: the field and the
/// term values that parsed; values of other shapes are passed over.
#[derive(Debug)]
pub struct TermsQueryBuilder {
    pub field: String,
    pub terms: Vec<Term>,
}

impl TermsQueryBuilder {
    /// One exact term query per term, in order, combined as their
    /// normalized disjunction: none is nothing, one stands alone.
    pub fn build(self) -> (r: Query)
        ensures
            self.terms@.len() == 0 ==> r == Query::MatchNone,
            self.terms@.len() == 1 ==> r == (Query::MatchTerm {
                field: self.field,
                term: self.terms@[0],
                matcher: TermMatcher::Exact,
            }),
            self.terms@.len() > 1 ==> (r matches Query::Disjunction { queries }
                && queries@.len() == self.terms@.len() && (forall|i: int|
                0 <= i < queries@.len() ==> #[trigger] queries@[i] == (Query::MatchTerm {
                    field: self.field,
                    term: self.terms@[i],
                    matcher: TermMatcher::Exact,
                }))),
    {
        let ghost all = self.terms@;
        let ghost fld = self.field;
        let TermsQueryBuilder { field, terms } = self;
        let mut queries: Vec<Query> = Vec::new();
        let mut ts = terms;
        while ts.len() > 0
            invariant
                field == fld,
                queries@.len() + ts@.len() == all.len(),
                ts@ =~= all.skip(queries@.len() as int),
                forall|i: int|
                    0 <= i < queries@.len() ==> #[trigger] queries@[i] == (Query::MatchTerm {
                        field: fld,
                        term: all[i],
                        matcher: TermMatcher::Exact,
                    }),
            decreases ts@.len(),
        {
            let term = ts.remove(0);
            proof {
                assert(term == all[queries@.len() as int]);
            }
            queries.push(
                Query::MatchTerm { field: field.clone(), term, matcher: TermMatcher::Exact },
            );
            proof {
                assert(ts@ =~= all.skip(queries@.len() as int));
            }
        }
        Query::new_disjunction(queries)
    }
}

/// Parses a one-key object of field name to an array of term values;
/// anything else is refused.
pub fn parse(_context: &QueryParseContext, json: &Value) -> (r: Result<
    TermsQueryBuilder,
    QueryParseError,
>)
    ensures
        !(json is Object) ==> r == Err::<TermsQueryBuilder, QueryParseError>(
            QueryParseError::ExpectedObject,
        ),
        json matches Value::Object(fields) && fields@.len() != 1 ==> r == Err::<
            TermsQueryBuilder,
            QueryParseError,
        >(QueryParseError::ExpectedSingleKey),
        json matches Value::Object(fields) ==> (fields@.len() == 1 && !(fields@[0].1 is Array)
            ==> r == Err::<TermsQueryBuilder, QueryParseError>(QueryParseError::ExpectedArray)),
        json matches Value::Object(fields) ==> (fields@.len() == 1 ==> (fields@[0].1
            matches Value::Array(items) ==> (r matches Ok(b) && b.field == fields@[0].0
                && b.terms@ == spec_terms_of(items@)))),
{
    match json {
        Value::Object(fields) => {
            if fields.len() != 1 {
                return Err(QueryParseError::ExpectedSingleKey);
            }
            let field = fields[0].0.clone();
            match &fields[0].1 {
                Value::Array(items) => {
                    let mut terms: Vec<Term> = Vec::new();
                    let mut i: usize = 0;
                    proof {
                        assert(items@.skip(0) =~= items@);
                    }
                    while i < items.len()
                        invariant
                            0 <= i <= items@.len(),
                            terms@ + spec_terms_of(items@.skip(i as int)) =~= spec_terms_of(
                                items@,
                            ),
                        decreases items@.len() - i,
                    {
                        proof {
                            assert(items@.skip(i as int)[0] == items@[i as int]);
                            assert(items@.skip(i as int).skip(1) =~= items@.skip(i as int + 1));
                        }
                        let ghost tpre = terms@;
                        match term_of_value(&items[i]) {
                            Ok(t) => {
                                terms.push(t);
                                proof {
                                    assert(spec_terms_of(items@.skip(i as int)) == seq![t]
                                        + spec_terms_of(items@.skip(i as int + 1)));
                                    assert(terms@ + spec_terms_of(items@.skip(i as int + 1))
                                        =~= spec_terms_of(items@));
                                }
                            },
                            Err(_) => {
                                proof {
                                    assert(spec_terms_of(items@.skip(i as int)) == spec_terms_of(
                                        items@.skip(i as int + 1),
                                    ));
                                }
                            },
                        }
                        i = i + 1;
                    }
                    proof {
                        assert(items@.skip(i as int) =~= Seq::<Value>::empty());
                        assert(terms@ + spec_terms_of(items@.skip(i as int)) =~= terms@);
                        assert(terms@ =~= spec_terms_of(items@));
                    }
                    Ok(TermsQueryBuilder { field, terms })
                },
                _ => Err(QueryParseError::ExpectedArray),
            }
        },
        _ => Err(QueryParseError::ExpectedObject),
    }
}

} // verus!
