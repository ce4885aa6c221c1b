use rusticsearch::value::Value;
use rusticsearch::query::{Query, TermMatcher};
use rusticsearch::query_parser::{QueryParseContext, QueryParseError, parse};
use rusticsearch::query_parser::and_query;
use rusticsearch::query_parser::terms_query;
use rusticsearch::term::Term;

fn obj(fields: Vec<(&str, Value)>) -> Value {
    Value::Object(fields.into_iter().map(|(k, v)| (k.to_string(), v)).collect())
}

fn term_query_json(field: &str, value: &str) -> Value {
    obj(vec![("term", obj(vec![(field, Value::Str(value.to_string()))]))])
}

fn match_term(field: &str, value: &str) -> Query {
    Query::MatchTerm {
        field: field.to_string(),
        term: Term::Str(value.to_string()),
        matcher: TermMatcher::Exact,
    }
}

#[test]
fn test_and_query() {
    let json = Value::Array(vec![term_query_json("foo", "test"), term_query_json("foo", "bar")]);
    let query = and_query::parse(&QueryParseContext::new(), &json);

    assert_eq!(
        query,
        Ok(Query::Conjunction {
            queries: vec![match_term("foo", "test"), match_term("foo", "bar")],
        })
    );
}

#[test]
fn and_query_test_gives_error_for_incorrect_type() {
    // String
    let query = and_query::parse(&QueryParseContext::new(), &Value::Str("hello".to_string()));
    assert_eq!(query, Err(QueryParseError::ExpectedArray));

    // Object
    let query = and_query::parse(
        &QueryParseContext::new(),
        &obj(vec![("foo", Value::Str("bar".to_string()))]),
    );
    assert_eq!(query, Err(QueryParseError::ExpectedArray));

    // Integer
    let query = and_query::parse(&QueryParseContext::new(), &Value::I64(123));
    assert_eq!(query, Err(QueryParseError::ExpectedArray));

    // Float
    let query = and_query::parse(
        &QueryParseContext::new(),
        &Value::FloatLit("123.1234".to_string()),
    );
    assert_eq!(query, Err(QueryParseError::ExpectedArray));
}

#[test]
fn test_terms_query() {
    let json = obj(vec![(
        "foo",
        Value::Array(vec![
            Value::Str("bar".to_string()),
            Value::Str("baz".to_string()),
        ]),
    )]);
    let query = terms_query::parse(&QueryParseContext::new(), &json)
        .map(|builder| builder.build());

    assert_eq!(
        query,
        Ok(Query::Disjunction {
            queries: vec![match_term("foo", "bar"), match_term("foo", "baz")],
        })
    );
}

#[test]
fn terms_query_test_gives_error_for_incorrect_type() {
    // Array
    let query = terms_query::parse(
        &QueryParseContext::new(),
        &Value::Array(vec![Value::Str("foo".to_string())]),
    );
    assert_eq!(query.err(), Some(QueryParseError::ExpectedObject));

    // Integer
    let query = terms_query::parse(&QueryParseContext::new(), &Value::I64(123));
    assert_eq!(query.err(), Some(QueryParseError::ExpectedObject));

    // Float
    let query = terms_query::parse(
        &QueryParseContext::new(),
        &Value::FloatLit("123.1234".to_string()),
    );
    assert_eq!(query.err(), Some(QueryParseError::ExpectedObject));
}

#[test]
fn test_gives_error_for_incorrect_query_type() {
    // Object
    let query = terms_query::parse(
        &QueryParseContext::new(),
        &obj(vec![(
            "foo",
            obj(vec![(
                "query",
                Value::Array(vec![
                    Value::Str("bar".to_string()),
                    Value::Str("baz".to_string()),
                ]),
            )]),
        )]),
    );
    assert_eq!(query.err(), Some(QueryParseError::ExpectedArray));

    // String
    let query = terms_query::parse(
        &QueryParseContext::new(),
        &obj(vec![("foo", Value::Str("bar baz".to_string()))]),
    );
    assert_eq!(query.err(), Some(QueryParseError::ExpectedArray));
}

#[test]
fn test_gives_error_for_missing_query() {
    let query = terms_query::parse(&QueryParseContext::new(), &obj(vec![]));
    assert_eq!(query.err(), Some(QueryParseError::ExpectedSingleKey));
}

#[test]
fn test_gives_error_for_extra_key() {
    let query = terms_query::parse(
        &QueryParseContext::new(),
        &obj(vec![
            (
                "foo",
                Value::Array(vec![
                    Value::Str("bar".to_string()),
                    Value::Str("baz".to_string()),
                ]),
            ),
            ("hello", Value::Str("world".to_string())),
        ]),
    );
    assert_eq!(query.err(), Some(QueryParseError::ExpectedSingleKey));
}

#[test]
fn test_parse_then_serialize_shape_is_stable() {
    // Parsing a normalized tree a second time gives the same tree: a
    // one-element conjunction already collapsed stays what it is.
    let json = Value::Array(vec![term_query_json("foo", "one")]);
    let first = and_query::parse(&QueryParseContext::new(), &json).unwrap();
    assert_eq!(first, match_term("foo", "one"));

    let json_again = Value::Array(vec![term_query_json("foo", "one")]);
    let second = and_query::parse(&QueryParseContext::new(), &json_again).unwrap();
    assert_eq!(first, second);
}

#[test]
fn test_parse_bool_minimum_should_match() {
    let json = obj(vec![(
        "bool",
        obj(vec![
            (
                "should",
                Value::Array(vec![term_query_json("t", "a"), term_query_json("t", "b")]),
            ),
            ("minimum_should_match", Value::I64(2)),
        ]),
    )]);
    let query = parse(&QueryParseContext::new(), &json).unwrap();
    assert_eq!(
        query,
        Query::NDisjunction {
            queries: vec![match_term("t", "a"), match_term("t", "b")],
            minimum_should_match: 2,
        }
    );
}

#[test]
fn test_parse_unrecognized_query_type() {
    let json = obj(vec![("frobnicate", obj(vec![]))]);
    let query = parse(&QueryParseContext::new(), &json);
    assert_eq!(query, Err(QueryParseError::UnrecognizedQueryType));
}

#[test]
fn test_parse_after_serialize_is_identity_on_parsed_trees() {
    // Parsing, serializing, and parsing again gives the first tree back:
    // the normalization rewrites have already been applied by then.
    let json = obj(vec![(
        "bool",
        obj(vec![
            (
                "should",
                Value::Array(vec![
                    term_query_json("t", "a"),
                    term_query_json("t", "b"),
                    term_query_json("t", "c"),
                ]),
            ),
            ("minimum_should_match", Value::I64(2)),
        ]),
    )]);
    let first = parse(&QueryParseContext::new(), &json).unwrap();
    let written = first.serialize();
    let second = parse(&QueryParseContext::new(), &written).unwrap();
    assert_eq!(first, second);

    let disjunction = obj(vec![(
        "bool",
        obj(vec![(
            "should",
            Value::Array(vec![term_query_json("t", "x"), term_query_json("t", "y")]),
        )]),
    )]);
    let first = parse(&QueryParseContext::new(), &disjunction).unwrap();
    let second = parse(&QueryParseContext::new(), &first.serialize()).unwrap();
    assert_eq!(first, second);

    let filtered = obj(vec![(
        "filtered",
        obj(vec![
            ("query", term_query_json("t", "q")),
            ("filter", term_query_json("t", "f")),
        ]),
    )]);
    let first = parse(&QueryParseContext::new(), &filtered).unwrap();
    let second = parse(&QueryParseContext::new(), &first.serialize()).unwrap();
    assert_eq!(first, second);
}

#[test]
fn test_parse_after_serialize_keeps_exclusions() {
    let json = obj(vec![(
        "bool",
        obj(vec![
            ("must", Value::Array(vec![term_query_json("t", "keep")])),
            ("must_not", Value::Array(vec![term_query_json("t", "drop")])),
        ]),
    )]);
    let first = parse(&QueryParseContext::new(), &json).unwrap();
    let second = parse(&QueryParseContext::new(), &first.serialize()).unwrap();
    assert_eq!(first, second);
}
