use irc_index::query::{parse_query, Query, QueryError, TermMatch};
use irc_index::store::Field;

fn clause(field: Option<Field>, term: &str) -> TermMatch {
    TermMatch { field, term: term.chars().collect() }
}

fn query(clauses: Vec<TermMatch>) -> Result<Query, QueryError> {
    Ok(Query { clauses })
}

#[test]
fn empty_query_has_no_clauses() {
    assert_eq!(parse_query(""), query(vec![]));
    assert_eq!(parse_query("  \t "), query(vec![]));
}

#[test]
fn bare_terms_name_no_field() {
    assert_eq!(parse_query("hello"), query(vec![clause(None, "hello")]));
    assert_eq!(
        parse_query("  hello   world "),
        query(vec![clause(None, "hello"), clause(None, "world")])
    );
}

#[test]
fn query_terms_are_case_folded() {
    assert_eq!(parse_query("HeLLo"), query(vec![clause(None, "hello")]));
    assert_eq!(parse_query("msg:WORLD"), query(vec![clause(Some(Field::Msg), "world")]));
}

#[test]
fn a_field_restricts_its_term() {
    assert_eq!(parse_query("msg:hello"), query(vec![clause(Some(Field::Msg), "hello")]));
    assert_eq!(parse_query("nick:alice"), query(vec![clause(Some(Field::Nick), "alice")]));
    assert_eq!(parse_query("time:2020"), query(vec![clause(Some(Field::Time), "2020")]));
    assert_eq!(
        parse_query("nick:alice hello msg:world"),
        query(vec![
            clause(Some(Field::Nick), "alice"),
            clause(None, "hello"),
            clause(Some(Field::Msg), "world"),
        ])
    );
}

#[test]
fn text_of_several_terms_gives_a_clause_for_each() {
    assert_eq!(
        parse_query("time:2020-01-01"),
        query(vec![
            clause(Some(Field::Time), "2020"),
            clause(Some(Field::Time), "01"),
            clause(Some(Field::Time), "01"),
        ])
    );
    assert_eq!(parse_query("foo-bar"), query(vec![clause(None, "foo"), clause(None, "bar")]));
}

#[test]
fn quotation_marks_keep_words_under_one_field() {
    assert_eq!(
        parse_query("msg:\"hello big world\" nick:bob"),
        query(vec![
            clause(Some(Field::Msg), "hello"),
            clause(Some(Field::Msg), "big"),
            clause(Some(Field::Msg), "world"),
            clause(Some(Field::Nick), "bob"),
        ])
    );
    assert_eq!(
        parse_query("\"hello world\""),
        query(vec![clause(None, "hello"), clause(None, "world")])
    );
    assert_eq!(
        parse_query("a\"b c\"d"),
        query(vec![clause(None, "a"), clause(None, "b"), clause(None, "c"), clause(None, "d")])
    );
    assert_eq!(
        parse_query("\"msg:hello\""),
        query(vec![clause(None, "msg"), clause(None, "hello")])
    );
}

#[test]
fn bare_text_without_terms_gives_no_clause() {
    assert_eq!(parse_query("!!! ... ---"), query(vec![]));
    assert_eq!(parse_query("\"\""), query(vec![]));
}

#[test]
fn unknown_field_is_an_error() {
    assert_eq!(parse_query("body:hello"), Err(QueryError::UnknownField));
    assert_eq!(parse_query("MSG:hello"), Err(QueryError::UnknownField));
    assert_eq!(parse_query(":hello"), Err(QueryError::UnknownField));
    assert_eq!(parse_query("http://example.org"), Err(QueryError::UnknownField));
    assert_eq!(parse_query("hello msgs:x"), Err(QueryError::UnknownField));
}

#[test]
fn field_without_term_is_an_error() {
    assert_eq!(parse_query("msg:"), Err(QueryError::MissingTerm));
    assert_eq!(parse_query("msg: hello"), Err(QueryError::MissingTerm));
    assert_eq!(parse_query("nick:!!!"), Err(QueryError::MissingTerm));
    assert_eq!(parse_query("nick:\"\""), Err(QueryError::MissingTerm));
    assert_eq!(parse_query("nick:\" - \""), Err(QueryError::MissingTerm));
}

#[test]
fn open_quotation_mark_is_an_error() {
    assert_eq!(parse_query("\"hello"), Err(QueryError::UnbalancedQuote));
    assert_eq!(parse_query("msg:\"hello world"), Err(QueryError::UnbalancedQuote));
    assert_eq!(parse_query("hello \""), Err(QueryError::UnbalancedQuote));
    assert_eq!(parse_query("\"a\" \"b"), Err(QueryError::UnbalancedQuote));
}

#[test]
fn first_bad_clause_decides_the_error() {
    assert_eq!(parse_query("body:x \"open"), Err(QueryError::UnknownField));
    assert_eq!(parse_query("msg: body:x"), Err(QueryError::MissingTerm));
    assert_eq!(parse_query("\"open body:x"), Err(QueryError::UnbalancedQuote));
}

#[test]
fn second_colon_belongs_to_the_text() {
    assert_eq!(
        parse_query("time:12:34"),
        query(vec![clause(Some(Field::Time), "12"), clause(Some(Field::Time), "34")])
    );
}
