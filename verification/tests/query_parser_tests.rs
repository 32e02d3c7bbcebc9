use sheltie::BooleanQuery;
use sheltie::Occur;
use sheltie::ParseError;
use sheltie::PhraseQuery;
use sheltie::Query;
use sheltie::QueryParser;
use sheltie::SubQuery;
use sheltie::TermQuery;

#[test]
fn test_term_query() {
    assert_eq!(
        format!("{:?}", QueryParser::term_query("abc").unwrap().1),
        format!("{:?}", TermQuery::new("abc".to_string()))
    );
}

#[test]
fn test_phrase_query() {
    assert_eq!(
        format!("{:?}", QueryParser::phrase_query("\"abc\"").unwrap().1),
        format!("{:?}", PhraseQuery::new(vec!["abc".to_string()]))
    );
    assert_eq!(
        format!("{:?}", QueryParser::phrase_query("\"abc def\"").unwrap().1),
        format!(
            "{:?}",
            PhraseQuery::new(vec!["abc".to_string(), "def".to_string()])
        )
    );
}

#[test]
fn test_boolean_term() {
    // TermQuery
    assert_eq!(
        format!("{:?}", QueryParser::_boolean_term("abc").unwrap().1),
        format!(
            "{:?}",
            (
                Occur::Should,
                SubQuery::Term(TermQuery::new("abc".to_string()))
            )
        )
    );
    assert_eq!(
        format!("{:?}", QueryParser::_boolean_term("+abc").unwrap().1),
        format!(
            "{:?}",
            (Occur::Must, SubQuery::Term(TermQuery::new("abc".to_string())))
        )
    );
    assert_eq!(
        format!("{:?}", QueryParser::_boolean_term("-abc").unwrap().1),
        format!(
            "{:?}",
            (
                Occur::MustNot,
                SubQuery::Term(TermQuery::new("abc".to_string()))
            )
        )
    );

    // PhraseQuery
    assert_eq!(
        format!("{:?}", QueryParser::_boolean_term("\"abc def\"").unwrap().1),
        format!(
            "{:?}",
            (
                Occur::Should,
                SubQuery::Phrase(PhraseQuery::new(vec![
                    "abc".to_string(),
                    "def".to_string()
                ]))
            )
        )
    );
    assert_eq!(
        format!("{:?}", QueryParser::_boolean_term("+\"abc\"").unwrap().1),
        format!(
            "{:?}",
            (
                Occur::Must,
                SubQuery::Phrase(PhraseQuery::new(vec!["abc".to_string()]))
            )
        )
    );
    assert_eq!(
        format!("{:?}", QueryParser::_boolean_term("-\"abc\"").unwrap().1),
        format!(
            "{:?}",
            (
                Occur::MustNot,
                SubQuery::Phrase(PhraseQuery::new(vec!["abc".to_string()]))
            )
        )
    );
}

#[test]
fn test_boolean_query() {
    assert_eq!(
        format!("{:?}", QueryParser::boolean_query("abc def").unwrap().1),
        format!(
            "{:?}",
            BooleanQuery::new(vec![
                (
                    Occur::Should,
                    SubQuery::Term(TermQuery::new("abc".to_string()))
                ),
                (
                    Occur::Should,
                    SubQuery::Term(TermQuery::new("def".to_string()))
                ),
            ])
        )
    );

    assert_eq!(
        format!("{:?}", QueryParser::boolean_query("+abc +def").unwrap().1),
        format!(
            "{:?}",
            BooleanQuery::new(vec![
                (Occur::Must, SubQuery::Term(TermQuery::new("abc".to_string()))),
                (Occur::Must, SubQuery::Term(TermQuery::new("def".to_string()))),
            ])
        )
    );

    assert_eq!(
        format!(
            "{:?}",
            QueryParser::boolean_query("+abc def -g +\"hi\"").unwrap().1
        ),
        format!(
            "{:?}",
            BooleanQuery::new(vec![
                (Occur::Must, SubQuery::Term(TermQuery::new("abc".to_string()))),
                (
                    Occur::Should,
                    SubQuery::Term(TermQuery::new("def".to_string()))
                ),
                (
                    Occur::MustNot,
                    SubQuery::Term(TermQuery::new("g".to_string()))
                ),
                (
                    Occur::Must,
                    SubQuery::Phrase(PhraseQuery::new(vec!["hi".to_string()]))
                ),
            ])
        )
    );
}

#[test]
fn test_parse() {
    // TermQuery
    assert_eq!(
        format!("{:?}", QueryParser::parse("abc").unwrap()),
        format!("{:?}", Query::Term(TermQuery::new("abc".to_string())))
    );
    // PhraseQuery
    assert_eq!(
        format!("{:?}", QueryParser::parse("\"abc\"").unwrap()),
        format!(
            "{:?}",
            Query::Phrase(PhraseQuery::new(vec!["abc".to_string()]))
        )
    );
    // BooleanQuery
    assert_eq!(
        format!("{:?}", QueryParser::parse("abc def").unwrap()),
        format!(
            "{:?}",
            Query::Boolean(BooleanQuery::new(vec![
                (
                    Occur::Should,
                    SubQuery::Term(TermQuery::new("abc".to_string()))
                ),
                (
                    Occur::Should,
                    SubQuery::Term(TermQuery::new("def".to_string()))
                )
            ]))
        )
    );
}

#[test]
fn parse_sign_and_phrase_queries() {
    assert_eq!(
        QueryParser::parse("\"abc def\"").unwrap(),
        Query::Phrase(PhraseQuery::new(vec![
            "abc".to_string(),
            "def".to_string()
        ]))
    );
    assert_eq!(
        QueryParser::parse("+abc -def +\"gh ij\"").unwrap(),
        Query::Boolean(BooleanQuery::new(vec![
            (Occur::Must, SubQuery::Term(TermQuery::new("abc".to_string()))),
            (
                Occur::MustNot,
                SubQuery::Term(TermQuery::new("def".to_string()))
            ),
            (
                Occur::Must,
                SubQuery::Phrase(PhraseQuery::new(vec![
                    "gh".to_string(),
                    "ij".to_string()
                ]))
            ),
        ]))
    );
}

#[test]
fn parse_invalid_queries() {
    // trailing garbage: the error carries the unconsumed tail
    assert_eq!(
        QueryParser::parse("abc!"),
        Err(ParseError::InvalidQuery("!".to_string()))
    );
    // empty input
    assert_eq!(
        QueryParser::parse(""),
        Err(ParseError::InvalidQuery("".to_string()))
    );
    // unterminated phrase
    assert_eq!(
        QueryParser::parse("\"abc"),
        Err(ParseError::InvalidQuery("\"abc".to_string()))
    );
    // sign without a body
    assert_eq!(
        QueryParser::parse("+"),
        Err(ParseError::InvalidQuery("+".to_string()))
    );
    // leading space
    assert_eq!(
        QueryParser::parse(" abc"),
        Err(ParseError::InvalidQuery(" abc".to_string()))
    );
}

#[test]
fn parser_surface_helpers() {
    // whole-input variants
    assert_eq!(
        QueryParser::simple_term_query("abc").unwrap(),
        TermQuery::new("abc".to_string())
    );
    assert!(QueryParser::simple_term_query("abc def").is_err());
    assert_eq!(
        QueryParser::simple_phrase_query("\"abc def\"").unwrap(),
        PhraseQuery::new(vec!["abc".to_string(), "def".to_string()])
    );
    assert!(QueryParser::simple_phrase_query("abc").is_err());

    // a subquery is a term or a phrase without a sign
    assert_eq!(
        QueryParser::subquery("abc rest").unwrap(),
        (3, SubQuery::Term(TermQuery::new("abc".to_string())))
    );
    assert_eq!(
        QueryParser::subquery("\"ab\" rest").unwrap(),
        (4, SubQuery::Phrase(PhraseQuery::new(vec!["ab".to_string()])))
    );
    assert!(QueryParser::subquery("+abc").is_err());

    // `query` is the same whole-input alternative `parse` uses
    assert_eq!(
        QueryParser::query("abc def").unwrap(),
        QueryParser::parse("abc def").unwrap()
    );
}

#[test]
fn query_execute_is_a_stub() {
    let mut index = sheltie::Index::new();
    index.add(&String::from("abc def"));
    let q = QueryParser::parse("abc").unwrap();
    assert_eq!(q.execute(&index).len(), 0);
    let q = QueryParser::parse("\"abc def\"").unwrap();
    assert_eq!(q.execute(&index).len(), 0);
    let q = QueryParser::parse("+abc -def").unwrap();
    assert_eq!(q.execute(&index).len(), 0);
}
