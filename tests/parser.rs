use log_query::{
    get_ast_for_query, Expected, GrammarItem, LexError, LexItem, LimitDirection, ParseError,
    Parser, WhereComparator,
};

fn parse(query: &str) -> Result<log_query::ASTNode, ParseError> {
    let mut parser = Parser::new(query.into());
    parser.parse()
}

#[test]
fn lib_it_delivers_tree_for_simple_query() {
    let query = "SELECT title FROM 'app.log' WHERE severity = 'error'".into();
    let ast = get_ast_for_query(query).unwrap();
    assert_eq!(ast.entry, GrammarItem::Query);
    assert_eq!(
        ast.left.unwrap().entry,
        GrammarItem::LogFile { filename: "app.log".into(), fields: vec!["title".into()] }
    );
    assert_eq!(
        ast.right.unwrap().left.unwrap().entry,
        GrammarItem::Condition {
            field: "severity".into(),
            mode: WhereComparator::StrictEquals,
            value: "error".into()
        }
    );
}

#[test]
fn parser_it_delivers_tree_for_simple_query() {
    let query = "SELECT title FROM 'app.log' WHERE severity = 'error'".into();
    let mut parser = Parser::new(query);
    let ast = parser.parse().unwrap();
    assert_eq!(ast.entry, GrammarItem::Query);
    assert_eq!(
        ast.left.unwrap().entry,
        GrammarItem::LogFile { filename: "app.log".into(), fields: vec!["title".into()] }
    );
    let right_node = ast.right.unwrap();
    assert_eq!(
        right_node.left.unwrap().entry,
        GrammarItem::Condition {
            field: "severity".into(),
            mode: WhereComparator::StrictEquals,
            value: "error".into()
        }
    );
}

#[test]
fn it_delivers_tree_for_query_with_multiple_select_fields() {
    let query = "SELECT title, severity, date FROM 'app.log' WHERE severity = 'error'".into();
    let mut parser = Parser::new(query);
    let ast = parser.parse().unwrap();
    assert_eq!(ast.entry, GrammarItem::Query);
    assert_eq!(
        ast.left.unwrap().entry,
        GrammarItem::LogFile {
            filename: "app.log".into(),
            fields: vec!["title".into(), "severity".into(), "date".into()]
        }
    );
    let right_node = ast.right.unwrap();
    assert_eq!(
        right_node.left.unwrap().entry,
        GrammarItem::Condition {
            field: "severity".into(),
            mode: WhereComparator::StrictEquals,
            value: "error".into()
        }
    );
}

#[test]
fn it_fails_when_select_field_is_missing() {
    let query = "SELECT  FROM 'app.log' WHERE severity = 'error'".into();
    let mut parser = Parser::new(query);
    let ast = parser.parse();
    assert!(ast.is_err());
}

#[test]
fn it_fails_when_from_keyword_is_missing() {
    let query = "SELECT title, severity, date 'app.log' WHERE severity = 'error'".into();
    let mut parser = Parser::new(query);
    let ast = parser.parse();
    assert!(ast.is_err());
}

#[test]
fn it_fails_when_filename_is_missing() {
    let query = "SELECT title, severity, date FROM WHERE severity = 'error'".into();
    let mut parser = Parser::new(query);
    let ast = parser.parse();
    assert!(ast.is_err());
}

#[test]
fn it_fails_when_where_keyword_is_missing() {
    let query = "SELECT title, severity, date FROM 'app.log' severity = 'error'".into();
    let mut parser = Parser::new(query);
    let ast = parser.parse();
    assert!(ast.is_err());
}

#[test]
fn it_does_not_fail_when_where_clause_is_missing() {
    let query = "SELECT title, severity, date FROM 'app.log'".into();
    let mut parser = Parser::new(query);
    let ast = parser.parse();
    let left_ast = ast.clone();
    let right_ast = ast.clone();

    assert!(left_ast.unwrap().left.is_some());
    assert!(right_ast.unwrap().right.is_none());
}

#[test]
fn it_produces_ast_for_select_with_limit_10() {
    let query = "SELECT title, severity, date FROM 'app.log' LIMIT 10".into();
    let mut parser = Parser::new(query);

    let ast = parser.parse();
    assert!(ast.is_ok());
    let right_node = ast.unwrap().right.unwrap();
    assert_eq!(
        right_node.right.unwrap().entry,
        GrammarItem::Limit { number_of_rows: 10, direction: LimitDirection::First }
    );
}

#[test]
fn it_fails_when_limit_does_not_have_a_number() {
    let query = "SELECT title, severity, date FROM 'app.log' LIMIT".into();
    let mut parser = Parser::new(query);

    let ast = parser.parse();
    assert!(ast.is_err());
}

#[test]
fn it_produces_ast_for_select_with_limit_last_10() {
    let query = "SELECT title, severity, date FROM 'app.log' LIMIT LAST 10".into();
    let mut parser = Parser::new(query);
    let ast = parser.parse();
    assert!(ast.is_ok());
    let right_node = ast.unwrap().right.unwrap();
    assert_eq!(
        right_node.right.unwrap().entry,
        GrammarItem::Limit { number_of_rows: 10, direction: LimitDirection::Last }
    );
}

#[test]
fn it_produces_ast_for_select_with_where_clause_and_limit() {
    let query =
        "SELECT title, severity FROM 'app.log' WHERE title = 'Network connection failed' LIMIT LAST 10"
            .into();
    let mut parser = Parser::new(query);
    let ast_or_err = parser.parse();

    assert!(ast_or_err.is_ok());
    let ast = ast_or_err.unwrap();

    let right_node = *ast.right.unwrap().clone();

    let left_result_node = &right_node.left.unwrap();
    let right_result_node = &right_node.right.unwrap();

    assert_eq!(
        left_result_node.entry,
        GrammarItem::Condition {
            field: "title".into(),
            mode: WhereComparator::StrictEquals,
            value: "Network connection failed".into()
        }
    );
    assert_eq!(
        right_result_node.entry,
        GrammarItem::Limit { number_of_rows: 10, direction: LimitDirection::Last }
    );
}

#[test]
fn it_returns_error_for_query_with_limit_and_where_in_the_wrong_order() {
    let query =
        "SELECT title, severity FROM 'app.log' LIMIT LAST 10 WHERE title = 'Network connection failed'"
            .into();
    let mut parser = Parser::new(query);
    let expected_err = parser.parse();
    assert!(expected_err.is_err());
}

#[test]
fn it_raises_an_error_when_limit_number_is_negative() {
    let query = "SELECT title, severity FROM 'app.log' LIMIT LAST -10".into();
    let mut parser = Parser::new(query);
    let expected_err = parser.parse();
    assert!(expected_err.is_err());
}

#[test]
fn it_returns_ast_for_where_clause_with_like_operator() {
    let query = "SELECT title, severity FROM 'app.log' WHERE title LIKE 'dies, das'".into();

    let mut parser = Parser::new(query);
    let ast = parser.parse().unwrap();
    let right_node = *ast.right.unwrap().clone();
    let conditional_node = &right_node.left.unwrap();

    assert_eq!(
        conditional_node.entry,
        GrammarItem::Condition {
            field: "title".into(),
            mode: WhereComparator::Like,
            value: "dies, das".into()
        }
    );
}

#[test]
fn it_fails_when_where_does_not_have_like_or_equals() {
    let query = "SELECT title, severity FROM 'app.log' WHERE title 'dies, das'".into();

    let mut parser = Parser::new(query);
    let ast = parser.parse();

    assert!(ast.is_err());
}

#[test]
fn it_fails_when_where_does_have_unexpected_keyword() {
    let query = "SELECT title, severity FROM 'app.log' WHERE title Foo 'dies, das'".into();

    let mut parser = Parser::new(query);
    let ast = parser.parse();

    assert!(ast.is_err());
}

#[test]
fn it_fails_when_where_does_have_like_in_lower_case() {
    let query = "SELECT title, severity FROM 'app.log' WHERE title like 'dies, das'".into();

    let mut parser = Parser::new(query);
    let ast = parser.parse();

    assert!(ast.is_err());
}

#[test]
fn parsing_twice_gives_the_same_tree() {
    let mut parser =
        Parser::new("SELECT a, b FROM 'f.log' WHERE a LIKE 'x' LIMIT LAST 3".into());
    let first = parser.parse().unwrap();
    let second = parser.parse().unwrap();
    assert_eq!(format!("{:?}", first), format!("{:?}", second));
    let mut other = Parser::new("SELECT a FROM".into());
    assert_eq!(other.parse().unwrap_err(), other.parse().unwrap_err());
}

#[test]
fn field_list_keeps_order_and_count() {
    let ast = parse("SELECT title, severity, date, title FROM 'app.log'").unwrap();
    assert_eq!(
        ast.left.unwrap().entry,
        GrammarItem::LogFile {
            filename: "app.log".into(),
            fields: vec!["title".into(), "severity".into(), "date".into(), "title".into()]
        }
    );
}

#[test]
fn keywords_other_than_from_are_field_names() {
    let ast = parse("SELECT WHERE, LIMIT FROM 'x'").unwrap();
    assert_eq!(
        ast.left.unwrap().entry,
        GrammarItem::LogFile { filename: "x".into(), fields: vec!["WHERE".into(), "LIMIT".into()] }
    );
}

#[test]
fn no_clause_means_no_result_node() {
    let ast = parse("SELECT title FROM 'app.log'").unwrap();
    let log_file = ast.left.unwrap();
    assert!(log_file.left.is_none() && log_file.right.is_none());
    assert!(ast.right.is_none());
}

#[test]
fn where_only_leaves_limit_empty() {
    let ast = parse("SELECT title FROM 'app.log' WHERE severity = 'error'").unwrap();
    let result = ast.right.unwrap();
    assert_eq!(result.entry, GrammarItem::LogResult);
    assert!(result.left.is_some());
    assert!(result.right.is_none());
}

#[test]
fn limit_only_leaves_condition_empty() {
    let ast = parse("SELECT title, severity, date FROM 'app.log' LIMIT 10").unwrap();
    let result = ast.right.unwrap();
    assert_eq!(result.entry, GrammarItem::LogResult);
    assert!(result.left.is_none());
    assert_eq!(
        result.right.unwrap().entry,
        GrammarItem::Limit { number_of_rows: 10, direction: LimitDirection::First }
    );
}

#[test]
fn limit_before_where_is_trailing_input() {
    let err = parse("SELECT title, severity FROM 'app.log' LIMIT LAST 10 WHERE title = 'x'").unwrap_err();
    assert_eq!(
        err,
        ParseError::Unexpected {
            expected: Expected::EndOfInput,
            found: Some(LexItem::Identifier("WHERE".into()))
        }
    );
}

#[test]
fn like_must_be_upper_case() {
    for word in ["like", "Like", "LiKe", "LIKe"] {
        let query = format!("SELECT title FROM 'app.log' WHERE title {} 'x'", word);
        let err = parse(&query).unwrap_err();
        assert_eq!(
            err,
            ParseError::Unexpected {
                expected: Expected::Comparator,
                found: Some(LexItem::Identifier(word.into()))
            }
        );
    }
}

#[test]
fn equals_gives_strict_comparison() {
    let ast = parse("SELECT title FROM 'app.log' WHERE title = 'LIKE'").unwrap();
    assert_eq!(
        ast.right.unwrap().left.unwrap().entry,
        GrammarItem::Condition {
            field: "title".into(),
            mode: WhereComparator::StrictEquals,
            value: "LIKE".into()
        }
    );
}

#[test]
fn comma_inside_string_is_not_a_separator() {
    let ast = parse("SELECT title, severity FROM 'app.log' WHERE title LIKE 'dies, das' ").unwrap();
    assert_eq!(
        ast.left.unwrap().entry,
        GrammarItem::LogFile {
            filename: "app.log".into(),
            fields: vec!["title".into(), "severity".into()]
        }
    );
    assert_eq!(
        ast.right.unwrap().left.unwrap().entry,
        GrammarItem::Condition {
            field: "title".into(),
            mode: WhereComparator::Like,
            value: "dies, das".into()
        }
    );
}

#[test]
fn empty_field_list_is_rejected() {
    let err = parse("SELECT  FROM 'app.log' WHERE severity = 'error'").unwrap_err();
    assert_eq!(err, ParseError::ExpectedIdentifierGotKeyword);
}

#[test]
fn negative_limit_is_a_lexical_error() {
    let err = parse("SELECT title FROM 'app.log' LIMIT LAST -10").unwrap_err();
    assert_eq!(err, ParseError::Lex(LexError::UnexpectedChar('-')));
}

#[test]
fn comma_before_from_is_rejected() {
    let err = parse("SELECT title, FROM 'app.log'").unwrap_err();
    assert_eq!(err, ParseError::DanglingComma);
}

#[test]
fn fields_must_be_separated_by_commas() {
    let err = parse("SELECT title severity FROM 'app.log'").unwrap_err();
    assert_eq!(
        err,
        ParseError::Unexpected {
            expected: Expected::Comma,
            found: Some(LexItem::Identifier("severity".into()))
        }
    );
}

#[test]
fn leading_comma_is_rejected() {
    let err = parse("SELECT , title FROM 'app.log'").unwrap_err();
    assert_eq!(err, ParseError::Unexpected { expected: Expected::Identifier, found: Some(LexItem::Comma) });
}

#[test]
fn select_must_be_upper_case() {
    let err = parse("select title FROM 'app.log'").unwrap_err();
    assert_eq!(
        err,
        ParseError::Unexpected {
            expected: Expected::Select,
            found: Some(LexItem::Identifier("select".into()))
        }
    );
}

#[test]
fn empty_query_is_rejected() {
    let err = parse("").unwrap_err();
    assert_eq!(err, ParseError::Unexpected { expected: Expected::Select, found: Some(LexItem::EOF) });
}

#[test]
fn missing_filename_is_reported() {
    let err = parse("SELECT title FROM WHERE a = 'b'").unwrap_err();
    assert_eq!(
        err,
        ParseError::Unexpected {
            expected: Expected::StringLiteral,
            found: Some(LexItem::Identifier("WHERE".into()))
        }
    );
}

#[test]
fn missing_limit_number_is_reported() {
    let err = parse("SELECT title FROM 'app.log' LIMIT").unwrap_err();
    assert_eq!(err, ParseError::Unexpected { expected: Expected::Number, found: Some(LexItem::EOF) });
}

#[test]
fn where_field_must_be_identifier() {
    let err = parse("SELECT title FROM 'app.log' WHERE 'a' = 'b'").unwrap_err();
    assert_eq!(
        err,
        ParseError::Unexpected { expected: Expected::Identifier, found: Some(LexItem::Str("a".into())) }
    );
}

#[test]
fn where_value_must_be_string() {
    let err = parse("SELECT title FROM 'app.log' WHERE a = 5").unwrap_err();
    assert_eq!(
        err,
        ParseError::Unexpected { expected: Expected::StringLiteral, found: Some(LexItem::Number(5)) }
    );
}

#[test]
fn oversized_limit_is_a_lexical_error() {
    let query = format!("SELECT title FROM 'app.log' LIMIT {}9", usize::MAX);
    assert_eq!(parse(&query).unwrap_err(), ParseError::Lex(LexError::NumberOutOfRange));
}

#[test]
fn unterminated_filename_runs_to_end_of_input() {
    let ast = parse("SELECT title FROM 'app.log").unwrap();
    assert_eq!(
        ast.left.unwrap().entry,
        GrammarItem::LogFile { filename: "app.log".into(), fields: vec!["title".into()] }
    );
}

#[test]
fn token_stream_parses_without_lexing() {
    let tokens = vec![
        LexItem::Identifier("SELECT".into()),
        LexItem::Identifier("a".into()),
        LexItem::Identifier("FROM".into()),
        LexItem::Str("f".into()),
        LexItem::Identifier("LIMIT".into()),
        LexItem::Number(7),
        LexItem::EOF,
    ];
    let ast = log_query::parse_token_stream(tokens).unwrap();
    let result = ast.right.unwrap();
    assert!(result.left.is_none());
    assert_eq!(
        result.right.unwrap().entry,
        GrammarItem::Limit { number_of_rows: 7, direction: LimitDirection::First }
    );
}

#[test]
fn token_stream_without_eof_is_incomplete() {
    let tokens = vec![
        LexItem::Identifier("SELECT".into()),
        LexItem::Identifier("a".into()),
        LexItem::Identifier("FROM".into()),
        LexItem::Str("f".into()),
    ];
    let err = log_query::parse_token_stream(tokens).unwrap_err();
    assert_eq!(err, ParseError::Unexpected { expected: Expected::EndOfInput, found: None });
}
