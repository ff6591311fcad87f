use log_query::{consume_identifier, consume_number, consume_string, tokenize, LexError, LexItem};

#[test]
fn parse_string_consumes_until_quote() {
    let (actual_str, _) = consume_string("'app.log'", 1);
    assert_eq!(actual_str, "app.log");
}

#[test]
fn it_returns_eol_when_end_of_input_is_reached() {
    let results = tokenize(&"SELECT type FROM 'app.log' WHERE type = 'error'".into()).unwrap();
    assert_eq!(results[8], LexItem::EOF);
}

#[test]
fn it_tokenizes_simple_select_where() {
    let results = tokenize(&"SELECT type FROM 'app.log' WHERE type = 'error'".into()).unwrap();
    assert_eq!(results[0], LexItem::Identifier("SELECT".into()));
    assert_eq!(results[1], LexItem::Identifier("type".into()));
    assert_eq!(results[2], LexItem::Identifier("FROM".into()));
    assert_eq!(results[3], LexItem::Str("app.log".into()));

    assert_eq!(results[4], LexItem::Identifier("WHERE".into()));
    assert_eq!(results[5], LexItem::Identifier("type".into()));
    assert_eq!(results[6], LexItem::Equals);
    assert_eq!(results[7], LexItem::Str("error".into()));
}

#[test]
fn it_tokenizes_simple_select_with_limit() {
    let results = tokenize(&"SELECT type FROM 'app.log' LIMIT 10".into()).unwrap();
    assert_eq!(results[0], LexItem::Identifier("SELECT".into()));
    assert_eq!(results[1], LexItem::Identifier("type".into()));
    assert_eq!(results[2], LexItem::Identifier("FROM".into()));
    assert_eq!(results[3], LexItem::Str("app.log".into()));

    assert_eq!(results[4], LexItem::Identifier("LIMIT".into()));
    assert_eq!(results[5], LexItem::Number(10));
}

#[test]
fn it_tokenizes_select_with_multiple_select_fields() {
    let results = tokenize(&"SELECT type, date, severity FROM 'app.log' LIMIT 10".into()).unwrap();
    assert_eq!(results[0], LexItem::Identifier("SELECT".into()));
    assert_eq!(results[1], LexItem::Identifier("type".into()));
    assert_eq!(results[2], LexItem::Comma);
    assert_eq!(results[3], LexItem::Identifier("date".into()));
    assert_eq!(results[4], LexItem::Comma);
    assert_eq!(results[5], LexItem::Identifier("severity".into()));
    assert_eq!(results[6], LexItem::Identifier("FROM".into()));
    assert_eq!(results[7], LexItem::Str("app.log".into()));
    assert_eq!(results[8], LexItem::Identifier("LIMIT".into()));
    assert_eq!(results[9], LexItem::Number(10));
}

#[test]
fn tokenize_empty_input_gives_only_eof() {
    assert_eq!(tokenize(&"".into()).unwrap(), vec![LexItem::EOF]);
    assert_eq!(tokenize(&"   ".into()).unwrap(), vec![LexItem::EOF]);
}

#[test]
fn tokenize_splits_identifier_at_digit() {
    let results = tokenize(&"abc12def".into()).unwrap();
    assert_eq!(
        results,
        vec![
            LexItem::Identifier("abc".into()),
            LexItem::Number(12),
            LexItem::Identifier("def".into()),
            LexItem::EOF
        ]
    );
}

#[test]
fn tokenize_accepts_non_ascii_letters() {
    let results = tokenize(&"café".into()).unwrap();
    assert_eq!(results, vec![LexItem::Identifier("café".into()), LexItem::EOF]);
}

#[test]
fn tokenize_rejects_minus_sign() {
    assert_eq!(tokenize(&"LIMIT -10".into()), Err(LexError::UnexpectedChar('-')));
}

#[test]
fn tokenize_rejects_other_punctuation() {
    assert_eq!(tokenize(&"a;b".into()), Err(LexError::UnexpectedChar(';')));
    assert_eq!(tokenize(&"a\tb".into()), Err(LexError::UnexpectedChar('\t')));
}

#[test]
fn tokenize_keeps_commas_and_spaces_inside_strings() {
    let results = tokenize(&"'dies, das'".into()).unwrap();
    assert_eq!(results, vec![LexItem::Str("dies, das".into()), LexItem::EOF]);
}

#[test]
fn tokenize_unterminated_string_runs_to_end() {
    let results = tokenize(&"FROM 'app.log".into()).unwrap();
    assert_eq!(
        results,
        vec![LexItem::Identifier("FROM".into()), LexItem::Str("app.log".into()), LexItem::EOF]
    );
}

#[test]
fn tokenize_empty_string_literal() {
    let results = tokenize(&"''=".into()).unwrap();
    assert_eq!(results, vec![LexItem::Str("".into()), LexItem::Equals, LexItem::EOF]);
}

#[test]
fn tokenize_largest_number() {
    let text = format!("{}", usize::MAX);
    assert_eq!(tokenize(&text).unwrap(), vec![LexItem::Number(usize::MAX), LexItem::EOF]);
}

#[test]
fn tokenize_number_too_large() {
    let text = format!("{}0", usize::MAX);
    assert_eq!(tokenize(&text), Err(LexError::NumberOutOfRange));
}

#[test]
fn consume_number_reads_digit_run() {
    assert_eq!(consume_number("x123abc", 1), Ok((123, 4)));
    assert_eq!(consume_number("007", 0), Ok((7, 3)));
    assert_eq!(consume_number("abc", 0), Ok((0, 0)));
}

#[test]
fn consume_identifier_stops_at_non_letter() {
    assert_eq!(consume_identifier("title, x", 0), ("title".to_string(), 5));
    assert_eq!(consume_identifier("a1", 0), ("a".to_string(), 1));
}

#[test]
fn consume_string_without_closing_quote() {
    assert_eq!(consume_string("'abc", 1), ("abc".to_string(), 4));
}
