use json_validator::grammar::{ParseError, SyntaxError};
use json_validator::lexer::{LexError, LexErrorKind, TokenIter};
use json_validator::parser::Parser;
use json_validator::token::{JsonKind, Token, TokenSource};
use json_validator::validate;

fn tokens_of(data: &str) -> (Vec<Token>, Option<LexError>) {
    let mut iter = TokenIter::new(data);
    let mut tokens = Vec::new();
    loop {
        match iter.next_token() {
            Ok(Some(t)) => tokens.push(t),
            Ok(None) => return (tokens, None),
            Err(e) => return (tokens, Some(e)),
        }
    }
}

fn syntax_error(data: &str) -> SyntaxError {
    match validate(data) {
        Err(ParseError::Syntax(e)) => e,
        other => panic!("expected a grammar violation for {:?}, got {:?}", data, other),
    }
}

fn lex_error(data: &str) -> LexError {
    match validate(data) {
        Err(ParseError::Lex(e)) => e,
        other => panic!("expected a lexical error for {:?}, got {:?}", data, other),
    }
}

#[test]
fn leading_zeros_are_rejected() {
    for data in ["00", "01", "-00", "-01"] {
        assert_eq!(syntax_error(data), SyntaxError::IllegalLeadingZero { line: 1 });
    }
}

#[test]
fn single_zeros_are_accepted() {
    for data in ["0", "0.5", "0e1", "-0"] {
        assert_eq!(validate(data), Ok(()), "{:?}", data);
    }
}

#[test]
fn escaped_quote_stays_inside_the_string() {
    let data = "\"a\\\"b\"";
    let (tokens, error) = tokens_of(data);
    assert!(error.is_none());
    assert_eq!(tokens.len(), 1);
    assert_eq!(tokens[0].kind, JsonKind::StringVal);
    assert_eq!(tokens[0].text, data);
    assert_eq!(validate(data), Ok(()));
}

#[test]
fn escaped_backslash_before_closing_quote() {
    let (tokens, error) = tokens_of("[\"a\\\\\", 1]");
    assert!(error.is_none());
    assert_eq!(tokens[1].kind, JsonKind::StringVal);
    assert_eq!(tokens[1].text, "\"a\\\\\"");
    assert_eq!(validate("[\"a\\\\\", 1]"), Ok(()));
}

#[test]
fn nested_empty_arrays_are_accepted() {
    for n in 0..40 {
        let data = format!("{}{}", "[".repeat(n), "]".repeat(n));
        assert_eq!(validate(&data), Ok(()), "{}", data);
    }
}

#[test]
fn nested_arrays_missing_a_bracket_are_rejected() {
    for n in 2..40 {
        let data = format!("{}{}", "[".repeat(n), "]".repeat(n - 1));
        assert_eq!(syntax_error(&data), SyntaxError::MissingToken { expected: JsonKind::EndArray });
    }
    assert_eq!(syntax_error("["), SyntaxError::MissingValue);
}

#[test]
fn whitespace_between_tokens_keeps_the_verdict() {
    assert_eq!(validate("{\"a\":[1,true,{\"b\":null}],\"c\":\"d\"}"), Ok(()));
    assert_eq!(
        validate(" {\n\t\"a\" :\r [ 1 , true ,\n{ \"b\"\t: null } ] , \"c\" :  \"d\" \n}\n"),
        Ok(())
    );
    assert!(validate("[1,]").is_err());
    assert!(validate("[ 1 ,\n ]").is_err());
}

#[test]
fn whitespace_inside_a_number_changes_the_verdict() {
    assert_eq!(validate("[12]"), Ok(()));
    assert_eq!(
        syntax_error("[1 2]"),
        SyntaxError::Mismatch { expected: JsonKind::EndArray, found: JsonKind::Digit, line: 1 }
    );
}

#[test]
fn end_to_end_examples() {
    assert_eq!(validate("{\"a\":1}"), Ok(()));
    assert_eq!(syntax_error("{\"a\":01}"), SyntaxError::IllegalLeadingZero { line: 1 });
    assert_eq!(
        syntax_error("[1,2,]"),
        SyntaxError::UnexpectedToken { found: JsonKind::EndArray, line: 1 }
    );
    let e = lex_error("\"unterminated");
    assert_eq!(e.kind, LexErrorKind::NonterminatingString);
    assert_eq!(e.text, "\"unterminated");
    let e = lex_error("{\"a\": tru}");
    assert_eq!(e.kind, LexErrorKind::UnknownKeyword);
    assert_eq!(e.text, "tru");
    assert_eq!(e.line, 1);
}

#[test]
fn token_texts_rebuild_the_input() {
    let data = "{\n  \"k\": [-1.5e+3, \"x\\\"y\", false],\r\n\t\"n\": null\n}";
    let (tokens, error) = tokens_of(data);
    assert!(error.is_none());
    let joined: String = tokens.iter().map(|t| t.text.as_str()).collect();
    assert_eq!(joined, data);
    assert!(tokens.iter().all(|t| !t.text.is_empty()));
}

#[test]
fn token_texts_rebuild_the_input_up_to_an_error() {
    let data = "[1, 2, @]";
    let (tokens, error) = tokens_of(data);
    let joined: String = tokens.iter().map(|t| t.text.as_str()).collect();
    assert_eq!(joined, "[1, 2, ");
    let error = error.expect("a lexical error");
    assert_eq!(error.kind, LexErrorKind::UnexpectedChar);
    assert_eq!(error.text, "@");
}

#[test]
fn line_feeds_report_the_line_they_end() {
    let (tokens, _) = tokens_of("[\n1,\n\n2]");
    let lines: Vec<(JsonKind, usize)> = tokens.iter().map(|t| (t.kind, t.line)).collect();
    assert_eq!(
        lines,
        vec![
            (JsonKind::BeginArray, 1),
            (JsonKind::LineFeed, 1),
            (JsonKind::Digit, 2),
            (JsonKind::ValueSeperator, 2),
            (JsonKind::LineFeed, 2),
            (JsonKind::LineFeed, 3),
            (JsonKind::Digit, 4),
            (JsonKind::EndArray, 4),
        ]
    );
}

#[test]
fn errors_report_their_line() {
    assert_eq!(syntax_error("[\n1,\n01]"), SyntaxError::IllegalLeadingZero { line: 3 });
    assert_eq!(lex_error("[\n\n\"ab\ncd\"]").line, 3);
}

#[test]
fn grammar_violations() {
    assert_eq!(
        syntax_error("{\"a\" 1}"),
        SyntaxError::Mismatch { expected: JsonKind::NameSeperator, found: JsonKind::Digit, line: 1 }
    );
    assert_eq!(
        syntax_error("{1:2}"),
        SyntaxError::Mismatch { expected: JsonKind::StringVal, found: JsonKind::Digit, line: 1 }
    );
    assert_eq!(
        syntax_error("-["),
        SyntaxError::MismatchEither {
            expected: JsonKind::Digit,
            or: JsonKind::Zero,
            found: JsonKind::BeginArray,
            line: 1,
        }
    );
    assert_eq!(
        syntax_error("-"),
        SyntaxError::MissingEither { expected: JsonKind::Digit, or: JsonKind::Zero }
    );
    assert_eq!(syntax_error("[1"), SyntaxError::MissingToken { expected: JsonKind::EndArray });
    assert_eq!(syntax_error("{\"a\":1"), SyntaxError::MissingToken { expected: JsonKind::EndObject });
    assert_eq!(syntax_error(" "), SyntaxError::MissingValue);
    assert_eq!(syntax_error("}"), SyntaxError::UnexpectedToken { found: JsonKind::EndObject, line: 1 });
    assert_eq!(syntax_error("{,}"), SyntaxError::Mismatch {
        expected: JsonKind::StringVal,
        found: JsonKind::ValueSeperator,
        line: 1,
    });
}

#[test]
fn exponent_digits_are_left_to_the_next_element() {
    assert_eq!(validate("1e5"), Ok(()));
    assert_eq!(validate("-123.45E+12"), Ok(()));
    assert_eq!(
        syntax_error("[1e5]"),
        SyntaxError::Mismatch { expected: JsonKind::EndArray, found: JsonKind::Digit, line: 1 }
    );
}

#[test]
fn empty_input_is_accepted() {
    assert_eq!(validate(""), Ok(()));
}

#[test]
fn several_top_level_elements_are_accepted() {
    assert_eq!(validate("1 [] {} \"s\" true"), Ok(()));
}

#[test]
fn lexical_errors() {
    let e = lex_error("\"ab\ncd\"");
    assert_eq!(e.kind, LexErrorKind::MultilineString);
    assert_eq!(e.text, "\"ab");
    let e = lex_error("[@]");
    assert_eq!(e.kind, LexErrorKind::UnexpectedChar);
    assert_eq!(e.text, "@");
    let e = lex_error("[\"ab\\\"]");
    assert_eq!(e.kind, LexErrorKind::NonterminatingString);
    assert_eq!(e.text, "\"ab\\\"]");
}

#[test]
fn a_lexical_error_pulled_as_lookahead_comes_first() {
    assert_eq!(lex_error("[1,,\"abc").kind, LexErrorKind::NonterminatingString);
    assert_eq!(
        syntax_error("[1,,,\"abc"),
        SyntaxError::UnexpectedToken { found: JsonKind::ValueSeperator, line: 1 }
    );
}

#[test]
fn letters_outside_ascii_begin_a_word() {
    let e = lex_error("[éa]");
    assert_eq!(e.kind, LexErrorKind::UnknownKeyword);
    assert_eq!(e.text, "éa");
    let e = lex_error("[€]");
    assert_eq!(e.kind, LexErrorKind::UnexpectedChar);
    assert_eq!(e.text, "€");
}

#[test]
fn only_ascii_digits_are_digits() {
    let e = lex_error("[\u{663}]");
    assert_eq!(e.kind, LexErrorKind::UnexpectedChar);
    let (tokens, _) = tokens_of("7");
    assert_eq!(tokens[0].kind, JsonKind::Digit);
    assert_eq!(tokens[0].text, "7");
}

#[test]
fn keywords_need_a_word_boundary() {
    let e = lex_error("truex");
    assert_eq!(e.kind, LexErrorKind::UnknownKeyword);
    assert_eq!(e.text, "truex");
    let (tokens, error) = tokens_of("null,");
    assert!(error.is_none());
    assert_eq!(tokens[0].kind, JsonKind::Null);
    assert_eq!(tokens[0].text, "null");
    assert_eq!(tokens[1].kind, JsonKind::ValueSeperator);
}

#[test]
fn a_lexical_error_in_the_first_two_tokens_is_reported_by_start() {
    let mut parser = Parser::new(TokenIter::new("[\"abc"));
    match parser.start() {
        Err(ParseError::Lex(e)) => assert_eq!(e.kind, LexErrorKind::NonterminatingString),
        other => panic!("expected a lexical error, got {:?}", other),
    }
}

#[test]
fn inserted_whitespace_adds_tokens_and_moves_later_lines() {
    let (before, _) = tokens_of("[1,2]");
    let (after, _) = tokens_of("[1,\n \n2]");
    assert_eq!(after.len(), before.len() + 3);
    assert_eq!(after[3].kind, JsonKind::LineFeed);
    assert_eq!(after[4].kind, JsonKind::Space);
    assert_eq!(after[5].kind, JsonKind::LineFeed);
    assert_eq!(after[6].kind, JsonKind::Digit);
    assert_eq!(after[6].line, before[3].line + 2);
    assert_eq!(after[7].line, before[4].line + 2);
    assert_eq!(validate("[1,\n \n2]"), validate("[1,2]"));
}
