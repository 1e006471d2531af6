use static_analyser::errors::{ErrorKind, LexError};
use static_analyser::lex::{
    skip, skip_comments, skip_whitespace, tokenize, tokenize_ident, tokenize_number,
    tokenize_single_token, TokenKind,
};

fn ident(s: &str) -> TokenKind {
    TokenKind::Identifier(s.to_string())
}

fn decimal(s: &str) -> TokenKind {
    TokenKind::Decimal(s.to_string())
}

#[test]
fn skip_past_several_whitespace_chars() {
    let src = " \t\n\r123";
    let should_be = 4;

    let num_skipped = skip_whitespace(src);
    assert_eq!(num_skipped, should_be);
}

#[test]
fn skipping_whitespace_when_first_is_a_letter_returns_zero() {
    let src = "Hello World";
    let should_be = 0;

    let num_skipped = skip_whitespace(src);
    assert_eq!(num_skipped, should_be);
}

#[test]
fn skip_whitespace_counts_bytes_of_unicode_spaces() {
    // U+00A0 and U+3000 are white space, two and three bytes long.
    assert_eq!(skip_whitespace("\u{a0}\u{3000}\u{b}x"), 6);
    assert_eq!(skip_whitespace(""), 0);
}

#[test]
fn tokenize_a_basic_expression() {
    let src = "foo = 1 + 2.34";
    let should_be = vec![
        (ident("foo"), 0, 3),
        (TokenKind::Equals, 4, 5),
        (TokenKind::Integer(1), 6, 7),
        (TokenKind::Plus, 8, 9),
        (decimal("2.34"), 10, 14),
    ];

    let got = tokenize(src).unwrap();
    assert_eq!(got, should_be);
}

#[test]
fn tokenizer_detects_invalid_stuff() {
    let src = "foo bar `%^&\\";
    let index_of_backtick = 8;

    let err = tokenize(src).unwrap_err();
    assert_eq!(err.location, index_of_backtick);
    assert_eq!(err.kind, ErrorKind::UnknownCharacter('`'));
}

#[test]
fn tokenize_empty_and_blank_text() {
    assert_eq!(tokenize("").unwrap(), vec![]);
    assert_eq!(tokenize("  // nothing\n { here } (* at all *)").unwrap(), vec![]);
}

#[test]
fn tokenize_skips_interleaved_comments() {
    let got = tokenize("  // comment\n  {block}  foo (* x *)+").unwrap();
    assert_eq!(got, vec![(ident("foo"), 24, 27), (TokenKind::Plus, 35, 36)]);
}

#[test]
fn tokenize_reports_offsets_in_bytes() {
    let got = tokenize("é = ñx").unwrap();
    assert_eq!(got, vec![(ident("é"), 0, 2), (TokenKind::Equals, 3, 4), (ident("ñx"), 5, 8)]);
}

#[test]
fn tokenize_splits_a_number_with_two_dots() {
    let got = tokenize("12.3.456").unwrap();
    assert_eq!(
        got,
        vec![(decimal("12.3"), 0, 4), (TokenKind::Dot, 4, 5), (TokenKind::Integer(456), 5, 8)]
    );
}

#[test]
fn tokenize_unterminated_comment_runs_to_the_end() {
    assert_eq!(tokenize("a { b c").unwrap(), vec![(ident("a"), 0, 1)]);
    assert_eq!(tokenize("a (* b c").unwrap(), vec![(ident("a"), 0, 1)]);
}

#[test]
fn tokenize_reports_integer_overflow_with_its_offset() {
    let err = tokenize("x 99999999999999999999999").unwrap_err();
    assert_eq!(err, LexError { location: 2, kind: ErrorKind::IntParsing });
}

#[test]
fn tokenize_reports_an_unknown_character_after_multibyte_text() {
    let err = tokenize("ñ #").unwrap_err();
    assert_eq!(err.location, 3);
    assert_eq!(err.kind, ErrorKind::UnknownCharacter('#'));
}

#[test]
fn tokenize_a_single_letter() {
    assert_eq!(tokenize_ident("F").unwrap(), (ident("F"), 1));
}

#[test]
fn tokenize_an_identifer() {
    assert_eq!(tokenize_ident("Foo").unwrap(), (ident("Foo"), 3));
}

#[test]
fn tokenize_ident_containing_an_underscore() {
    assert_eq!(tokenize_ident("Foo_bar").unwrap(), (ident("Foo_bar"), 7));
}

#[test]
fn tokenize_ident_cant_start_with_number() {
    assert_eq!(tokenize_ident("7Foo_bar"), Err(ErrorKind::IdentifierStartsWithNumber));
}

#[test]
fn tokenize_ident_cant_start_with_dot() {
    assert_eq!(tokenize_ident(".Foo_bar"), Err(ErrorKind::NoMatches));
}

#[test]
fn tokenize_ident_of_empty_text() {
    assert_eq!(tokenize_ident(""), Err(ErrorKind::UnexpectedEOF));
}

#[test]
fn tokenize_ident_with_unicode_letters() {
    assert_eq!(tokenize_ident("ñandú2 x").unwrap(), (ident("ñandú2"), 8));
    assert_eq!(tokenize_ident("_x1").unwrap(), (ident("_x1"), 3));
}

#[test]
fn tokenize_a_single_digit_integer() {
    assert_eq!(tokenize_number("1").unwrap(), (TokenKind::Integer(1), 1));
}

#[test]
fn tokenize_a_longer_integer() {
    assert_eq!(tokenize_number("1234567890").unwrap(), (TokenKind::Integer(1234567890), 10));
}

#[test]
fn tokenize_basic_decimal() {
    assert_eq!(tokenize_number("12.3").unwrap(), (decimal("12.3"), 4));
}

#[test]
fn tokenize_string_with_multiple_decimal_points() {
    assert_eq!(tokenize_number("12.3.456").unwrap(), (decimal("12.3"), 4));
}

#[test]
fn cant_tokenize_a_string_as_a_decimal() {
    assert_eq!(tokenize_number("asdfghj"), Err(ErrorKind::NoMatches));
}

#[test]
fn tokenizing_decimal_stops_at_alpha() {
    assert_eq!(tokenize_number("123.4asdfghj").unwrap(), (decimal("123.4"), 5));
}

#[test]
fn tokenize_number_edge_cases() {
    assert_eq!(tokenize_number("."), Err(ErrorKind::FloatParsing));
    assert_eq!(tokenize_number(".5").unwrap(), (decimal(".5"), 2));
    assert_eq!(tokenize_number("7.").unwrap(), (decimal("7."), 2));
    assert_eq!(tokenize_number("007").unwrap(), (TokenKind::Integer(7), 3));
    let max = usize::MAX.to_string();
    assert_eq!(tokenize_number(&max).unwrap(), (TokenKind::Integer(usize::MAX), max.len()));
    let over = format!("{}0", usize::MAX);
    assert_eq!(tokenize_number(&over), Err(ErrorKind::IntParsing));
}

#[test]
fn central_tokenizer_ident() {
    assert_eq!(tokenize_single_token("hello").unwrap(), (ident("hello"), 5));
}

#[test]
fn central_tokenizer_integer() {
    assert_eq!(tokenize_single_token("1234").unwrap(), (TokenKind::Integer(1234), 4));
}

#[test]
fn central_tokenizer_decimal() {
    assert_eq!(tokenize_single_token("123.4").unwrap(), (decimal("123.4"), 5));
}

#[test]
fn central_tokenizer_punctuation() {
    let cases = [
        (".", TokenKind::Dot),
        ("+", TokenKind::Plus),
        ("-", TokenKind::Minus),
        ("*", TokenKind::Asterisk),
        ("/", TokenKind::Slash),
        ("@", TokenKind::At),
        ("^", TokenKind::Carat),
        ("=", TokenKind::Equals),
        ("(", TokenKind::OpenParen),
        (")", TokenKind::CloseParen),
        ("[", TokenKind::OpenSquare),
        ("]", TokenKind::CloseSquare),
    ];
    for (src, kind) in cases {
        assert_eq!(tokenize_single_token(src).unwrap(), (kind, 1), "input {:?}", src);
    }
}

#[test]
fn central_tokenizer_errors() {
    assert_eq!(tokenize_single_token(""), Err(ErrorKind::UnexpectedEOF));
    assert_eq!(tokenize_single_token("`"), Err(ErrorKind::UnknownCharacter('`')));
    assert_eq!(tokenize_single_token("_a").unwrap(), (ident("_a"), 2));
}

#[test]
fn slash_slash_skips_to_end_of_line() {
    assert_eq!(skip_comments("// foo bar { baz }\n 1234"), 19);
}

#[test]
fn comment_skip_curly_braces() {
    assert_eq!(skip_comments("{ baz \n 1234} hello wor\nld"), 13);
}

#[test]
fn comment_skip_round_brackets() {
    assert_eq!(skip_comments("(* Hello World *) asd"), 17);
}

#[test]
fn comment_skip_ignores_alphanumeric() {
    assert_eq!(skip_comments("123 hello world"), 0);
}

#[test]
fn comment_skip_ignores_whitespace() {
    assert_eq!(skip_comments("   (* *) 123 hello world"), 0);
}

#[test]
fn comment_skip_edge_cases() {
    assert_eq!(skip_comments("{ never closed"), 14);
    assert_eq!(skip_comments("(*)x"), 4);
    assert_eq!(skip_comments("(*) x"), 5);
    assert_eq!(skip_comments("(**)x"), 4);
    assert_eq!(skip_comments("//\nx"), 3);
    assert_eq!(skip_comments("{}x"), 2);
    assert_eq!(skip_comments("{ é }x"), 6);
    assert_eq!(skip_comments(""), 0);
}

#[test]
fn skip_alternates_whitespace_and_comments() {
    assert_eq!(skip("  // comment\n  {block}  foo"), 24);
    assert_eq!(skip("foo"), 0);
    assert_eq!(skip(" (* a *) { b }\t"), 15);
}

#[test]
fn central_tokenizer_colon_and_semicolon() {
    assert_eq!(tokenize_single_token(":").unwrap(), (TokenKind::Colon, 1));
    assert_eq!(tokenize_single_token(";").unwrap(), (TokenKind::Semicolon, 1));
}

#[test]
fn tokenize_an_assignment_statement() {
    let got = tokenize("x := 1;").unwrap();
    assert_eq!(
        got,
        vec![
            (ident("x"), 0, 1),
            (TokenKind::Colon, 2, 3),
            (TokenKind::Equals, 3, 4),
            (TokenKind::Integer(1), 5, 6),
            (TokenKind::Semicolon, 6, 7),
        ]
    );
}

#[test]
fn tokenize_ident_must_start_with_a_letter_or_underscore() {
    assert_eq!(tokenize_ident("²x"), Err(ErrorKind::NoMatches));
    assert_eq!(tokenize_ident("+x"), Err(ErrorKind::NoMatches));
    assert_eq!(tokenize_ident("é²").unwrap(), (ident("é²"), 4));
}

#[test]
fn skip_whitespace_knows_the_unicode_white_space_characters() {
    assert_eq!(skip_whitespace("\u{85}\u{1680}\u{2000}\u{200a}\u{2028}\u{2029}x"), 17);
    assert_eq!(skip_whitespace("\u{202f}\u{205f}\u{3000}x"), 9);
    // A zero-width space is not white space.
    assert_eq!(skip_whitespace("\u{200b}x"), 0);
}

#[test]
fn errors_have_descriptions() {
    assert_eq!(ErrorKind::UnexpectedEOF.description(), "Unexpected EOF");
    assert_eq!(ErrorKind::UnknownCharacter('`').description(), "Unknown Character");
    assert_eq!(ErrorKind::NoMatches.description(), "No Matches");
    assert_eq!(
        ErrorKind::IdentifierStartsWithNumber.description(),
        "Identifiers can't start with a number"
    );
    assert_eq!(ErrorKind::IntParsing.description(), "An integer parsing error");
    assert_eq!(ErrorKind::FloatParsing.description(), "A float parsing error");
    let err = tokenize("`").unwrap_err();
    assert_eq!(err.message(), "Couldn't read the next token");
}

#[test]
fn token_kind_from_str_is_an_identifier() {
    assert_eq!(TokenKind::from("Hello"), ident("Hello"));
}
