use static_analyser::codemap::{CodeMap, Span};
use static_analyser::lex::{tokenize, Token, TokenKind};
use static_analyser::Driver;

#[test]
fn insert_a_file_into_a_codemap() {
    let mut map = CodeMap::new();
    let filename = "foo.rs";
    let content = "Hello World!";

    assert_eq!(map.files().len(), 0);
    let fm = map.insert_file(filename, content);

    assert_eq!(fm.filename(), filename);
    assert_eq!(fm.contents(), content);
    assert_eq!(map.files().len(), 1);
}

#[test]
fn get_span_for_substring() {
    let mut map = CodeMap::new();
    let src = "Hello World!";
    let fm = map.insert_file("foo.rs", src);

    let start = 2;
    let end = 5;
    let should_be = &src[start..end];

    let span = fm.insert_span(start, end);
    let got = fm.lookup(span).unwrap();
    assert_eq!(got, should_be);
    assert_eq!(fm.range_of(span).unwrap(), start..end);

    let got_from_codemap = map.lookup(span);
    assert_eq!(got_from_codemap, should_be);
}

#[test]
fn spans_for_different_ranges_are_always_unique() {
    let mut map = CodeMap::new();
    let src = "Hello World!";
    let fm = map.insert_file("foo.rs", src);

    let mut spans = Vec::new();

    for start in 0..src.len() {
        for end in start..src.len() {
            let span = fm.insert_span(start, end);
            assert!(
                !spans.contains(&span),
                "{:?} already contains {:?} ({}..{})",
                spans,
                span,
                start,
                end
            );
            assert!(span != Span::dummy());

            spans.push(span);
        }
    }
}

#[test]
fn spans_for_identical_ranges_are_identical() {
    let mut map = CodeMap::new();
    let src = "Hello World!";
    let fm = map.insert_file("foo.rs", src);

    let start = 0;
    let end = 5;

    let span_1 = fm.insert_span(start, end);
    let span_2 = fm.insert_span(start, end);

    assert_eq!(span_1, span_2);
}

#[test]
fn join_multiple_spans() {
    let mut map = CodeMap::new();
    let src = "Hello World!";
    let fm = map.insert_file("foo.rs", src);

    let span_1 = fm.insert_span(0, 2);
    let span_2 = fm.insert_span(3, 8);

    let joined = fm.merge(span_1, span_2);
    let equivalent_range = fm.range_of(joined).unwrap();

    assert_eq!(equivalent_range.start, 0);
    assert_eq!(equivalent_range.end, 8);
}

#[test]
fn merge_of_a_span_already_interned_returns_it() {
    let mut map = CodeMap::new();
    let fm = map.insert_file("foo.rs", "Hello World!");

    let whole = fm.insert_span(0, 8);
    let span_1 = fm.insert_span(0, 2);
    let span_2 = fm.insert_span(3, 8);

    assert_eq!(fm.merge(span_1, span_2), whole);
    assert_eq!(fm.merge(span_2, span_1), whole);
}

#[test]
fn merge_of_overlapping_spans_covers_both() {
    let mut map = CodeMap::new();
    let fm = map.insert_file("foo.rs", "Hello World!");

    let span_1 = fm.insert_span(4, 9);
    let span_2 = fm.insert_span(1, 6);
    let joined = fm.merge(span_1, span_2);

    assert_eq!(fm.range_of(joined).unwrap(), 1..9);
    assert_eq!(fm.lookup(joined).unwrap(), "ello Wor");
}

#[test]
fn spans_of_different_files_are_different() {
    let mut map = CodeMap::new();
    let first = map.insert_file("a.pas", "Hello World!").insert_span(0, 5);
    let fm = map.insert_file("b.pas", "Hello World!");
    let second = fm.insert_span(0, 5);

    assert_ne!(first, second);
    assert!(fm.range_of(first).is_none());
    assert!(fm.lookup(first).is_none());
    assert_eq!(map.lookup(first), "Hello");
    assert_eq!(map.lookup(second), "Hello");
    assert_eq!(map.files().len(), 2);
    assert_eq!(map.files()[1].filename(), "b.pas");
}

#[test]
fn empty_range_at_end_of_file() {
    let mut map = CodeMap::new();
    let fm = map.insert_file("foo.rs", "abc");
    let span = fm.insert_span(3, 3);

    assert_eq!(fm.range_of(span).unwrap(), 3..3);
    assert_eq!(fm.lookup(span).unwrap(), "");
}

#[test]
fn lookup_of_a_multibyte_range() {
    let mut map = CodeMap::new();
    let fm = map.insert_file("foo.rs", "añb€c");
    let span = fm.insert_span(1, 7);

    assert_eq!(fm.lookup(span).unwrap(), "ñb€");
}

#[test]
fn checked_insert_rejects_invalid_ranges() {
    let mut map = CodeMap::new();
    let fm = map.insert_file("foo.rs", "añb");

    assert_eq!(fm.try_insert_span(2, 3), None);
    assert_eq!(fm.try_insert_span(3, 1), None);
    assert_eq!(fm.try_insert_span(0, 5), None);
    let span = fm.try_insert_span(1, 3).unwrap();
    assert_eq!(fm.lookup(span).unwrap(), "ñ");
    assert_eq!(fm.try_insert_span(1, 3), Some(span));
}

#[test]
fn dummy_span_is_owned_by_no_file() {
    let mut map = CodeMap::new();
    let fm = map.insert_file("foo.rs", "Hello World!");
    fm.insert_span(0, 1);

    assert!(fm.range_of(Span::dummy()).is_none());
    assert!(fm.lookup(Span::dummy()).is_none());
}

#[test]
fn register_tokens_gives_spans_in_order() {
    let src = "foo = 1 + foo";
    let tokens = tokenize(src).unwrap();

    let mut map = CodeMap::new();
    let fm = map.insert_file("foo.pas", src);
    let registered = fm.register_tokens(tokens);

    assert_eq!(registered.len(), 5);
    assert_eq!(registered[0].kind, TokenKind::Identifier("foo".to_string()));
    assert_eq!(fm.lookup(registered[0].span).unwrap(), "foo");
    assert_eq!(fm.lookup(registered[2].span).unwrap(), "1");
    assert_eq!(registered[3].kind, TokenKind::Plus);
    assert_eq!(fm.range_of(registered[4].span).unwrap(), 10..13);
    assert_ne!(registered[0].span, registered[4].span);
    assert_eq!(registered[1].span, fm.insert_span(4, 5));
}

#[test]
fn token_new_keeps_its_parts() {
    let mut map = CodeMap::new();
    let span = map.insert_file("foo.pas", "x").insert_span(0, 1);
    let token = Token::new(span, TokenKind::Dot);

    assert_eq!(token.span, span);
    assert_eq!(token.kind, TokenKind::Dot);
    assert_eq!(Token::from(TokenKind::Plus).span, Span::dummy());
    assert_eq!(TokenKind::from(7usize), TokenKind::Integer(7));
    assert_eq!(
        TokenKind::from("abc".to_string()),
        TokenKind::Identifier("abc".to_string())
    );
}

#[test]
fn driver_owns_an_empty_codemap() {
    let mut driver = Driver::new();
    assert_eq!(driver.codemap().files().len(), 0);

    driver.codemap().insert_file("foo.pas", "x := 1");
    assert_eq!(driver.codemap().files().len(), 1);
    assert_eq!(driver.codemap().files()[0].contents(), "x := 1");
}

#[test]
fn files_can_get_spans_after_other_files_were_added() {
    let mut map = CodeMap::new();
    let first = map.insert_file("a.pas", "foo = 1").insert_span(0, 3);
    let tokens = tokenize("bar + 2").unwrap();
    let registered = map.insert_file("b.pas", "bar + 2").register_tokens(tokens);
    assert_eq!(map.lookup(registered[0].span), "bar");

    let fm = map.file_mut(0);
    let value = fm.insert_span(6, 7);
    let joined = fm.merge(first, value);
    assert_eq!(fm.range_of(joined).unwrap(), 0..7);
    assert_eq!(map.lookup(joined), "foo = 1");
    assert_eq!(map.lookup(registered[2].span), "2");
}
