//! Lexical analysis: turning source text into located tokens.

use vstd::prelude::*;
use vstd::utf8::*;
use vstd::string::*;
use crate::codemap::{substring, Span};
use crate::errors::{ErrorKind, LexError};

verus! {

broadcast use vstd::utf8::group_utf8_lib;

/// Any token of the language.
#[derive(Clone, Debug, PartialEq)]
pub enum TokenKind {
    Integer(usize),
    /// A decimal literal, as written: digits around exactly one dot.
    Decimal(String),
    Identifier(String),
    QuotedString(String),
    Asterisk,
    At,
    Carat,
    CloseParen,
    CloseSquare,
    Colon,
    Dot,
    End,
    Equals,
    Minus,
    OpenParen,
    OpenSquare,
    Plus,
    Semicolon,
    Slash,
}

/// The mathematical value of a `TokenKind`.
pub enum KindView {
    Integer(nat),
    Decimal(Seq<char>),
    Identifier(Seq<char>),
    QuotedString(Seq<char>),
    Asterisk,
    At,
    Carat,
    CloseParen,
    CloseSquare,
    Colon,
    Dot,
    End,
    Equals,
    Minus,
    OpenParen,
    OpenSquare,
    Plus,
    Semicolon,
    Slash,
}

impl View for TokenKind {
    type V = KindView;

    open spec fn view(&self) -> KindView {
        match self {
            TokenKind::Integer(n) => KindView::Integer(*n as nat),
            TokenKind::Decimal(s) => KindView::Decimal(s@),
            TokenKind::Identifier(s) => KindView::Identifier(s@),
            TokenKind::QuotedString(s) => KindView::QuotedString(s@),
            TokenKind::Asterisk => KindView::Asterisk,
            TokenKind::At => KindView::At,
            TokenKind::Carat => KindView::Carat,
            TokenKind::CloseParen => KindView::CloseParen,
            TokenKind::CloseSquare => KindView::CloseSquare,
            TokenKind::Colon => KindView::Colon,
            TokenKind::Dot => KindView::Dot,
            TokenKind::End => KindView::End,
            TokenKind::Equals => KindView::Equals,
            TokenKind::Minus => KindView::Minus,
            TokenKind::OpenParen => KindView::OpenParen,
            TokenKind::OpenSquare => KindView::OpenSquare,
            TokenKind::Plus => KindView::Plus,
            TokenKind::Semicolon => KindView::Semicolon,
            TokenKind::Slash => KindView::Slash,
        }
    }
}

/// Whether a character outside ASCII is alphabetic, as `char::is_alphabetic` says.
pub uninterp spec fn alphabetic_of(c: char) -> bool;

/// Whether a character outside ASCII is alphanumeric, as `char::is_alphanumeric` says.
pub uninterp spec fn alphanumeric_of(c: char) -> bool;

/// A character of the ASCII range.
pub open spec fn is_ascii_char(c: char) -> bool {
    (c as u32) < 0x80
}

/// A decimal digit.
pub open spec fn is_digit(c: char) -> bool {
    '0' <= c && c <= '9'
}

/// A letter of the ASCII range.
pub open spec fn is_ascii_letter(c: char) -> bool {
    ('a' <= c && c <= 'z') || ('A' <= c && c <= 'Z')
}

/// White space, as Unicode's White_Space property has it: in ASCII the
/// space and tab to carriage return, and nineteen characters beyond.
pub open spec fn is_space(c: char) -> bool {
    if is_ascii_char(c) {
        c == ' ' || ('\t' <= c && c <= '\r')
    } else {
        unicode_space_code(c as u32)
    }
}

/// The code points outside ASCII with the White_Space property.
pub open spec fn unicode_space_code(v: u32) -> bool {
    v == 0x85 || v == 0xA0 || v == 0x1680 || (0x2000 <= v && v <= 0x200A) || v == 0x2028
        || v == 0x2029 || v == 0x202F || v == 0x205F || v == 0x3000
}

/// A letter, which may start an identifier.
pub open spec fn is_alpha(c: char) -> bool {
    if is_ascii_char(c) {
        is_ascii_letter(c)
    } else {
        alphabetic_of(c)
    }
}

/// A character that may continue an identifier.
pub open spec fn is_ident_char(c: char) -> bool {
    c == '_' || if is_ascii_char(c) {
        is_ascii_letter(c) || is_digit(c)
    } else {
        alphanumeric_of(c)
    }
}

/// The kinds of characters that the lexer consumes in runs.
#[derive(Clone, Copy, Debug, PartialEq, Eq, Structural)]
pub enum CharClass {
    /// White space.
    Space,
    /// Decimal digits.
    Digit,
    /// Letters, digits and underscores.
    Ident,
}

/// The character belongs to the class.
pub open spec fn in_class(cl: CharClass, c: char) -> bool {
    match cl {
        CharClass::Space => is_space(c),
        CharClass::Digit => is_digit(c),
        CharClass::Ident => is_ident_char(c),
    }
}

/// The length of the longest prefix of `t` whose characters are all in `cl`.
pub open spec fn run_len(t: Seq<char>, cl: CharClass) -> nat
    decreases t.len(),
{
    if t.len() > 0 && in_class(cl, t[0]) {
        1 + run_len(t.drop_first(), cl)
    } else {
        0
    }
}

/// A run is a prefix of characters in the class, followed by the end of
/// the text or by a character outside it; there is exactly one.
pub proof fn lemma_run_len(t: Seq<char>, cl: CharClass)
    ensures
        run_len(t, cl) <= t.len(),
        forall|j: int| 0 <= j < run_len(t, cl) ==> in_class(cl, #[trigger] t[j]),
        run_len(t, cl) < t.len() ==> !in_class(cl, t[run_len(t, cl) as int]),
    decreases t.len(),
{
    if t.len() > 0 && in_class(cl, t[0]) {
        lemma_run_len(t.drop_first(), cl);
        assert forall|j: int| 0 <= j < run_len(t, cl) implies in_class(cl, #[trigger] t[j]) by {
            if j > 0 {
                assert(t[j] == t.drop_first()[j - 1]);
            }
        }
    }
}

/// The run is the only length with the properties above.
pub proof fn lemma_run_len_unique(t: Seq<char>, cl: CharClass, n: int)
    requires
        0 <= n <= t.len(),
        forall|j: int| 0 <= j < n ==> in_class(cl, #[trigger] t[j]),
        n < t.len() ==> !in_class(cl, t[n]),
    ensures
        run_len(t, cl) == n,
{
    lemma_run_len(t, cl);
    let r = run_len(t, cl) as int;
    if r < n {
        assert(in_class(cl, t[r]));
    } else if n < r {
        assert(in_class(cl, t[n]));
    }
}

/// A numeric literal: digits, then at most one dot followed by more digits.
pub open spec fn number_len(t: Seq<char>) -> nat {
    let a = run_len(t, CharClass::Digit);
    if number_has_dot(t) {
        a + 1 + run_len(t.skip(a + 1 as int), CharClass::Digit)
    } else {
        a
    }
}

/// The numeric literal at the start of `t` holds a dot.
pub open spec fn number_has_dot(t: Seq<char>) -> bool {
    let a = run_len(t, CharClass::Digit);
    a < t.len() && t[a as int] == '.'
}

/// The value of a digit.
pub open spec fn digit_value(c: char) -> nat {
    ((c as u32) - ('0' as u32)) as nat
}

/// The value of a sequence of decimal digits.
pub open spec fn digits_value(ds: Seq<char>) -> nat
    decreases ds.len(),
{
    if ds.len() == 0 {
        0
    } else {
        digits_value(ds.drop_last()) * 10 + digit_value(ds.last())
    }
}

/// Reading a number: the token and the number of characters it takes.
pub open spec fn lex_number(t: Seq<char>) -> Result<(KindView, nat), ErrorKind> {
    let n = number_len(t);
    if n == 0 {
        Err(ErrorKind::NoMatches)
    } else if number_has_dot(t) {
        if n == 1 {
            Err(ErrorKind::FloatParsing)
        } else {
            Ok((KindView::Decimal(t.take(n as int)), n))
        }
    } else if digits_value(t.take(n as int)) <= usize::MAX {
        Ok((KindView::Integer(digits_value(t.take(n as int))), n))
    } else {
        Err(ErrorKind::IntParsing)
    }
}

/// Reading an identifier.
pub open spec fn lex_ident(t: Seq<char>) -> Result<(KindView, nat), ErrorKind> {
    if t.len() == 0 {
        Err(ErrorKind::UnexpectedEOF)
    } else if is_digit(t[0]) {
        Err(ErrorKind::IdentifierStartsWithNumber)
    } else if !(t[0] == '_' || is_alpha(t[0])) {
        Err(ErrorKind::NoMatches)
    } else {
        Ok((KindView::Identifier(t.take(ident_len(t) as int)), ident_len(t)))
    }
}

/// The length of an identifier: its first character, then the run of
/// letters, digits and underscores after it.
pub open spec fn ident_len(t: Seq<char>) -> nat {
    1 + run_len(t.drop_first(), CharClass::Ident)
}

/// The token of a single punctuation character.
pub open spec fn punct(c: char) -> Option<KindView> {
    if c == '.' {
        Some(KindView::Dot)
    } else if c == '=' {
        Some(KindView::Equals)
    } else if c == '+' {
        Some(KindView::Plus)
    } else if c == '-' {
        Some(KindView::Minus)
    } else if c == '*' {
        Some(KindView::Asterisk)
    } else if c == '/' {
        Some(KindView::Slash)
    } else if c == '@' {
        Some(KindView::At)
    } else if c == '^' {
        Some(KindView::Carat)
    } else if c == '(' {
        Some(KindView::OpenParen)
    } else if c == ')' {
        Some(KindView::CloseParen)
    } else if c == '[' {
        Some(KindView::OpenSquare)
    } else if c == ']' {
        Some(KindView::CloseSquare)
    } else if c == ':' {
        Some(KindView::Colon)
    } else if c == ';' {
        Some(KindView::Semicolon)
    } else {
        None
    }
}

/// Reading the token at the start of `t`, chosen by its first character.
pub open spec fn lex_single(t: Seq<char>) -> Result<(KindView, nat), ErrorKind> {
    if t.len() == 0 {
        Err(ErrorKind::UnexpectedEOF)
    } else if punct(t[0]) is Some {
        Ok((punct(t[0])->0, 1))
    } else if is_digit(t[0]) {
        lex_number(t)
    } else if t[0] == '_' || is_alpha(t[0]) {
        lex_ident(t)
    } else {
        Err(ErrorKind::UnknownCharacter(t[0]))
    }
}

/// A token, when one is read, takes at least one character and no more
/// than there are.
pub proof fn lemma_lex_single_len(t: Seq<char>)
    ensures
        lex_single(t) matches Ok((_, n)) ==> 1 <= n <= t.len(),
{
    lemma_run_len(t, CharClass::Digit);
    if t.len() > 0 {
        lemma_run_len(t.drop_first(), CharClass::Ident);
    }
    let a = run_len(t, CharClass::Digit);
    if number_has_dot(t) {
        lemma_run_len(t.skip(a + 1 as int), CharClass::Digit);
    }
}

/// `pat` stands in `t` at position `i`.
pub open spec fn occurs_at(t: Seq<char>, pat: Seq<char>, i: int) -> bool {
    0 <= i && i + pat.len() <= t.len() && t.subrange(i, i + pat.len()) == pat
}

/// `i` is the first position of `pat` in `t`.
pub open spec fn first_occurrence(t: Seq<char>, pat: Seq<char>, i: int) -> bool {
    occurs_at(t, pat, i) && forall|j: int| 0 <= j < i ==> !occurs_at(t, pat, j)
}

/// How much of `t` runs up to and through the first `pat`; all of `t` when
/// `pat` does not occur.
pub open spec fn until_len(t: Seq<char>, pat: Seq<char>) -> nat {
    if exists|i: int| first_occurrence(t, pat, i) {
        (choose|i: int| first_occurrence(t, pat, i)) as nat + pat.len()
    } else {
        t.len()
    }
}

/// The opening and closing marks of the three comment forms.
pub open spec fn line_comment_open() -> Seq<char> {
    seq!['/', '/']
}

pub open spec fn line_comment_close() -> Seq<char> {
    seq!['\n']
}

pub open spec fn brace_comment_open() -> Seq<char> {
    seq!['{']
}

pub open spec fn brace_comment_close() -> Seq<char> {
    seq!['}']
}

pub open spec fn paren_comment_open() -> Seq<char> {
    seq!['(', '*']
}

pub open spec fn paren_comment_close() -> Seq<char> {
    seq!['*', ')']
}

/// The length of a comment that opens with `open` at the start of `t`: the
/// opening mark, then the text up to and through the first `close` after it.
pub open spec fn delimited_len(t: Seq<char>, open: Seq<char>, close: Seq<char>) -> nat {
    open.len() + until_len(t.skip(open.len() as int), close)
}

/// The length of the comment at the start of `t`, 0 where none starts.
pub open spec fn comment_len(t: Seq<char>) -> nat {
    if occurs_at(t, line_comment_open(), 0) {
        delimited_len(t, line_comment_open(), line_comment_close())
    } else if occurs_at(t, brace_comment_open(), 0) {
        delimited_len(t, brace_comment_open(), brace_comment_close())
    } else if occurs_at(t, paren_comment_open(), 0) {
        delimited_len(t, paren_comment_open(), paren_comment_close())
    } else {
        0
    }
}

/// Searching for a pattern consumes no more than the whole text.
proof fn lemma_until_len(t: Seq<char>, pat: Seq<char>)
    ensures
        until_len(t, pat) <= t.len(),
{
    if exists|i: int| first_occurrence(t, pat, i) {
        let i = choose|i: int| first_occurrence(t, pat, i);
        assert(first_occurrence(t, pat, i));
    }
}

/// A comment, where one starts, takes at least one character and no more
/// than there are.
pub proof fn lemma_comment_len(t: Seq<char>)
    ensures
        comment_len(t) <= t.len(),
        (occurs_at(t, line_comment_open(), 0) || occurs_at(t, brace_comment_open(), 0)
            || occurs_at(t, paren_comment_open(), 0)) ==> comment_len(t) > 0,
{
    if occurs_at(t, line_comment_open(), 0) {
        lemma_until_len(t.skip(2), line_comment_close());
    } else if occurs_at(t, brace_comment_open(), 0) {
        lemma_until_len(t.skip(1), brace_comment_close());
    } else if occurs_at(t, paren_comment_open(), 0) {
        lemma_until_len(t.skip(2), paren_comment_close());
    }
}

/// How much of `t` is white space and comments, in any interleaving.
pub open spec fn skip_len(t: Seq<char>) -> nat
    decreases t.len(),
{
    let w = run_len(t, CharClass::Space);
    let c = comment_len(t.skip(w as int));
    if w + c == 0 {
        0
    } else {
        proof {
            lemma_run_len(t, CharClass::Space);
            lemma_comment_len(t.skip(w as int));
        }
        w + c + skip_len(t.skip((w + c) as int))
    }
}

/// White space and comments take no more than the whole text.
pub proof fn lemma_skip_len(t: Seq<char>)
    ensures
        skip_len(t) <= t.len(),
    decreases t.len(),
{
    let w = run_len(t, CharClass::Space);
    lemma_run_len(t, CharClass::Space);
    lemma_comment_len(t.skip(w as int));
    let c = comment_len(t.skip(w as int));
    if w + c > 0 {
        lemma_skip_len(t.skip((w + c) as int));
    }
}

/// The byte offset of the character at position `p` of `s`.
pub open spec fn byte_offset(s: Seq<char>, p: int) -> nat {
    encode_utf8(s.take(p)).len()
}

/// The tokens of `s` from character position `pos` on, each with its
/// half-open byte range; or the byte offset and the reason of the first
/// failure.
pub open spec fn lex_from(s: Seq<char>, pos: int) -> Result<Seq<(KindView, nat, nat)>, (nat, ErrorKind)>
    decreases s.len() - pos,
{
    if pos < 0 || pos >= s.len() {
        Ok(Seq::empty())
    } else {
        let p = pos + skip_len(s.skip(pos));
        if p >= s.len() {
            Ok(Seq::empty())
        } else {
            match lex_single(s.skip(p)) {
                Err(e) => Err((byte_offset(s, p), e)),
                Ok((kind, n)) => {
                    proof {
                        lemma_lex_single_len(s.skip(p));
                    }
                    match lex_from(s, p + n) {
                        Ok(rest) => Ok(seq![(kind, byte_offset(s, p), byte_offset(s, p + n))] + rest),
                        Err(e) => Err(e),
                    }
                }
            }
        }
    }
}

/// What a sub-lexer returns, with the length in characters, agrees with
/// the mathematical result.
pub open spec fn agrees(r: Result<(TokenKind, usize), ErrorKind>, e: Result<(KindView, nat), ErrorKind>) -> bool {
    match e {
        Ok((k, n)) => r matches Ok((rk, rn)) && rk@ == k && rn == n,
        Err(err) => r == Err::<(TokenKind, usize), ErrorKind>(err),
    }
}

/// As `agrees`, with the length in bytes of the text `s`.
pub open spec fn agrees_bytes(
    r: Result<(TokenKind, usize), ErrorKind>,
    s: Seq<char>,
    e: Result<(KindView, nat), ErrorKind>,
) -> bool {
    match e {
        Ok((k, n)) => r matches Ok((rk, rb)) && rk@ == k && rb == byte_offset(s, n as int),
        Err(err) => r == Err::<(TokenKind, usize), ErrorKind>(err),
    }
}

/// The UTF-8 encoding of two texts one after the other is the encoding of
/// the first followed by that of the second.
pub proof fn lemma_encode_concat(a: Seq<char>, b: Seq<char>)
    ensures
        encode_utf8(a + b) == encode_utf8(a) + encode_utf8(b),
    decreases a.len(),
{
    if a.len() == 0 {
        assert(a + b =~= b);
        assert(encode_utf8(a) + encode_utf8(b) =~= encode_utf8(b));
    } else {
        lemma_encode_concat(a.drop_first(), b);
        assert((a + b).drop_first() =~= a.drop_first() + b);
        assert(encode_utf8(a + b) =~= encode_utf8(a) + encode_utf8(b));
    }
}

/// The byte offsets of a text grow by the width of each character.
proof fn lemma_byte_offset_step(s: Seq<char>, p: int)
    requires
        0 <= p < s.len(),
    ensures
        byte_offset(s, p + 1) == byte_offset(s, p) + encode_scalar(s[p] as u32).len(),
        byte_offset(s, p + 1) <= encode_utf8(s).len(),
{
    lemma_encode_concat(s.take(p), seq![s[p]]);
    assert(s.take(p + 1) =~= s.take(p) + seq![s[p]]);
    let one = seq![s[p]];
    assert(one.drop_first() =~= Seq::<char>::empty());
    assert(encode_utf8(one.drop_first()) =~= Seq::<u8>::empty());
    assert(encode_utf8(one) =~= encode_scalar(s[p] as u32));
    lemma_encode_concat(s.take(p + 1), s.skip(p + 1));
    assert(s =~= s.take(p + 1) + s.skip(p + 1));
}

/// A byte offset lies within the encoding of the whole text.
proof fn lemma_byte_offset_bound(s: Seq<char>, p: int)
    requires
        0 <= p <= s.len(),
    ensures
        byte_offset(s, p) <= encode_utf8(s).len(),
{
    lemma_encode_concat(s.take(p), s.skip(p));
    assert(s =~= s.take(p) + s.skip(p));
}

/// The byte offset of every character position is a character boundary of
/// the encoded text.
pub proof fn lemma_byte_offset_boundary(s: Seq<char>, p: int)
    requires
        0 <= p <= s.len(),
    ensures
        is_char_boundary(encode_utf8(s), byte_offset(s, p) as int),
    decreases p,
{
    let bytes = encode_utf8(s);
    if p == 0 {
        assert(s.take(0) =~= Seq::<char>::empty());
    } else {
        let tail = s.drop_first();
        encode_utf8_first_scalar(s);
        assert(pop_first_scalar(bytes) =~= encode_utf8(tail));
        lemma_byte_offset_boundary(tail, p - 1);
        lemma_encode_concat(seq![s[0]], tail.take(p - 1));
        assert(s.take(p) =~= seq![s[0]] + tail.take(p - 1));
        let one = seq![s[0]];
        assert(one.drop_first() =~= Seq::<char>::empty());
        assert(encode_utf8(one.drop_first()) =~= Seq::<u8>::empty());
        assert(encode_utf8(one) =~= encode_scalar(s[0] as u32));
        lemma_byte_offset_bound(s, p);
    }
}

/// Relies on `char::is_alphabetic`, for characters outside ASCII.
#[verifier::external_body]
fn unicode_alphabetic(c: char) -> (r: bool)
    ensures
        r == alphabetic_of(c),
{
    c.is_alphabetic()
}

/// Relies on `char::is_alphanumeric`, for characters outside ASCII.
#[verifier::external_body]
fn unicode_alphanumeric(c: char) -> (r: bool)
    ensures
        r == alphanumeric_of(c),
{
    c.is_alphanumeric()
}

/// The characters of the string, in order.
fn chars_of(s: &str) -> (r: Vec<char>)
    ensures
        r@ == s@,
{
    let mut out: Vec<char> = Vec::new();
    for c in it: s.chars()
        invariant
            out@ == it.seq().take(it.index() as int),
    {
        out.push(c);
    }
    out
}

/// The number of bytes in the UTF-8 encoding of a character.
fn char_width(c: char) -> (r: usize)
    ensures
        r == encode_scalar(c as u32).len(),
{
    let v = c as u32;
    if v < 0x80 {
        1
    } else if v < 0x800 {
        2
    } else if v < 0x10000 {
        3
    } else {
        4
    }
}

/// Whether the character is a decimal digit.
fn is_digit_char(c: char) -> (r: bool)
    ensures
        r == is_digit(c),
{
    '0' <= c && c <= '9'
}

/// Whether the character is an ASCII letter.
fn is_ascii_letter_char(c: char) -> (r: bool)
    ensures
        r == is_ascii_letter(c),
{
    ('a' <= c && c <= 'z') || ('A' <= c && c <= 'Z')
}

/// Whether the character may start an identifier, besides `_`.
fn is_alpha_char(c: char) -> (r: bool)
    ensures
        r == is_alpha(c),
{
    if (c as u32) < 0x80 {
        is_ascii_letter_char(c)
    } else {
        unicode_alphabetic(c)
    }
}

/// Whether the character belongs to the class.
fn is_in_class(cl: CharClass, c: char) -> (r: bool)
    ensures
        r == in_class(cl, c),
{
    match cl {
        CharClass::Space => {
            if (c as u32) < 0x80 {
                c == ' ' || ('\t' <= c && c <= '\r')
            } else {
                let v = c as u32;
                v == 0x85 || v == 0xA0 || v == 0x1680 || (0x2000 <= v && v <= 0x200A) || v
                    == 0x2028 || v == 0x2029 || v == 0x202F || v == 0x205F || v == 0x3000
            }
        },
        CharClass::Digit => is_digit_char(c),
        CharClass::Ident => {
            c == '_' || if (c as u32) < 0x80 {
                is_ascii_letter_char(c) || is_digit_char(c)
            } else {
                unicode_alphanumeric(c)
            }
        },
    }
}

/// The number of bytes that the characters `cs[from..to]` take.
fn byte_len(cs: &Vec<char>, from: usize, to: usize) -> (r: usize)
    requires
        from <= to <= cs.len(),
        encode_utf8(cs@).len() <= usize::MAX,
    ensures
        r == byte_offset(cs@, to as int) - byte_offset(cs@, from as int),
{
    let mut i = from;
    let mut total: usize = 0;
    proof {
        lemma_byte_offset_bound(cs@, from as int);
    }
    while i < to
        invariant
            from <= i <= to <= cs.len(),
            encode_utf8(cs@).len() <= usize::MAX,
            total == byte_offset(cs@, i as int) - byte_offset(cs@, from as int),
            byte_offset(cs@, from as int) <= byte_offset(cs@, i as int) <= encode_utf8(cs@).len(),
        decreases to - i,
    {
        proof {
            lemma_byte_offset_bound(cs@, from as int);
            lemma_byte_offset_step(cs@, i as int);
        }
        total = total + char_width(cs[i]);
        i = i + 1;
    }
    total
}

/// The bytes between the offsets of two character positions encode the
/// characters between them.
proof fn lemma_encode_subrange(s: Seq<char>, p: int, q: int)
    requires
        0 <= p <= q <= s.len(),
    ensures
        encode_utf8(s).subrange(byte_offset(s, p) as int, byte_offset(s, q) as int) == encode_utf8(
            s.subrange(p, q),
        ),
{
    lemma_encode_concat(s.take(p), s.subrange(p, q));
    assert(s.take(q) =~= s.take(p) + s.subrange(p, q));
    lemma_encode_concat(s.take(q), s.skip(q));
    assert(s =~= s.take(q) + s.skip(q));
    assert(encode_utf8(s).subrange(byte_offset(s, p) as int, byte_offset(s, q) as int)
        =~= encode_utf8(s.subrange(p, q)));
}

/// The text of the `n` characters at position `pos` of `src`, whose byte
/// offset is `off`.
fn text_of(src: &str, cs: &Vec<char>, pos: usize, off: usize, n: usize) -> (r: String)
    requires
        src@ == cs@,
        pos + n <= cs.len(),
        off == byte_offset(cs@, pos as int),
        encode_utf8(cs@).len() <= usize::MAX,
    ensures
        r@ == cs@.subrange(pos as int, pos + n),
{
    let len = byte_len(cs, pos, pos + n);
    proof {
        lemma_byte_offset_boundary(cs@, pos as int);
        lemma_byte_offset_boundary(cs@, pos + n);
        lemma_byte_offset_bound(cs@, pos + n);
        lemma_encode_subrange(cs@, pos as int, pos + n);
    }
    let piece = substring(src, off, off + len);
    proof {
        let mid = cs@.subrange(pos as int, pos + n);
        assert(encode_utf8(piece@) == encode_utf8(mid));
        assert(decode_utf8(encode_utf8(piece@)) == piece@);
        assert(decode_utf8(encode_utf8(mid)) == mid);
    }
    String::from_str(piece)
}

/// Consumes the characters of a class from position `pos`: how many there
/// are, or `NoMatches` where there is none.
fn take_while(cs: &Vec<char>, pos: usize, cl: CharClass) -> (r: Result<usize, ErrorKind>)
    requires
        pos <= cs.len(),
    ensures
        run_len(cs@.skip(pos as int), cl) == 0 ==> r == Err::<usize, ErrorKind>(ErrorKind::NoMatches),
        run_len(cs@.skip(pos as int), cl) > 0 ==> r == Ok::<usize, ErrorKind>(run_len(cs@.skip(pos as int), cl) as usize),
{
    let mut i = pos;
    while i < cs.len()
        invariant
            pos <= i <= cs.len(),
            forall|j: int| pos <= j < i ==> in_class(cl, #[trigger] cs@[j]),
        ensures
            pos <= i <= cs.len(),
            forall|j: int| pos <= j < i ==> in_class(cl, #[trigger] cs@[j]),
            i < cs.len() ==> !in_class(cl, cs@[i as int]),
        decreases cs.len() - i,
    {
        if !is_in_class(cl, cs[i]) {
            break;
        }
        i = i + 1;
    }
    proof {
        let t = cs@.skip(pos as int);
        assert forall|j: int| 0 <= j < i - pos implies in_class(cl, #[trigger] t[j]) by {
            assert(t[j] == cs@[pos + j]);
        }
        if i < cs.len() {
            assert(t[i - pos] == cs@[i as int]);
        }
        lemma_run_len_unique(t, cl, i - pos);
    }
    if i == pos {
        Err(ErrorKind::NoMatches)
    } else {
        Ok(i - pos)
    }
}

/// Each digit appended multiplies the value by ten and adds the digit, so
/// the value of a prefix never exceeds that of the whole.
proof fn lemma_digits_value_prefix(ds: Seq<char>, k: int)
    requires
        0 <= k <= ds.len(),
    ensures
        digits_value(ds.take(k)) <= digits_value(ds),
    decreases ds.len() - k,
{
    if k < ds.len() {
        lemma_digits_value_prefix(ds, k + 1);
        assert(ds.take(k + 1).drop_last() =~= ds.take(k));
    } else {
        assert(ds.take(k) =~= ds);
    }
}

/// The value of the digits `cs[start..end]`, or `None` where it does not
/// fit in a `usize`.
fn parse_digits(cs: &Vec<char>, start: usize, end: usize) -> (r: Option<usize>)
    requires
        start <= end <= cs.len(),
        forall|j: int| start <= j < end ==> is_digit(#[trigger] cs@[j]),
    ensures
        r is Some <==> digits_value(cs@.subrange(start as int, end as int)) <= usize::MAX,
        r matches Some(v) ==> v == digits_value(cs@.subrange(start as int, end as int)),
{
    let ghost ds = cs@.subrange(start as int, end as int);
    let mut value: usize = 0;
    let mut i = start;
    while i < end
        invariant
            start <= i <= end <= cs.len(),
            ds == cs@.subrange(start as int, end as int),
            forall|j: int| start <= j < end ==> is_digit(#[trigger] cs@[j]),
            value == digits_value(cs@.subrange(start as int, i as int)),
        decreases end - i,
    {
        let c = cs[i];
        let d = (c as u32 - '0' as u32) as usize;
        proof {
            assert(cs@.subrange(start as int, i + 1).drop_last() =~= cs@.subrange(start as int, i as int));
            assert(ds.take(i + 1 - start) =~= cs@.subrange(start as int, i + 1));
            lemma_digits_value_prefix(ds, i + 1 - start);
        }
        let tens = match value.checked_mul(10) {
            Some(t) => t,
            None => {
                return None;
            },
        };
        match tens.checked_add(d) {
            Some(v) => {
                value = v;
            },
            None => {
                return None;
            },
        }
        i = i + 1;
    }
    Some(value)
}

/// Reads a numeric literal at position `pos`: a run of digits with at most
/// one dot. With a dot it is a decimal, else an integer.
fn tokenize_number_at(src: &str, cs: &Vec<char>, pos: usize, off: usize) -> (r: Result<(TokenKind, usize), ErrorKind>)
    requires
        pos <= cs.len(),
        src@ == cs@,
        off == byte_offset(cs@, pos as int),
        encode_utf8(cs@).len() <= usize::MAX,
    ensures
        agrees(r, lex_number(cs@.skip(pos as int))),
{
    let ghost t = cs@.skip(pos as int);
    let a = match take_while(cs, pos, CharClass::Digit) {
        Ok(n) => n,
        Err(_) => 0,
    };
    proof {
        lemma_run_len(t, CharClass::Digit);
    }
    let seen_dot = pos + a < cs.len() && cs[pos + a] == '.';
    let mut n = a;
    if seen_dot {
        let b = match take_while(cs, pos + a + 1, CharClass::Digit) {
            Ok(m) => m,
            Err(_) => 0,
        };
        proof {
            assert(t.skip(a + 1 as int) =~= cs@.skip(pos + a + 1));
            lemma_run_len(cs@.skip(pos + a + 1), CharClass::Digit);
        }
        n = a + 1 + b;
    }
    assert(t.take(n as int) =~= cs@.subrange(pos as int, pos + n));
    if n == 0 {
        Err(ErrorKind::NoMatches)
    } else if seen_dot {
        if n == 1 {
            Err(ErrorKind::FloatParsing)
        } else {
            Ok((TokenKind::Decimal(text_of(src, cs, pos, off, n)), n))
        }
    } else {
        assert forall|j: int| pos <= j < pos + n implies is_digit(#[trigger] cs@[j]) by {
            assert(cs@[j] == t[j - pos]);
        }
        match parse_digits(cs, pos, pos + n) {
            Some(v) => Ok((TokenKind::Integer(v), n)),
            None => Err(ErrorKind::IntParsing),
        }
    }
}

/// Reads an identifier at position `pos`: a run of letters, digits and
/// underscores that does not start with a digit.
fn tokenize_ident_at(src: &str, cs: &Vec<char>, pos: usize, off: usize) -> (r: Result<(TokenKind, usize), ErrorKind>)
    requires
        pos <= cs.len(),
        src@ == cs@,
        off == byte_offset(cs@, pos as int),
        encode_utf8(cs@).len() <= usize::MAX,
    ensures
        agrees(r, lex_ident(cs@.skip(pos as int))),
{
    let ghost t = cs@.skip(pos as int);
    if pos == cs.len() {
        return Err(ErrorKind::UnexpectedEOF);
    }
    let first = cs[pos];
    assert(t[0] == first);
    if is_digit_char(first) {
        return Err(ErrorKind::IdentifierStartsWithNumber);
    }
    if !(first == '_' || is_alpha_char(first)) {
        return Err(ErrorKind::NoMatches);
    }
    let rest = match take_while(cs, pos + 1, CharClass::Ident) {
        Ok(m) => m,
        Err(_) => 0,
    };
    proof {
        assert(t.drop_first() =~= cs@.skip(pos + 1));
        lemma_run_len(cs@.skip(pos + 1), CharClass::Ident);
    }
    let n = 1 + rest;
    assert(t.take(n as int) =~= cs@.subrange(pos as int, pos + n));
    Ok((TokenKind::Identifier(text_of(src, cs, pos, off, n)), n))
}

/// The token of a punctuation character, if it is one.
fn punct_kind(c: char) -> (r: Option<TokenKind>)
    ensures
        r is Some <==> punct(c) is Some,
        r matches Some(k) ==> k@ == punct(c)->0,
{
    if c == '.' {
        Some(TokenKind::Dot)
    } else if c == '=' {
        Some(TokenKind::Equals)
    } else if c == '+' {
        Some(TokenKind::Plus)
    } else if c == '-' {
        Some(TokenKind::Minus)
    } else if c == '*' {
        Some(TokenKind::Asterisk)
    } else if c == '/' {
        Some(TokenKind::Slash)
    } else if c == '@' {
        Some(TokenKind::At)
    } else if c == '^' {
        Some(TokenKind::Carat)
    } else if c == '(' {
        Some(TokenKind::OpenParen)
    } else if c == ')' {
        Some(TokenKind::CloseParen)
    } else if c == '[' {
        Some(TokenKind::OpenSquare)
    } else if c == ']' {
        Some(TokenKind::CloseSquare)
    } else if c == ':' {
        Some(TokenKind::Colon)
    } else if c == ';' {
        Some(TokenKind::Semicolon)
    } else {
        None
    }
}

/// Reads the token at position `pos`, chosen by its first character.
fn tokenize_single_token_at(src: &str, cs: &Vec<char>, pos: usize, off: usize) -> (r: Result<(TokenKind, usize), ErrorKind>)
    requires
        pos <= cs.len(),
        src@ == cs@,
        off == byte_offset(cs@, pos as int),
        encode_utf8(cs@).len() <= usize::MAX,
    ensures
        agrees(r, lex_single(cs@.skip(pos as int))),
{
    let ghost t = cs@.skip(pos as int);
    if pos == cs.len() {
        return Err(ErrorKind::UnexpectedEOF);
    }
    let next = cs[pos];
    assert(t[0] == next);
    if let Some(kind) = punct_kind(next) {
        Ok((kind, 1))
    } else if is_digit_char(next) {
        tokenize_number_at(src, cs, pos, off)
    } else if next == '_' || is_alpha_char(next) {
        tokenize_ident_at(src, cs, pos, off)
    } else {
        Err(ErrorKind::UnknownCharacter(next))
    }
}

/// Whether `pat` stands in `cs` at position `i`.
fn matches_at(cs: &Vec<char>, i: usize, pat: &Vec<char>) -> (r: bool)
    ensures
        r == occurs_at(cs@, pat@, i as int),
{
    if i > cs.len() || pat.len() > cs.len() - i {
        return false;
    }
    let mut k: usize = 0;
    while k < pat.len()
        invariant
            k <= pat.len(),
            i + pat.len() <= cs.len(),
            forall|l: int| 0 <= l < k ==> cs@[i + l] == pat@[l],
        decreases pat.len() - k,
    {
        if cs[i + k] != pat[k] {
            assert(cs@.subrange(i as int, i + pat.len())[k as int] != pat@[k as int]);
            return false;
        }
        k = k + 1;
    }
    assert(cs@.subrange(i as int, i + pat.len()) =~= pat@);
    true
}

/// Where a text is read from position `pos` on, a pattern stands at `j`
/// exactly where it stands at `pos + j` of the whole.
proof fn lemma_occurs_skip(s: Seq<char>, pat: Seq<char>, pos: int, j: int)
    requires
        0 <= pos <= s.len(),
        0 <= j,
    ensures
        occurs_at(s.skip(pos), pat, j) == occurs_at(s, pat, pos + j),
{
    if j + pat.len() <= s.len() - pos {
        assert(s.skip(pos).subrange(j, j + pat.len()) =~= s.subrange(pos + j, pos + j + pat.len()));
    }
}

/// Consumes from position `pos` up to and through the first `pattern`, or
/// to the end where it does not occur: the number of characters consumed.
fn skip_until(cs: &Vec<char>, pos: usize, pattern: &Vec<char>) -> (r: usize)
    requires
        pos <= cs.len(),
        pattern.len() > 0,
    ensures
        r == until_len(cs@.skip(pos as int), pattern@),
{
    let ghost t = cs@.skip(pos as int);
    let mut i = pos;
    while i < cs.len()
        invariant
            pos <= i <= cs.len(),
            forall|j: int| pos <= j < i ==> !occurs_at(cs@, pattern@, j),
        ensures
            pos <= i <= cs.len(),
            forall|j: int| pos <= j < i ==> !occurs_at(cs@, pattern@, j),
            i < cs.len() ==> occurs_at(cs@, pattern@, i as int),
        decreases cs.len() - i,
    {
        if matches_at(cs, i, pattern) {
            break;
        }
        i = i + 1;
    }
    proof {
        assert forall|j: int| 0 <= j < i - pos implies !occurs_at(t, pattern@, j) by {
            lemma_occurs_skip(cs@, pattern@, pos as int, j);
        }
    }
    if i < cs.len() {
        proof {
            lemma_occurs_skip(cs@, pattern@, pos as int, i - pos);
            assert(first_occurrence(t, pattern@, i - pos));
            let k = choose|k: int| first_occurrence(t, pattern@, k);
            assert(k == i - pos);
        }
        i - pos + pattern.len()
    } else {
        proof {
            assert forall|j: int| !first_occurrence(t, pattern@, j) by {
                if 0 <= j < i - pos {
                } else if j >= i - pos {
                    assert(!occurs_at(t, pattern@, j));
                }
            }
        }
        cs.len() - pos
    }
}

/// The length in characters of the comment at position `pos`, 0 where
/// none starts there. The three forms are `//` to the end of the line,
/// `{ ... }` and `(* ... *)`; they do not nest.
fn skip_comments_at(cs: &Vec<char>, pos: usize) -> (r: usize)
    requires
        pos <= cs.len(),
    ensures
        r == comment_len(cs@.skip(pos as int)),
{
    let ghost t = cs@.skip(pos as int);
    let pairs = vec![
        (vec!['/', '/'], vec!['\n']),
        (vec!['{'], vec!['}']),
        (vec!['(', '*'], vec!['*', ')']),
    ];
    assert(pairs@[0].0@ =~= line_comment_open());
    assert(pairs@[0].1@ =~= line_comment_close());
    assert(pairs@[1].0@ =~= brace_comment_open());
    assert(pairs@[1].1@ =~= brace_comment_close());
    assert(pairs@[2].0@ =~= paren_comment_open());
    assert(pairs@[2].1@ =~= paren_comment_close());
    let mut k: usize = 0;
    while k < pairs.len()
        invariant
            pos <= cs.len(),
            t == cs@.skip(pos as int),
            k <= pairs.len() == 3,
            pairs@[0].0@ == line_comment_open(),
            pairs@[0].1@ == line_comment_close(),
            pairs@[1].0@ == brace_comment_open(),
            pairs@[1].1@ == brace_comment_close(),
            pairs@[2].0@ == paren_comment_open(),
            pairs@[2].1@ == paren_comment_close(),
            k > 0 ==> !occurs_at(t, line_comment_open(), 0),
            k > 1 ==> !occurs_at(t, brace_comment_open(), 0),
            k > 2 ==> !occurs_at(t, paren_comment_open(), 0),
        decreases pairs.len() - k,
    {
        let (open, close) = &pairs[k];
        proof {
            lemma_occurs_skip(cs@, open@, pos as int, 0);
        }
        if matches_at(cs, pos, open) {
            assert(t.skip(open@.len() as int) =~= cs@.skip(pos + open@.len()));
            return open.len() + skip_until(cs, pos + open.len(), close);
        }
        k = k + 1;
    }
    0
}

/// The length in characters of the white space and comments at position
/// `pos`, in any interleaving.
fn skip_at(cs: &Vec<char>, pos: usize) -> (r: usize)
    requires
        pos <= cs.len(),
    ensures
        r == skip_len(cs@.skip(pos as int)),
        pos + r <= cs.len(),
{
    let mut i = pos;
    loop
        invariant
            pos <= i <= cs.len(),
            skip_len(cs@.skip(pos as int)) == (i - pos) + skip_len(cs@.skip(i as int)),
        decreases cs.len() - i,
    {
        let ghost t = cs@.skip(i as int);
        let ws = match take_while(cs, i, CharClass::Space) {
            Ok(n) => n,
            Err(_) => 0,
        };
        proof {
            lemma_run_len(t, CharClass::Space);
            assert(t.skip(ws as int) =~= cs@.skip(i + ws));
        }
        let comments = skip_comments_at(cs, i + ws);
        proof {
            lemma_comment_len(cs@.skip(i + ws));
        }
        if ws + comments == 0 {
            return i - pos;
        }
        proof {
            assert(t.skip((ws + comments) as int) =~= cs@.skip(i + ws + comments));
        }
        i = i + ws + comments;
    }
}

/// The characters of a string, whose UTF-8 encoding is known to fit in
/// memory.
fn source_chars(src: &str) -> (r: Vec<char>)
    ensures
        r@ == src@,
        encode_utf8(r@).len() <= usize::MAX,
{
    let chars = chars_of(src);
    let n_bytes = src.as_bytes().len();
    assert(encode_utf8(chars@).len() == n_bytes);
    chars
}

/// A sub-lexer's result, with the length turned from characters into bytes.
fn in_bytes(cs: &Vec<char>, r: Result<(TokenKind, usize), ErrorKind>) -> (out: Result<(TokenKind, usize), ErrorKind>)
    requires
        encode_utf8(cs@).len() <= usize::MAX,
        r matches Ok((_, n)) ==> n <= cs.len(),
    ensures
        r matches Ok((k, n)) ==> out matches Ok((ok, ob)) && ok == k && ob == byte_offset(cs@, n as int),
        r is Err ==> out == r,
{
    match r {
        Ok((kind, n)) => {
            let bytes = byte_len(cs, 0, n);
            assert(cs@.take(0) =~= Seq::<char>::empty());
            Ok((kind, bytes))
        },
        Err(e) => Err(e),
    }
}

/// The number of bytes of white space at the start of `data`.
pub fn skip_whitespace(data: &str) -> (r: usize)
    ensures
        r == byte_offset(data@, run_len(data@, CharClass::Space) as int),
{
    let cs = source_chars(data);
    assert(cs@.skip(0) =~= cs@);
    let n = match take_while(&cs, 0, CharClass::Space) {
        Ok(n) => n,
        Err(_) => 0,
    };
    proof {
        lemma_run_len(cs@, CharClass::Space);
    }
    assert(cs@.take(0) =~= Seq::<char>::empty());
    byte_len(&cs, 0, n)
}

/// The number of bytes of the comment at the start of `src`, 0 where none
/// starts there.
pub fn skip_comments(src: &str) -> (r: usize)
    ensures
        r == byte_offset(src@, comment_len(src@) as int),
{
    let cs = source_chars(src);
    assert(cs@.skip(0) =~= cs@);
    let n = skip_comments_at(&cs, 0);
    proof {
        lemma_comment_len(cs@);
    }
    assert(cs@.take(0) =~= Seq::<char>::empty());
    byte_len(&cs, 0, n)
}

/// The number of bytes of white space and comments at the start of `src`.
pub fn skip(src: &str) -> (r: usize)
    ensures
        r == byte_offset(src@, skip_len(src@) as int),
{
    let cs = source_chars(src);
    assert(cs@.skip(0) =~= cs@);
    let n = skip_at(&cs, 0);
    assert(cs@.take(0) =~= Seq::<char>::empty());
    byte_len(&cs, 0, n)
}

/// Reads an identifier at the start of `data`, with its length in bytes.
pub fn tokenize_ident(data: &str) -> (r: Result<(TokenKind, usize), ErrorKind>)
    ensures
        agrees_bytes(r, data@, lex_ident(data@)),
{
    let cs = source_chars(data);
    assert(cs@.skip(0) =~= cs@);
    assert(cs@.take(0) =~= Seq::<char>::empty());
    let r = tokenize_ident_at(data, &cs, 0, 0);
    proof {
        lemma_ident_start(cs@);
    }
    in_bytes(&cs, r)
}

/// Reads a numeric literal at the start of `data`, with its length in bytes.
pub fn tokenize_number(data: &str) -> (r: Result<(TokenKind, usize), ErrorKind>)
    ensures
        agrees_bytes(r, data@, lex_number(data@)),
{
    let cs = source_chars(data);
    assert(cs@.skip(0) =~= cs@);
    assert(cs@.take(0) =~= Seq::<char>::empty());
    let r = tokenize_number_at(data, &cs, 0, 0);
    proof {
        lemma_run_len(cs@, CharClass::Digit);
        let a = run_len(cs@, CharClass::Digit);
        if number_has_dot(cs@) {
            lemma_run_len(cs@.skip(a + 1 as int), CharClass::Digit);
        }
    }
    in_bytes(&cs, r)
}

/// Reads the token at the start of `data`, with its length in bytes.
pub fn tokenize_single_token(data: &str) -> (r: Result<(TokenKind, usize), ErrorKind>)
    ensures
        agrees_bytes(r, data@, lex_single(data@)),
{
    let cs = source_chars(data);
    assert(cs@.skip(0) =~= cs@);
    assert(cs@.take(0) =~= Seq::<char>::empty());
    let r = tokenize_single_token_at(data, &cs, 0, 0);
    proof {
        lemma_lex_single_len(cs@);
    }
    in_bytes(&cs, r)
}

/// A scanner over one text: its position in characters and in bytes.
struct Tokenizer<'a> {
    src: &'a str,
    chars: Vec<char>,
    pos: usize,
    current_index: usize,
}

impl<'a> Tokenizer<'a> {
    /// The byte offset follows the character position.
    spec fn wf(&self) -> bool {
        &&& self.src@ == self.chars@
        &&& self.pos <= self.chars.len()
        &&& self.current_index == byte_offset(self.chars@, self.pos as int)
        &&& encode_utf8(self.chars@).len() <= usize::MAX
    }

    /// A scanner at the start of `src`.
    fn new(src: &'a str) -> (r: Tokenizer<'a>)
        ensures
            r.wf(),
            r.chars@ == src@,
            r.pos == 0,
    {
        let chars = source_chars(src);
        assert(chars@.take(0) =~= Seq::<char>::empty());
        Tokenizer { src, chars, pos: 0, current_index: 0 }
    }

    /// Moves past `n` characters.
    fn chomp(&mut self, n: usize)
        requires
            old(self).wf(),
            old(self).pos + n <= old(self).chars.len(),
        ensures
            final(self).wf(),
            final(self).chars == old(self).chars,
            final(self).pos == old(self).pos + n,
    {
        let bytes = byte_len(&self.chars, self.pos, self.pos + n);
        proof {
            lemma_byte_offset_bound(self.chars@, self.pos + n);
        }
        self.pos = self.pos + n;
        self.current_index = self.current_index + bytes;
    }

    /// Moves past white space and comments.
    fn skip_whitespace(&mut self)
        requires
            old(self).wf(),
        ensures
            final(self).wf(),
            final(self).chars == old(self).chars,
            final(self).pos == old(self).pos + skip_len(old(self).chars@.skip(old(self).pos as int)),
    {
        let skipped = skip_at(&self.chars, self.pos);
        self.chomp(skipped);
    }

    /// Reads the token at the current position and moves past it.
    fn _next_token(&mut self) -> (r: Result<TokenKind, ErrorKind>)
        requires
            old(self).wf(),
        ensures
            final(self).wf(),
            final(self).chars == old(self).chars,
            match lex_single(old(self).chars@.skip(old(self).pos as int)) {
                Ok((k, n)) => r matches Ok(rk) && rk@ == k && final(self).pos == old(self).pos + n,
                Err(e) => r == Err::<TokenKind, ErrorKind>(e) && final(self).pos == old(self).pos,
            },
    {
        proof {
            lemma_lex_single_len(self.chars@.skip(self.pos as int));
        }
        match tokenize_single_token_at(self.src, &self.chars, self.pos, self.current_index) {
            Ok((tok, n)) => {
                self.chomp(n);
                Ok(tok)
            },
            Err(e) => Err(e),
        }
    }

    /// Skips white space and comments, then reads the next token with its
    /// byte range; `None` at the end of the text.
    fn next_token(&mut self) -> (r: Result<Option<(TokenKind, usize, usize)>, LexError>)
        requires
            old(self).wf(),
        ensures
            final(self).wf(),
            final(self).chars == old(self).chars,
            ({
                let s = old(self).chars@;
                let p = old(self).pos + skip_len(s.skip(old(self).pos as int));
                if p >= s.len() {
                    r == Ok::<Option<(TokenKind, usize, usize)>, LexError>(None)
                } else {
                    match lex_single(s.skip(p)) {
                        Ok((k, n)) => {
                            &&& r matches Ok(Some((rk, a, b)))
                            &&& rk@ == k
                            &&& a == byte_offset(s, p)
                            &&& b == byte_offset(s, p + n)
                            &&& final(self).pos == p + n
                        },
                        Err(e) => r == Err::<Option<(TokenKind, usize, usize)>, LexError>(
                            LexError { location: byte_offset(s, p) as usize, kind: e },
                        ),
                    }
                }
            }),
    {
        self.skip_whitespace();
        if self.pos == self.chars.len() {
            Ok(None)
        } else {
            let start = self.current_index;
            match self._next_token() {
                Ok(tok) => {
                    let end = self.current_index;
                    Ok(Some((tok, start, end)))
                },
                Err(e) => Err(LexError { location: self.current_index, kind: e }),
            }
        }
    }
}

/// The views of tokens with their byte ranges.
pub open spec fn triples_view(v: Seq<(TokenKind, usize, usize)>) -> Seq<(KindView, nat, nat)> {
    v.map_values(|t: (TokenKind, usize, usize)| (t.0@, t.1 as nat, t.2 as nat))
}

/// The tokens already read, followed by the outcome of reading the rest.
pub open spec fn prepend(
    done: Seq<(KindView, nat, nat)>,
    rest: Result<Seq<(KindView, nat, nat)>, (nat, ErrorKind)>,
) -> Result<Seq<(KindView, nat, nat)>, (nat, ErrorKind)> {
    match rest {
        Ok(ts) => Ok(done + ts),
        Err(e) => Err(e),
    }
}

/// Turns source text into its tokens, each with the half-open byte range
/// `[start, end)` that it takes; or the first failure, with the byte offset
/// of the token being read.
pub fn tokenize(src: &str) -> (r: Result<Vec<(TokenKind, usize, usize)>, LexError>)
    ensures
        match r {
            Ok(v) => lex_from(src@, 0) == Ok::<Seq<(KindView, nat, nat)>, (nat, ErrorKind)>(
                triples_view(v@),
            ),
            Err(e) => lex_from(src@, 0) == Err::<Seq<(KindView, nat, nat)>, (nat, ErrorKind)>(
                (e.location as nat, e.kind),
            ),
        },
{
    let mut tokenizer = Tokenizer::new(src);
    let mut tokens: Vec<(TokenKind, usize, usize)> = Vec::new();
    assert(triples_view(tokens@) =~= Seq::<(KindView, nat, nat)>::empty());
    loop
        invariant
            tokenizer.wf(),
            tokenizer.chars@ == src@,
            lex_from(src@, 0) == prepend(triples_view(tokens@), lex_from(src@, tokenizer.pos as int)),
        decreases tokenizer.chars.len() - tokenizer.pos,
    {
        let ghost s = src@;
        let ghost pos = tokenizer.pos as int;
        let ghost old_tokens = tokens@;
        proof {
            if pos == s.len() {
                assert(s.skip(pos) =~= Seq::<char>::empty());
            }
            lemma_skip_len(s.skip(pos));
            lemma_byte_offset_bound(s, pos + skip_len(s.skip(pos)));
            lemma_lex_single_len(s.skip(pos + skip_len(s.skip(pos))));
        }
        match tokenizer.next_token() {
            Ok(Some(tok)) => {
                tokens.push(tok);
                proof {
                    let p = pos + skip_len(s.skip(pos));
                    assert(triples_view(tokens@) =~= triples_view(old_tokens).push(
                        (tok.0@, tok.1 as nat, tok.2 as nat),
                    ));
                    match lex_from(s, tokenizer.pos as int) {
                        Ok(rest) => {
                            assert(triples_view(old_tokens) + (seq![(tok.0@, tok.1 as nat, tok.2 as nat)] + rest)
                                =~= triples_view(tokens@) + rest);
                        },
                        Err(_) => {},
                    }
                }
            },
            Ok(None) => {
                proof {
                    assert(triples_view(tokens@) + Seq::<(KindView, nat, nat)>::empty() =~= triples_view(tokens@));
                }
                return Ok(tokens);
            },
            Err(e) => {
                return Err(e);
            },
        }
    }
}

/// An identifier is read exactly where the text starts with a letter or an
/// underscore; it then takes at least that character.
pub proof fn lemma_ident_start(t: Seq<char>)
    ensures
        lex_ident(t) is Ok <==> (t.len() > 0 && (t[0] == '_' || is_alpha(t[0]))),
        lex_ident(t) matches Ok((_, n)) ==> 1 <= n <= t.len(),
{
    if t.len() > 0 {
        lemma_run_len(t.drop_first(), CharClass::Ident);
    }
}

/// Identifiers start with neither a digit nor a dot: reading one there fails.
pub proof fn lemma_ident_rejects_digit_or_dot(t: Seq<char>)
    requires
        t.len() > 0,
        is_digit(t[0]) || t[0] == '.',
    ensures
        lex_ident(t) is Err,
{
    lemma_ident_start(t);
}

impl From<usize> for TokenKind {
    fn from(other: usize) -> (r: TokenKind) {
        TokenKind::Integer(other)
    }
}

impl vstd::std_specs::convert::FromSpecImpl<usize> for TokenKind {
    open spec fn obeys_from_spec() -> bool {
        true
    }

    open spec fn from_spec(v: usize) -> TokenKind {
        TokenKind::Integer(v)
    }
}

impl From<String> for TokenKind {
    fn from(other: String) -> (r: TokenKind) {
        TokenKind::Identifier(other)
    }
}

impl vstd::std_specs::convert::FromSpecImpl<String> for TokenKind {
    open spec fn obeys_from_spec() -> bool {
        true
    }

    open spec fn from_spec(v: String) -> TokenKind {
        TokenKind::Identifier(v)
    }
}

impl<'a> From<&'a str> for TokenKind {
    fn from(other: &'a str) -> (r: TokenKind)
        ensures
            r@ == KindView::Identifier(other@),
    {
        TokenKind::Identifier(String::from_str(other))
    }
}

/// A `String` cannot be built in a specification, so the result of this
/// conversion is stated on `from` itself.
impl<'a> vstd::std_specs::convert::FromSpecImpl<&'a str> for TokenKind {
    open spec fn obeys_from_spec() -> bool {
        false
    }

    open spec fn from_spec(v: &'a str) -> TokenKind {
        arbitrary()
    }
}

/// A token with its place in the files of a `CodeMap`.
#[derive(Clone, Debug, PartialEq)]
pub struct Token {
    /// The token's location relative to the rest of the files.
    pub span: Span,
    /// What kind of token this is.
    pub kind: TokenKind,
}

impl Token {
    /// Create a token out of a span and a kind.
    pub fn new(span: Span, kind: TokenKind) -> (r: Token)
        ensures
            r.span == span,
            r.kind == kind,
    {
        Token { span, kind }
    }
}

impl From<TokenKind> for Token {
    /// A token at the dummy span.
    fn from(other: TokenKind) -> (r: Token) {
        Token::new(Span::dummy(), other)
    }
}

impl vstd::std_specs::convert::FromSpecImpl<TokenKind> for Token {
    open spec fn obeys_from_spec() -> bool {
        true
    }

    open spec fn from_spec(v: TokenKind) -> Token {
        Token { span: Span::dummy_spec(), kind: v }
    }
}

/// The byte ranges of the tokens read from position `pos` on run forward
/// and start and end on character boundaries of the text.
pub proof fn lemma_lex_from_ranges(s: Seq<char>, pos: int)
    ensures
        lex_from(s, pos) matches Ok(ts) ==> forall|i: int|
            0 <= i < ts.len() ==> {
                &&& (#[trigger] ts[i]).1 <= ts[i].2 <= encode_utf8(s).len()
                &&& is_char_boundary(encode_utf8(s), ts[i].1 as int)
                &&& is_char_boundary(encode_utf8(s), ts[i].2 as int)
            },
    decreases s.len() - pos,
{
    if 0 <= pos < s.len() {
        lemma_skip_len(s.skip(pos));
        let p = pos + skip_len(s.skip(pos));
        if p < s.len() {
            lemma_lex_single_len(s.skip(p));
            if let Ok((kind, n)) = lex_single(s.skip(p)) {
                lemma_lex_from_ranges(s, p + n);
                lemma_byte_offset_boundary(s, p);
                lemma_byte_offset_boundary(s, p + n);
                lemma_byte_offset_bound(s, p + n);
                lemma_encode_concat(s.take(p), s.subrange(p, p + n));
                assert(s.take(p + n) =~= s.take(p) + s.subrange(p, p + n));
                if let Ok(rest) = lex_from(s, p + n) {
                    let ts = seq![(kind, byte_offset(s, p), byte_offset(s, p + n))] + rest;
                    assert forall|i: int| 0 <= i < ts.len() implies {
                        &&& (#[trigger] ts[i]).1 <= ts[i].2 <= encode_utf8(s).len()
                        &&& is_char_boundary(encode_utf8(s), ts[i].1 as int)
                        &&& is_char_boundary(encode_utf8(s), ts[i].2 as int)
                    } by {
                        if i > 0 {
                            assert(ts[i] == rest[i - 1]);
                        }
                    }
                }
            }
        }
    }
}

/// Decimal text: digits with exactly one dot among them, and at least one
/// digit.
pub open spec fn is_decimal_text(d: Seq<char>) -> bool {
    &&& d.len() >= 2
    &&& exists|k: int|
        0 <= k < d.len() && d[k] == '.' && forall|i: int|
            0 <= i < d.len() && i != k ==> is_digit(#[trigger] d[i])
}

/// The text of every decimal that the lexer reads is decimal text.
pub proof fn lemma_decimal_text(t: Seq<char>)
    ensures
        lex_single(t) matches Ok((KindView::Decimal(d), _)) ==> is_decimal_text(d),
{
    if t.len() > 0 && punct(t[0]) is None && is_digit(t[0]) && number_has_dot(t) && number_len(t) > 1 {
        let a = run_len(t, CharClass::Digit);
        let n = number_len(t);
        let d = t.take(n as int);
        lemma_run_len(t, CharClass::Digit);
        lemma_run_len(t.skip(a + 1 as int), CharClass::Digit);
        assert forall|i: int| 0 <= i < d.len() && i != a implies is_digit(#[trigger] d[i]) by {
            if i > a {
                assert(d[i] == t.skip(a + 1 as int)[i - a - 1]);
            }
        }
        assert(d[a as int] == '.');
    }
}

} // verus!
