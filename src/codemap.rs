//! A mapping from byte ranges of source files to unique, comparable handles.

use vstd::prelude::*;
use vstd::utf8::*;
use vstd::string::*;
use std::ops::Range;
use crate::lex::{lemma_lex_from_ranges, lex_from, KindView, Token, TokenKind};
use crate::errors::ErrorKind;

verus! {

broadcast use vstd::utf8::group_utf8_lib;

/// A unique identifier pointing to a substring of some file in a `CodeMap`.
///
/// A span is made of the index of its file in the `CodeMap` and the index
/// of its range in that file's table.
#[derive(Clone, Copy, Debug, PartialEq, Eq, Hash, Structural)]
pub struct Span {
    file: usize,
    id: usize,
}

impl View for Span {
    type V = (nat, nat);

    closed spec fn view(&self) -> (nat, nat) {
        (self.file as nat, self.id as nat)
    }
}

impl Span {
    /// The special "dummy" span, for places where no real location exists.
    /// No `FileMap` ever hands it out.
    pub fn dummy() -> (r: Span)
        ensures
            r@ == dummy_span(),
            r == Span::dummy_spec(),
    {
        Span { file: usize::MAX, id: usize::MAX }
    }

    /// The file index and the range index that make up this span, for
    /// storing it outside a `CodeMap`.
    pub fn parts(&self) -> (r: (usize, usize))
        ensures
            (r.0 as nat, r.1 as nat) == self@,
    {
        (self.file, self.id)
    }

    /// The span made of a file index and a range index, as `parts` gives
    /// them.
    pub fn from_parts(file: usize, id: usize) -> (r: Span)
        ensures
            r@ == (file as nat, id as nat),
    {
        Span { file, id }
    }

    /// The dummy span, in specifications.
    pub closed spec fn dummy_spec() -> Span {
        Span { file: usize::MAX, id: usize::MAX }
    }
}

/// The view of the dummy span.
pub open spec fn dummy_span() -> (nat, nat) {
    (usize::MAX as nat, usize::MAX as nat)
}

/// Two spans are equal exactly when their views are.
pub proof fn lemma_span_view_eq(a: Span, b: Span)
    ensures
        (a@ == b@) <==> a == b,
{
}

/// What a `FileMap` holds: its name and text, its index in the `CodeMap`,
/// and its table of half-open byte ranges, a span's index being its position.
pub struct FileMapView {
    pub name: Seq<char>,
    pub contents: Seq<char>,
    pub tag: nat,
    pub ranges: Seq<(nat, nat)>,
}

impl FileMapView {
    /// The file's text as UTF-8 bytes.
    pub open spec fn bytes(self) -> Seq<u8> {
        encode_utf8(self.contents)
    }

    /// A range lies in the text and starts and ends on character boundaries.
    pub open spec fn valid_range(self, r: (nat, nat)) -> bool {
        &&& r.0 <= r.1 <= self.bytes().len()
        &&& is_char_boundary(self.bytes(), r.0 as int)
        &&& is_char_boundary(self.bytes(), r.1 as int)
    }

    /// Every stored range is valid and no range is stored twice.
    pub open spec fn wf(self) -> bool {
        &&& forall|i: int| 0 <= i < self.ranges.len() ==> self.valid_range(#[trigger] self.ranges[i])
        &&& forall|i: int, j: int|
            0 <= i < self.ranges.len() && 0 <= j < self.ranges.len() && i != j
                ==> #[trigger] self.ranges[i] != #[trigger] self.ranges[j]
        &&& self.tag < usize::MAX
    }

    /// The span belongs to this file.
    pub open spec fn owns(self, s: (nat, nat)) -> bool {
        s.0 == self.tag && s.1 < self.ranges.len()
    }

    /// The range of a span that this file owns.
    pub open spec fn range_of(self, s: (nat, nat)) -> (nat, nat) {
        self.ranges[s.1 as int]
    }

    /// The position of a stored range in the table.
    pub open spec fn index_of(self, r: (nat, nat)) -> nat {
        choose|i: nat| i < self.ranges.len() && self.ranges[i as int] == r
    }

    /// The table after interning `r`: unchanged when `r` is already stored,
    /// else `r` is appended.
    pub open spec fn intern(self, r: (nat, nat)) -> FileMapView {
        if self.ranges.contains(r) {
            self
        } else {
            FileMapView { ranges: self.ranges.push(r), ..self }
        }
    }

    /// The span that interning `r` hands out.
    pub open spec fn interned_span(self, r: (nat, nat)) -> (nat, nat) {
        if self.ranges.contains(r) {
            (self.tag, self.index_of(r))
        } else {
            (self.tag, self.ranges.len())
        }
    }

    /// The table after interning each range of `rs` in order.
    pub open spec fn intern_all(self, rs: Seq<(nat, nat)>) -> FileMapView
        decreases rs.len(),
    {
        if rs.len() == 0 {
            self
        } else {
            self.intern_all(rs.drop_last()).intern(rs.last())
        }
    }
}

/// Interning a valid range keeps the table well formed, and the span handed
/// out is owned by the new table and maps to that range.
pub proof fn lemma_intern(fm: FileMapView, r: (nat, nat))
    requires
        fm.wf(),
        fm.valid_range(r),
    ensures
        fm.intern(r).wf(),
        fm.intern(r).owns(fm.interned_span(r)),
        fm.intern(r).range_of(fm.interned_span(r)) == r,
        fm.intern(r).tag == fm.tag,
        fm.intern(r).name == fm.name,
        fm.intern(r).contents == fm.contents,
        fm.ranges.is_prefix_of(fm.intern(r).ranges),
{
    if fm.ranges.contains(r) {
        let i = choose|i: int| 0 <= i < fm.ranges.len() && fm.ranges[i] == r;
        assert((i as nat) < fm.ranges.len() && fm.ranges[i] == r);
    } else {
        let n = fm.intern(r);
        assert forall|i: int, j: int|
            0 <= i < n.ranges.len() && 0 <= j < n.ranges.len() && i != j
            implies #[trigger] n.ranges[i] != #[trigger] n.ranges[j] by {
            if i == fm.ranges.len() {
                assert(fm.ranges[j] == n.ranges[j]);
            } else if j == fm.ranges.len() {
                assert(fm.ranges[i] == n.ranges[i]);
            }
        }
    }
}

/// Interning the same range twice hands out the same span and leaves the
/// table as the first call left it.
pub proof fn lemma_intern_twice(fm: FileMapView, r: (nat, nat))
    requires
        fm.wf(),
        fm.valid_range(r),
    ensures
        fm.intern(r).intern(r) == fm.intern(r),
        fm.intern(r).interned_span(r) == fm.interned_span(r),
{
    lemma_intern(fm, r);
    let n = fm.intern(r);
    let s = fm.interned_span(r);
    assert(n.ranges[s.1 as int] == r);
    assert(n.ranges.contains(r));
    let k = n.index_of(r);
    assert((k as int) < n.ranges.len() && n.ranges[k as int] == r);
}

/// Interning two different ranges, one after the other, hands out two
/// different spans.
pub proof fn lemma_distinct_ranges_distinct_spans(fm: FileMapView, r1: (nat, nat), r2: (nat, nat))
    requires
        fm.wf(),
        fm.valid_range(r1),
        fm.valid_range(r2),
        r1 != r2,
    ensures
        fm.interned_span(r1) != fm.intern(r1).interned_span(r2),
{
    lemma_intern(fm, r1);
    let n = fm.intern(r1);
    lemma_intern(n, r2);
    let s1 = fm.interned_span(r1);
    let s2 = n.interned_span(r2);
    assert(n.intern(r2).ranges[s1.1 as int] == n.ranges[s1.1 as int]);
}

/// In a well-formed table, two different stored ranges have different
/// spans, whichever order they were interned in.
pub proof fn lemma_stored_ranges_have_distinct_spans(fm: FileMapView, r1: (nat, nat), r2: (nat, nat))
    requires
        fm.wf(),
        fm.ranges.contains(r1),
        fm.ranges.contains(r2),
        r1 != r2,
    ensures
        fm.interned_span(r1) != fm.interned_span(r2),
{
    let i = fm.index_of(r1);
    let j = fm.index_of(r2);
    assert(fm.ranges[i as int] == r1);
    assert(fm.ranges[j as int] == r2);
}

/// No well-formed file owns the dummy span.
pub proof fn lemma_dummy_never_owned(fm: FileMapView)
    requires
        fm.wf(),
    ensures
        !fm.owns(dummy_span()),
{
}

/// Spans handed out by two different files of one `CodeMap` differ.
pub proof fn lemma_spans_of_different_files_differ(
    a: FileMapView,
    b: FileMapView,
    s: (nat, nat),
    t: (nat, nat),
)
    requires
        a.tag != b.tag,
        a.owns(s),
        b.owns(t),
    ensures
        s != t,
{
}

/// The substring of `s` between two character boundaries.
pub(crate) fn substring(s: &str, start: usize, end: usize) -> (r: &str)
    requires
        start <= end <= s.spec_bytes().len(),
        is_char_boundary(s.spec_bytes(), start as int),
        is_char_boundary(s.spec_bytes(), end as int),
    ensures
        r.spec_bytes() == s.spec_bytes().subrange(start as int, end as int),
{
    let ghost bytes = s.spec_bytes();
    let (head, _) = s.split_at(end);
    proof {
        let p = bytes.subrange(0, end as int);
        assert(valid_utf8(p));
        if start < end {
            assert(p[start as int] == bytes[start as int]);
            assert(is_continuation_byte(p[start as int]) == is_continuation_byte(bytes[start as int]));
        } else {
            assert(is_char_boundary(p, p.len() as int));
        }
        assert(is_char_boundary(p, start as int));
    }
    let (_, mid) = head.split_at(start);
    proof {
        assert(mid.spec_bytes() =~= bytes.subrange(start as int, end as int));
    }
    mid
}

/// A file's name and text, with the table of the spans that point into it.
#[derive(Debug)]
pub struct FileMap {
    name: String,
    contents: String,
    tag: usize,
    items: Vec<(usize, usize)>,
}

impl View for FileMap {
    type V = FileMapView;

    closed spec fn view(&self) -> FileMapView {
        FileMapView {
            name: self.name@,
            contents: self.contents@,
            tag: self.tag as nat,
            ranges: self.items@.map_values(|p: (usize, usize)| (p.0 as nat, p.1 as nat)),
        }
    }
}

impl FileMap {
    /// The name of this file.
    pub fn filename(&self) -> (r: &str)
        ensures
            r@ == self@.name,
    {
        self.name.as_str()
    }

    /// The entire text of this file.
    pub fn contents(&self) -> (r: &str)
        ensures
            r@ == self@.contents,
    {
        self.contents.as_str()
    }

    /// The range that this span stands for, if this file owns it.
    pub fn range_of(&self, span: Span) -> (r: Option<Range<usize>>)
        ensures
            r is Some <==> self@.owns(span@),
            r matches Some(rg) ==> (rg.start as nat, rg.end as nat) == self@.range_of(span@),
    {
        if span.file == self.tag && span.id < self.items.len() {
            let (start, end) = self.items[span.id];
            Some(start..end)
        } else {
            None
        }
    }

    /// The substring that this span stands for, if this file owns it.
    pub fn lookup(&self, span: Span) -> (r: Option<&str>)
        requires
            self@.wf(),
        ensures
            r is Some <==> self@.owns(span@),
            r matches Some(s) ==> s.spec_bytes() == self@.bytes().subrange(
                self@.range_of(span@).0 as int,
                self@.range_of(span@).1 as int,
            ),
    {
        let range = match self.range_of(span) {
            Some(r) => r,
            None => return None,
        };
        let text = self.contents.as_str();
        assert(self@.valid_range(self@.ranges[span@.1 as int]));
        Some(substring(text, range.start, range.end))
    }

    /// The span already stored for this range, if any.
    fn reverse_lookup(&self, needle: &Range<usize>) -> (r: Option<Span>)
        ensures
            r matches Some(s) ==> self@.owns(s@) && self@.range_of(s@) == (
                needle.start as nat,
                needle.end as nat,
            ),
            r is None ==> !self@.ranges.contains((needle.start as nat, needle.end as nat)),
    {
        let mut i: usize = 0;
        while i < self.items.len()
            invariant
                i <= self.items.len(),
                forall|j: int|
                    0 <= j < i ==> self@.ranges[j] != (needle.start as nat, needle.end as nat),
            decreases self.items.len() - i,
        {
            let (start, end) = self.items[i];
            if start == needle.start && end == needle.end {
                return Some(Span { file: self.tag, id: i });
            }
            i += 1;
        }
        None
    }

    /// The span for the half-open byte range `[start, end)`: the one already
    /// stored for it, else a new one.
    pub fn insert_span(&mut self, start: usize, end: usize) -> (r: Span)
        requires
            old(self)@.wf(),
            old(self)@.valid_range((start as nat, end as nat)),
        ensures
            final(self)@ == old(self)@.intern((start as nat, end as nat)),
            r@ == old(self)@.interned_span((start as nat, end as nat)),
            final(self)@.wf(),
            final(self)@.owns(r@),
            final(self)@.range_of(r@) == (start as nat, end as nat),
    {
        let ghost rg = (start as nat, end as nat);
        proof {
            lemma_intern(self@, rg);
        }
        let range = start..end;
        if let Some(existing) = self.reverse_lookup(&range) {
            proof {
                let k = self@.index_of(rg);
                assert(self@.ranges.contains(rg));
                assert(self@.ranges[existing@.1 as int] == rg);
                assert((k as int) < self@.ranges.len() && self@.ranges[k as int] == rg);
            }
            return existing;
        }
        let span = Span { file: self.tag, id: self.items.len() };
        self.items.push((start, end));
        proof {
            assert(self@.ranges =~= old(self)@.ranges.push(rg));
        }
        span
    }

    /// As `insert_span`, but the range is checked first: `None`, with the
    /// table unchanged, where it is not a valid range of this file.
    pub fn try_insert_span(&mut self, start: usize, end: usize) -> (r: Option<Span>)
        requires
            old(self)@.wf(),
        ensures
            r is Some <==> old(self)@.valid_range((start as nat, end as nat)),
            r is None ==> final(self)@ == old(self)@,
            r matches Some(s) ==> {
                &&& final(self)@ == old(self)@.intern((start as nat, end as nat))
                &&& s@ == old(self)@.interned_span((start as nat, end as nat))
            },
            final(self)@.wf(),
    {
        let text = self.contents.as_str();
        let len = text.as_bytes().len();
        if start <= end && end <= len && text.is_char_boundary(start)
            && text.is_char_boundary(end) {
            Some(self.insert_span(start, end))
        } else {
            None
        }
    }

    /// The span of the smallest range that covers the ranges of both spans.
    pub fn merge(&mut self, first: Span, second: Span) -> (r: Span)
        requires
            old(self)@.wf(),
            old(self)@.owns(first@),
            old(self)@.owns(second@),
        ensures
            ({
                let a = old(self)@.range_of(first@);
                let b = old(self)@.range_of(second@);
                let m = (
                    if a.0 <= b.0 { a.0 } else { b.0 },
                    if a.1 >= b.1 { a.1 } else { b.1 },
                );
                &&& final(self)@ == old(self)@.intern(m)
                &&& r@ == old(self)@.interned_span(m)
            }),
            final(self)@.wf(),
    {
        let range_1 = self.items[first.id];
        let range_2 = self.items[second.id];
        proof {
            assert(self@.valid_range(self@.ranges[first@.1 as int]));
            assert(self@.valid_range(self@.ranges[second@.1 as int]));
        }
        let start = if range_1.0 <= range_2.0 { range_1.0 } else { range_2.0 };
        let end = if range_1.1 >= range_2.1 { range_1.1 } else { range_2.1 };
        self.insert_span(start, end)
    }

    /// Turns tokens with byte ranges into tokens with spans, interning each
    /// range in order.
    pub fn register_tokens(&mut self, tokens: Vec<(TokenKind, usize, usize)>) -> (r: Vec<Token>)
        requires
            old(self)@.wf(),
            forall|i: int|
                0 <= i < tokens.len() ==> old(self)@.valid_range(
                    (#[trigger] tokens@[i].1 as nat, tokens@[i].2 as nat),
                ),
        ensures
            final(self)@ == old(self)@.intern_all(ranges_of(tokens@)),
            final(self)@.wf(),
            r@.len() == tokens@.len(),
            tokens_registered(tokens@, old(self)@, r@),
    {
        let ghost start_view = self@;
        let ghost all = tokens@;
        let mut pending = tokens;
        let mut reversed: Vec<(TokenKind, usize, usize)> = Vec::new();
        while pending.len() > 0
            invariant
                all == pending@ + reversed@.reverse(),
            decreases pending.len(),
        {
            let ghost before = reversed@;
            let ghost rest = pending@;
            if let Some(last) = pending.pop() {
                reversed.push(last);
                assert(reversed@.reverse() =~= seq![last] + before.reverse());
                assert(all =~= pending@ + reversed@.reverse());
            }
        }
        assert(reversed@.reverse() =~= all);
        let mut registered: Vec<Token> = Vec::new();
        assert(ranges_of(all.take(0)) =~= Seq::<(nat, nat)>::empty());
        while reversed.len() > 0
            invariant
                registered@.len() + reversed@.len() == all.len(),
                reversed@.reverse() == all.skip(registered@.len() as int),
                self@ == start_view.intern_all(ranges_of(all.take(registered@.len() as int))),
                start_view.wf(),
                self@.wf(),
                self@.contents == start_view.contents,
                forall|i: int|
                    0 <= i < all.len() ==> start_view.valid_range(
                        (#[trigger] all[i].1 as nat, all[i].2 as nat),
                    ),
                tokens_registered(all, start_view, registered@),
            decreases reversed.len(),
        {
            let ghost n = registered@.len() as int;
            let ghost before = registered@;
            let ghost rev_before = reversed@;
            assert(reversed@.reverse()[0] == all[n]);
            if let Some(item) = reversed.pop() {
                let (kind, start, end) = item;
                assert(item == all[n]);
                let ghost rg = (start as nat, end as nat);
                assert(start_view.valid_range(rg));
                let span = self.insert_span(start, end);
                registered.push(Token::new(span, kind));
                proof {
                    assert(ranges_of(all.take(n + 1)).drop_last() =~= ranges_of(all.take(n)));
                    assert(ranges_of(all.take(n + 1)).last() == rg);
                    assert(reversed@.reverse() =~= rev_before.reverse().skip(1));
                    assert(all.skip(n).skip(1) =~= all.skip(n + 1));
                    assert(forall|i: int| 0 <= i < n ==> registered@[i] == before[i]);
                }
            }
        }
        assert(all.take(all.len() as int) =~= all);
        registered
    }
}

/// The tokens `r` are the first tokens of `tokens`, each with the span
/// that interning its range hands out after the ranges before it.
pub open spec fn tokens_registered(
    tokens: Seq<(TokenKind, usize, usize)>,
    fm: FileMapView,
    r: Seq<Token>,
) -> bool {
    &&& r.len() <= tokens.len()
    &&& forall|i: int|
        0 <= i < r.len() ==> {
            &&& (#[trigger] r[i]).kind == tokens[i].0
            &&& r[i].span@ == fm.intern_all(ranges_of(tokens.take(i))).interned_span(
                (tokens[i].1 as nat, tokens[i].2 as nat),
            )
        }
}

/// The byte ranges of a sequence of tokens.
pub open spec fn ranges_of(tokens: Seq<(TokenKind, usize, usize)>) -> Seq<(nat, nat)> {
    tokens.map_values(|t: (TokenKind, usize, usize)| (t.1 as nat, t.2 as nat))
}

/// Interning ranges one after the other keeps the table well formed, and
/// keeps what the table held.
pub proof fn lemma_intern_all(fm: FileMapView, rs: Seq<(nat, nat)>)
    requires
        fm.wf(),
        forall|i: int| 0 <= i < rs.len() ==> fm.valid_range(#[trigger] rs[i]),
    ensures
        fm.intern_all(rs).wf(),
        fm.intern_all(rs).tag == fm.tag,
        fm.intern_all(rs).name == fm.name,
        fm.intern_all(rs).contents == fm.contents,
        fm.ranges.is_prefix_of(fm.intern_all(rs).ranges),
    decreases rs.len(),
{
    if rs.len() > 0 {
        let prev = rs.drop_last();
        assert forall|i: int| 0 <= i < prev.len() implies fm.valid_range(#[trigger] prev[i]) by {
            assert(prev[i] == rs[i]);
        }
        lemma_intern_all(fm, prev);
        let m = fm.intern_all(prev);
        assert(fm.valid_range(rs[rs.len() - 1]));
        lemma_intern(m, rs.last());
    }
}

/// Every byte range that tokenizing a file's text hands out is a valid
/// range of that file, so the tokens can be registered with it.
pub proof fn lemma_tokenized_ranges_valid(fm: FileMapView, ts: Seq<(KindView, nat, nat)>)
    requires
        lex_from(fm.contents, 0) == Ok::<Seq<(KindView, nat, nat)>, (nat, ErrorKind)>(ts),
    ensures
        forall|i: int| 0 <= i < ts.len() ==> fm.valid_range(((#[trigger] ts[i]).1, ts[i].2)),
{
    lemma_lex_from_ranges(fm.contents, 0);
    assert forall|i: int| 0 <= i < ts.len() implies fm.valid_range(((#[trigger] ts[i]).1, ts[i].2)) by {
        let t = ts[i];
        let all = lex_from(fm.contents, 0)->Ok_0;
        assert(all == ts);
        assert(all[i] == t);
        assert(t.1 <= t.2 <= fm.bytes().len());
        assert(is_char_boundary(fm.bytes(), t.1 as int));
        assert(is_char_boundary(fm.bytes(), t.2 as int));
    }
}

/// The files of a session, each with its own table of spans.
#[derive(Debug)]
pub struct CodeMap {
    files: Vec<FileMap>,
}

impl View for CodeMap {
    type V = Seq<FileMapView>;

    closed spec fn view(&self) -> Seq<FileMapView> {
        self.files@.map_values(|f: FileMap| f@)
    }
}

impl CodeMap {
    /// Each file is well formed and tagged with its own position, so that
    /// spans are unique across all files.
    pub open spec fn wf(&self) -> bool {
        forall|i: int| 0 <= i < self@.len() ==> (#[trigger] self@[i]).wf() && self@[i].tag == i
    }

    /// Some file of this map owns the span.
    pub open spec fn owns(&self, s: (nat, nat)) -> bool {
        s.0 < self@.len() && self@[s.0 as int].owns(s)
    }

    /// Create a new, empty `CodeMap`.
    pub fn new() -> (r: CodeMap)
        ensures
            r@ == Seq::<FileMapView>::empty(),
            r.wf(),
    {
        CodeMap { files: Vec::new() }
    }

    /// Add a new file and get back a reference to it.
    pub fn insert_file(&mut self, filename: &str, contents: &str) -> (fm: &mut FileMap)
        requires
            old(self).wf(),
            old(self)@.len() < usize::MAX,
        ensures
            fm@ == (FileMapView {
                name: filename@,
                contents: contents@,
                tag: old(self)@.len(),
                ranges: Seq::empty(),
            }),
            fm@.wf(),
            final(self)@ =~= old(self)@.push(final(fm)@),
    {
        let tag = self.files.len();
        let filemap = FileMap {
            name: String::from_str(filename),
            contents: String::from_str(contents),
            tag,
            items: Vec::new(),
        };
        proof {
            assert(filemap@.ranges =~= Seq::<(nat, nat)>::empty());
        }
        self.files.push(filemap);
        let last = self.files.len() - 1;
        &mut self.files[last]
    }

    /// Mutable access to the file at position `i`, to add spans to it at
    /// any time of the session.
    pub fn file_mut(&mut self, i: usize) -> (fm: &mut FileMap)
        requires
            old(self).wf(),
            i < old(self)@.len(),
        ensures
            fm@ == old(self)@[i as int],
            final(self)@ =~= old(self)@.update(i as int, final(fm)@),
    {
        &mut self.files[i]
    }

    /// The substring that a span of one of the files stands for.
    pub fn lookup(&self, span: Span) -> (r: &str)
        requires
            self.wf(),
            self.owns(span@),
        ensures
            r.spec_bytes() == self@[span@.0 as int].bytes().subrange(
                self@[span@.0 as int].range_of(span@).0 as int,
                self@[span@.0 as int].range_of(span@).1 as int,
            ),
    {
        let mut i: usize = 0;
        while i < self.files.len()
            invariant
                self.wf(),
                self.owns(span@),
                i <= span@.0,
            decreases self.files.len() - i,
        {
            assert(self@[i as int] == self.files@[i as int]@);
            if let Some(substr) = self.files[i].lookup(span) {
                return substr;
            }
            i += 1;
        }
        proof {
            assert(false);
        }
        ""
    }

    /// The files that this map holds, in the order they were added.
    pub fn files(&self) -> (r: &[FileMap])
        ensures
            r@.len() == self@.len(),
            forall|i: int| 0 <= i < r@.len() ==> (#[trigger] r@[i])@ == self@[i],
    {
        self.files.as_slice()
    }
}

impl Default for CodeMap {
    fn default() -> (r: CodeMap)
        ensures
            r@ == Seq::<FileMapView>::empty(),
            r.wf(),
    {
        CodeMap::new()
    }
}

} // verus!
