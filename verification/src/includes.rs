//! The lexer that lists the `#include` directives of a source.

use local_encoding::{Encoder, Encoding};
use vstd::prelude::*;
use vstd::slice::{slice_subrange, slice_to_vec};
use vstd::string::StringExecFns;
use vstd::utf8::{decode_utf8, valid_utf8};

verus! {

/// One `#include` directive: the name it gives, and whether the name stood in
/// double quotes or in angle brackets.
#[derive(Debug, PartialEq)]
pub enum Include<T> {
    Quote(T),
    Bracket(T),
}

impl<T> Include<T> {
    /// The name that the directive gives.
    pub open spec fn name(self) -> T {
        match self {
            Include::Quote(path) => path,
            Include::Bracket(path) => path,
        }
    }

    /// The same kind of directive with the name that `f` makes of this one's.
    pub fn map<O, F: Fn(T) -> O>(self, f: F) -> (r: Include<O>)
        requires
            call_requires(f, (self.name(),)),
        ensures
            self is Quote <==> r is Quote,
            call_ensures(f, (self.name(),), r.name()),
    {
        match self {
            Include::Quote(path) => Include::Quote(f(path)),
            Include::Bracket(path) => Include::Bracket(f(path)),
        }
    }

    /// As `map`, for an `f` that may fail: its error is handed on unchanged.
    pub fn map_or<O, E, F: Fn(T) -> Result<O, E>>(self, f: F) -> (r: Result<Include<O>, E>)
        requires
            call_requires(f, (self.name(),)),
        ensures
            match r {
                Ok(made) => (self is Quote <==> made is Quote) && call_ensures(
                    f,
                    (self.name(),),
                    Ok(made.name()),
                ),
                Err(e) => call_ensures(f, (self.name(),), Err(e)),
            },
    {
        match self {
            Include::Quote(path) => match f(path) {
                Ok(p) => Ok(Include::Quote(p)),
                Err(e) => Err(e),
            },
            Include::Bracket(path) => match f(path) {
                Ok(p) => Ok(Include::Bracket(p)),
                Err(e) => Err(e),
            },
        }
    }
}


/// How far a parser came.
#[derive(Clone, Copy, Debug, PartialEq, Eq, Structural)]
pub enum Lexed {
    /// It took what it stands for; reading goes on at the given place.
    Done(usize),
    /// What stands there is something else.
    Error,
    /// The input ended in the middle of what it stands for.
    Incomplete,
}

/// The mathematical value of a [`Lexed`].
pub enum LexedView {
    Done(int),
    Error,
    Incomplete,
}

impl View for Lexed {
    type V = LexedView;

    open spec fn view(&self) -> LexedView {
        match *self {
            Lexed::Done(next) => LexedView::Done(next as int),
            Lexed::Error => LexedView::Error,
            Lexed::Incomplete => LexedView::Incomplete,
        }
    }
}

/// The kinds of bytes at which a run ends.
#[derive(Clone, Copy, Debug, PartialEq, Eq, Structural)]
pub enum ByteClass {
    /// A line end, a double quote or a slash: what ends a stretch of plain code.
    CodeSpecial,
    /// A line end, a double quote or a backslash: what ends a stretch of a string.
    QuoteSpecial,
    /// A carriage return or a line feed.
    LineEnd,
    /// A line end or `>`.
    BracketEnd,
    /// A line end or a double quote.
    QuoteEnd,
    /// A blank or a tab.
    Space,
    /// A blank, a tab or a line end.
    MultiSpace,
}

/// The byte `c` belongs to the class.
pub open spec fn in_class(class: ByteClass, c: u8) -> bool {
    let line_end = c == 0x0D || c == 0x0A;
    match class {
        ByteClass::CodeSpecial => line_end || c == 0x22 || c == 0x2F,
        ByteClass::QuoteSpecial => line_end || c == 0x22 || c == 0x5C,
        ByteClass::LineEnd => line_end,
        ByteClass::BracketEnd => line_end || c == 0x3E,
        ByteClass::QuoteEnd => line_end || c == 0x22,
        ByteClass::Space => c == 0x20 || c == 0x09,
        ByteClass::MultiSpace => c == 0x20 || c == 0x09 || line_end,
    }
}

/// Where the run that begins at `pos` ends: the run of bytes outside the class
/// where `inside` is false, of bytes of the class where it is true.
pub open spec fn run_end(s: Seq<u8>, pos: int, class: ByteClass, inside: bool) -> int
    decreases s.len() - pos,
{
    if 0 <= pos < s.len() && in_class(class, s[pos]) == inside {
        run_end(s, pos + 1, class, inside)
    } else {
        pos
    }
}

pub proof fn lemma_run_end(s: Seq<u8>, pos: int, class: ByteClass, inside: bool)
    requires
        0 <= pos <= s.len(),
    ensures
        pos <= run_end(s, pos, class, inside) <= s.len(),
        run_end(s, pos, class, inside) < s.len() ==> in_class(
            class,
            s[run_end(s, pos, class, inside)],
        ) != inside,
    decreases s.len() - pos,
{
    if pos < s.len() && in_class(class, s[pos]) == inside {
        lemma_run_end(s, pos + 1, class, inside);
    }
}

/// The parser for a fixed byte string: `Incomplete` where the input ends
/// inside a beginning of `tag`.
pub open spec fn tag_at(s: Seq<u8>, pos: int, tag: Seq<u8>) -> LexedView {
    let left = s.len() - pos;
    let m = if left < tag.len() {
        left
    } else {
        tag.len() as int
    };
    if s.subrange(pos, pos + m) != tag.subrange(0, m) {
        LexedView::Error
    } else if m < tag.len() {
        LexedView::Incomplete
    } else {
        LexedView::Done(pos + tag.len())
    }
}

/// The first result that is not an error, or `second` where `first` is one.
pub open spec fn or_else(first: LexedView, second: LexedView) -> LexedView {
    match first {
        LexedView::Error => second,
        _ => first,
    }
}

/// A parser that may be left out: an error leaves the place where it is.
pub open spec fn optional(pos: int, found: LexedView) -> LexedView {
    match found {
        LexedView::Error => LexedView::Done(pos),
        _ => found,
    }
}

/// The end of the input.
pub open spec fn eof_at(s: Seq<u8>, pos: int) -> LexedView {
    if pos >= s.len() {
        LexedView::Done(pos)
    } else {
        LexedView::Error
    }
}

/// A line feed, or a carriage return and a line feed.
pub open spec fn eol_at(s: Seq<u8>, pos: int) -> LexedView {
    or_else(tag_at(s, pos, seq![0x0Au8]), tag_at(s, pos, seq![0x0Du8, 0x0Au8]))
}

/// What is left of a line: up to its line end, which is not taken. A carriage
/// return has to be followed by a line feed.
pub open spec fn not_line_ending_at(s: Seq<u8>, pos: int) -> LexedView {
    let end = run_end(s, pos, ByteClass::LineEnd, false);
    if end >= s.len() || s[end] == 0x0A {
        LexedView::Done(end)
    } else {
        match tag_at(s, end, seq![0x0Du8, 0x0Au8]) {
            LexedView::Done(_) => LexedView::Done(end),
            other => other,
        }
    }
}

/// A comment from `//` to the end of its line.
pub open spec fn comment_one_line_at(s: Seq<u8>, pos: int) -> LexedView {
    match tag_at(s, pos, seq![0x2Fu8, 0x2Fu8]) {
        LexedView::Done(after) => optional(after, not_line_ending_at(s, after)),
        other => other,
    }
}

/// Where the first `*/` at or after `pos` begins, or -1 without one.
pub open spec fn comment_close(s: Seq<u8>, pos: int) -> int
    decreases s.len() - pos,
{
    if 0 <= pos && pos + 1 < s.len() {
        if s[pos] == 0x2A && s[pos + 1] == 0x2F {
            pos
        } else {
            comment_close(s, pos + 1)
        }
    } else {
        -1
    }
}

/// A comment from `/*` to the next `*/`. One that the input ends in is
/// `Incomplete`.
pub open spec fn comment_block_at(s: Seq<u8>, pos: int) -> LexedView {
    match tag_at(s, pos, seq![0x2Fu8, 0x2Au8]) {
        LexedView::Done(after) => {
            let close = comment_close(s, after);
            if close < 0 {
                LexedView::Incomplete
            } else {
                LexedView::Done(close + 2)
            }
        },
        other => other,
    }
}

/// A run of at least one byte of the class; `Incomplete` at the end of the
/// input.
pub open spec fn some_of(s: Seq<u8>, pos: int, class: ByteClass) -> LexedView {
    if pos >= s.len() {
        LexedView::Incomplete
    } else if !in_class(class, s[pos]) {
        LexedView::Error
    } else {
        LexedView::Done(run_end(s, pos, class, true))
    }
}

/// White space of the class, or a comment of either kind.
pub open spec fn filler_at(s: Seq<u8>, pos: int, class: ByteClass) -> LexedView {
    or_else(some_of(s, pos, class), or_else(comment_one_line_at(s, pos), comment_block_at(s, pos)))
}

/// Any number of fillers, one after the other.
pub open spec fn fillers_at(s: Seq<u8>, pos: int, class: ByteClass) -> LexedView
    decreases s.len() - pos,
{
    if pos >= s.len() {
        LexedView::Done(pos)
    } else {
        match filler_at(s, pos, class) {
            LexedView::Error => LexedView::Done(pos),
            LexedView::Incomplete => LexedView::Incomplete,
            LexedView::Done(next) => if pos < next <= s.len() {
                fillers_at(s, next, class)
            } else {
                LexedView::Error
            },
        }
    }
}

/// Blanks, tabs and comments within a line.
pub open spec fn blanks_at(s: Seq<u8>, pos: int) -> LexedView {
    fillers_at(s, pos, ByteClass::Space)
}

/// Blanks, tabs, line ends and comments between lines.
pub open spec fn lines_at(s: Seq<u8>, pos: int) -> LexedView {
    fillers_at(s, pos, ByteClass::MultiSpace)
}

/// The escape sequences and the stretches between them in a string, from
/// `pos` on.
pub open spec fn escapes_at(s: Seq<u8>, pos: int) -> LexedView
    decreases s.len() - pos,
{
    if pos >= s.len() || pos < 0 {
        LexedView::Done(pos)
    } else if s[pos] != 0x5C {
        LexedView::Done(pos)
    } else if pos + 1 >= s.len() {
        LexedView::Incomplete
    } else {
        let next = run_end(s, pos + 2, ByteClass::QuoteSpecial, false);
        if pos < next <= s.len() {
            escapes_at(s, next)
        } else {
            LexedView::Error
        }
    }
}

/// A string in double quotes, with its escape sequences. It has to end on its
/// line.
pub open spec fn code_double_quote_at(s: Seq<u8>, pos: int) -> LexedView {
    match tag_at(s, pos, seq![0x22u8]) {
        LexedView::Done(after) => match escapes_at(
            s,
            run_end(s, after, ByteClass::QuoteSpecial, false),
        ) {
            LexedView::Done(end) => tag_at(s, end, seq![0x22u8]),
            other => other,
        },
        other => other,
    }
}

/// What may stand in code besides plain bytes: a string, a comment of either
/// kind, or a slash.
pub open spec fn code_item_at(s: Seq<u8>, pos: int) -> LexedView {
    or_else(
        code_double_quote_at(s, pos),
        or_else(
            comment_one_line_at(s, pos),
            or_else(comment_block_at(s, pos), tag_at(s, pos, seq![0x2Fu8])),
        ),
    )
}

/// Items of code, each with the plain bytes behind it, as far as they go.
pub open spec fn code_items_at(s: Seq<u8>, pos: int) -> LexedView
    decreases s.len() - pos,
{
    if pos >= s.len() {
        LexedView::Done(pos)
    } else {
        match code_item_at(s, pos) {
            LexedView::Error => LexedView::Done(pos),
            LexedView::Incomplete => LexedView::Incomplete,
            LexedView::Done(after) => {
                let next = run_end(s, after, ByteClass::CodeSpecial, false);
                if pos < next <= s.len() {
                    code_items_at(s, next)
                } else {
                    LexedView::Error
                }
            },
        }
    }
}

/// A line of code: one that does not open with `#`. Its line end is not
/// taken.
pub open spec fn code_line_at(s: Seq<u8>, pos: int) -> LexedView {
    if pos < s.len() && s[pos] == 0x23 {
        LexedView::Error
    } else {
        code_items_at(s, run_end(s, pos, ByteClass::CodeSpecial, false))
    }
}

/// Stretches of plain bytes, each with the item or the end of input behind
/// it, as far as they go: the body of a directive that is no `include`.
pub open spec fn directive_body_at(s: Seq<u8>, pos: int) -> LexedView
    decreases s.len() - pos,
{
    if pos >= s.len() {
        LexedView::Done(pos)
    } else {
        let plain = run_end(s, pos, ByteClass::CodeSpecial, false);
        match or_else(eof_at(s, plain), code_item_at(s, plain)) {
            LexedView::Error => LexedView::Done(pos),
            LexedView::Incomplete => LexedView::Incomplete,
            LexedView::Done(next) => if pos < next <= s.len() {
                directive_body_at(s, next)
            } else {
                LexedView::Error
            },
        }
    }
}

/// The bytes of `include`.
pub open spec fn word_include() -> Seq<u8> {
    seq![105u8, 110u8, 99u8, 108u8, 117u8, 100u8, 101u8]
}

/// A directive that is no `include`.
pub open spec fn unknown_directive_at(s: Seq<u8>, pos: int) -> LexedView {
    if tag_at(s, pos, word_include()) is Done {
        LexedView::Error
    } else {
        directive_body_at(s, pos)
    }
}

/// How far a parser that yields a value came.
pub enum FoundView<T> {
    Done(int, T),
    Error,
    Incomplete,
}

/// A name in delimiters: it opens with `open`, runs up to the first byte of
/// the class, is not empty, and that byte has to be `close`.
pub open spec fn delimited_at(s: Seq<u8>, pos: int, open: u8, class: ByteClass, close: u8) -> FoundView<
    Seq<u8>,
> {
    match tag_at(s, pos, seq![open]) {
        LexedView::Error => FoundView::Error,
        LexedView::Incomplete => FoundView::Incomplete,
        LexedView::Done(after) => {
            let end = run_end(s, after, class, false);
            if after >= s.len() {
                FoundView::Incomplete
            } else if end == after || end >= s.len() {
                FoundView::Error
            } else if s[end] != close {
                FoundView::Error
            } else {
                FoundView::Done(end + 1, s.subrange(after, end))
            }
        },
    }
}

/// The name of an include, in double quotes or in angle brackets.
pub open spec fn include_name_at(s: Seq<u8>, pos: int) -> FoundView<Include<Seq<u8>>> {
    match delimited_at(s, pos, 0x22, ByteClass::QuoteEnd, 0x22) {
        FoundView::Done(next, name) => FoundView::Done(next, Include::Quote(name)),
        FoundView::Incomplete => FoundView::Incomplete,
        FoundView::Error => match delimited_at(s, pos, 0x3C, ByteClass::BracketEnd, 0x3E) {
            FoundView::Done(next, name) => FoundView::Done(next, Include::Bracket(name)),
            FoundView::Incomplete => FoundView::Incomplete,
            FoundView::Error => FoundView::Error,
        },
    }
}

/// An `include` directive behind its `#`: the word, the name, and nothing
/// else but blanks and comments up to the end of the line, which is taken.
pub open spec fn include_at(s: Seq<u8>, pos: int) -> FoundView<Include<Seq<u8>>> {
    match tag_at(s, pos, word_include()) {
        LexedView::Error => FoundView::Error,
        LexedView::Incomplete => FoundView::Incomplete,
        LexedView::Done(after) => match optional(after, blanks_at(s, after)) {
            LexedView::Error => FoundView::Error,
            LexedView::Incomplete => FoundView::Incomplete,
            LexedView::Done(at_name) => match include_name_at(s, at_name) {
                FoundView::Error => FoundView::Error,
                FoundView::Incomplete => FoundView::Incomplete,
                FoundView::Done(after_name, name) => match optional(
                    after_name,
                    blanks_at(s, after_name),
                ) {
                    LexedView::Error => FoundView::Error,
                    LexedView::Incomplete => FoundView::Incomplete,
                    LexedView::Done(at_end) => match or_else(eof_at(s, at_end), eol_at(s, at_end)) {
                        LexedView::Error => FoundView::Error,
                        LexedView::Incomplete => FoundView::Incomplete,
                        LexedView::Done(next) => FoundView::Done(next, name),
                    },
                },
            },
        },
    }
}

/// A directive: `#`, then an include, or the body of another directive.
pub open spec fn directive_at(s: Seq<u8>, pos: int) -> FoundView<Option<Include<Seq<u8>>>> {
    match tag_at(s, pos, seq![0x23u8]) {
        LexedView::Error => FoundView::Error,
        LexedView::Incomplete => FoundView::Incomplete,
        LexedView::Done(after) => match optional(after, blanks_at(s, after)) {
            LexedView::Error => FoundView::Error,
            LexedView::Incomplete => FoundView::Incomplete,
            LexedView::Done(at_word) => match include_at(s, at_word) {
                FoundView::Done(next, name) => FoundView::Done(next, Some(name)),
                FoundView::Incomplete => FoundView::Incomplete,
                FoundView::Error => match unknown_directive_at(s, at_word) {
                    LexedView::Done(next) => FoundView::Done(next, None),
                    LexedView::Incomplete => FoundView::Incomplete,
                    LexedView::Error => FoundView::Error,
                },
            },
        },
    }
}

/// A directive or a line of code, with the fillers behind it.
pub open spec fn item_at(s: Seq<u8>, pos: int) -> FoundView<Option<Include<Seq<u8>>>> {
    let found = match directive_at(s, pos) {
        FoundView::Error => match code_line_at(s, pos) {
            LexedView::Done(next) => FoundView::Done(next, None),
            LexedView::Incomplete => FoundView::Incomplete,
            LexedView::Error => FoundView::Error,
        },
        other => other,
    };
    match found {
        FoundView::Done(after, name) => match lines_at(s, after) {
            LexedView::Done(next) => FoundView::Done(next, name),
            LexedView::Incomplete => FoundView::Incomplete,
            LexedView::Error => FoundView::Error,
        },
        other => other,
    }
}

/// The items from `pos` on, as far as they go, with the includes among them
/// put behind `found`.
pub open spec fn items_at(s: Seq<u8>, pos: int, found: Seq<Include<Seq<u8>>>) -> FoundView<
    Seq<Include<Seq<u8>>>,
>
    decreases s.len() - pos,
{
    if pos >= s.len() {
        FoundView::Done(pos, found)
    } else {
        match item_at(s, pos) {
            FoundView::Error => FoundView::Done(pos, found),
            FoundView::Incomplete => FoundView::Incomplete,
            FoundView::Done(next, name) => if pos < next <= s.len() {
                items_at(
                    s,
                    next,
                    match name {
                        Some(item) => found.push(item),
                        None => found,
                    },
                )
            } else {
                FoundView::Error
            },
        }
    }
}

/// The source opens with a UTF-8 byte order mark.
pub open spec fn has_bom(s: Seq<u8>) -> bool {
    s.len() >= 3 && s[0] == 0xEF && s[1] == 0xBB && s[2] == 0xBF
}

/// The includes of a whole source, in order, and whether it opens with a byte
/// order mark. The source has to be made of fillers, directives and lines of
/// code up to its end.
pub open spec fn includes_of(s: Seq<u8>) -> FoundView<(bool, Seq<Include<Seq<u8>>>)> {
    let start: int = if has_bom(s) {
        3
    } else {
        0
    };
    match lines_at(s, start) {
        LexedView::Error => FoundView::Error,
        LexedView::Incomplete => FoundView::Incomplete,
        LexedView::Done(first) => match items_at(s, first, Seq::empty()) {
            FoundView::Error => FoundView::Error,
            FoundView::Incomplete => FoundView::Incomplete,
            FoundView::Done(end, found) => if end >= s.len() {
                FoundView::Done(end, (has_bom(s), found))
            } else {
                FoundView::Error
            },
        },
    }
}


/// How far a parser that yields a value came.
#[derive(Clone, Debug, PartialEq, Eq)]
pub enum Found<T> {
    /// It took what it stands for; reading goes on at the given place.
    Done(usize, T),
    /// What stands there is something else.
    Error,
    /// The input ended in the middle of what it stands for.
    Incomplete,
}

/// The value of an include over bytes.
pub open spec fn include_view(item: Include<Vec<u8>>) -> Include<Seq<u8>> {
    match item {
        Include::Quote(name) => Include::Quote(name@),
        Include::Bracket(name) => Include::Bracket(name@),
    }
}

/// The value of an optional include over bytes.
pub open spec fn opt_include_view(item: Option<Include<Vec<u8>>>) -> Option<Include<Seq<u8>>> {
    match item {
        Some(found) => Some(include_view(found)),
        None => None,
    }
}

/// The values of a list of includes over bytes, in order.
pub open spec fn include_views(items: Seq<Include<Vec<u8>>>) -> Seq<Include<Seq<u8>>> {
    Seq::new(items.len(), |i: int| include_view(items[i]))
}

pub fn is_code_special(c: u8) -> (r: bool)
    ensures
        r == in_class(ByteClass::CodeSpecial, c),
{
    c == 0x0D || c == 0x0A || c == 0x22 || c == 0x2F
}

pub fn is_quote_special(c: u8) -> (r: bool)
    ensures
        r == in_class(ByteClass::QuoteSpecial, c),
{
    c == 0x0D || c == 0x0A || c == 0x22 || c == 0x5C
}

fn class_has(class: ByteClass, c: u8) -> (r: bool)
    ensures
        r == in_class(class, c),
{
    let line_end = c == 0x0D || c == 0x0A;
    match class {
        ByteClass::CodeSpecial => is_code_special(c),
        ByteClass::QuoteSpecial => is_quote_special(c),
        ByteClass::LineEnd => line_end,
        ByteClass::BracketEnd => line_end || c == 0x3E,
        ByteClass::QuoteEnd => line_end || c == 0x22,
        ByteClass::Space => c == 0x20 || c == 0x09,
        ByteClass::MultiSpace => c == 0x20 || c == 0x09 || line_end,
    }
}

fn skip_run(input: &[u8], pos: usize, class: ByteClass, inside: bool) -> (r: usize)
    requires
        pos <= input@.len(),
    ensures
        r == run_end(input@, pos as int, class, inside),
        pos <= r <= input@.len(),
{
    let mut i = pos;
    while i < input.len() && class_has(class, input[i]) == inside
        invariant
            pos <= i <= input@.len(),
            run_end(input@, pos as int, class, inside) == run_end(input@, i as int, class, inside),
        decreases input@.len() - i,
    {
        i += 1;
    }
    i
}

fn tag(input: &[u8], pos: usize, word: &[u8]) -> (r: Lexed)
    requires
        pos <= input@.len(),
    ensures
        r@ == tag_at(input@, pos as int, word@),
        r matches Lexed::Done(next) ==> next == pos + word@.len() && next <= input@.len(),
{
    let left = input.len() - pos;
    let m = if left < word.len() {
        left
    } else {
        word.len()
    };
    let mut i: usize = 0;
    while i < m
        invariant
            i <= m,
            m <= word@.len(),
            pos + m <= input@.len(),
            input@.len() <= usize::MAX,
            forall|j: int| 0 <= j < i ==> input@[pos + j] == word@[j],
        decreases m - i,
    {
        if input[pos + i] != word[i] {
            assert(input@.subrange(pos as int, pos + m)[i as int] != word@.subrange(0, m as int)[i as int]);
            return Lexed::Error;
        }
        i += 1;
    }
    assert(input@.subrange(pos as int, pos + m) =~= word@.subrange(0, m as int));
    if m < word.len() {
        Lexed::Incomplete
    } else {
        Lexed::Done(pos + word.len())
    }
}

fn one_byte(a: u8) -> (r: Vec<u8>)
    ensures
        r@ == seq![a],
{
    let r = vec![a];
    assert(r@ =~= seq![a]);
    r
}

fn two_bytes(a: u8, b: u8) -> (r: Vec<u8>)
    ensures
        r@ == seq![a, b],
{
    let r = vec![a, b];
    assert(r@ =~= seq![a, b]);
    r
}

fn eof(input: &[u8], pos: usize) -> (r: Lexed)
    requires
        pos <= input@.len(),
    ensures
        r@ == eof_at(input@, pos as int),
{
    if pos >= input.len() {
        Lexed::Done(pos)
    } else {
        Lexed::Error
    }
}

fn eol(input: &[u8], pos: usize) -> (r: Lexed)
    requires
        pos <= input@.len(),
    ensures
        r@ == eol_at(input@, pos as int),
        r matches Lexed::Done(next) ==> pos < next <= input@.len(),
{
    let lf = one_byte(0x0A);
    let crlf = two_bytes(0x0D, 0x0A);
    match tag(input, pos, lf.as_slice()) {
        Lexed::Error => tag(input, pos, crlf.as_slice()),
        other => other,
    }
}

fn not_line_ending(input: &[u8], pos: usize) -> (r: Lexed)
    requires
        pos <= input@.len(),
    ensures
        r@ == not_line_ending_at(input@, pos as int),
        r matches Lexed::Done(next) ==> pos <= next <= input@.len(),
{
    let end = skip_run(input, pos, ByteClass::LineEnd, false);
    if end >= input.len() || input[end] == 0x0A {
        Lexed::Done(end)
    } else {
        let crlf = two_bytes(0x0D, 0x0A);
        match tag(input, end, crlf.as_slice()) {
            Lexed::Done(_) => Lexed::Done(end),
            other => other,
        }
    }
}

fn comment_one_line(input: &[u8], pos: usize) -> (r: Lexed)
    requires
        pos <= input@.len(),
    ensures
        r@ == comment_one_line_at(input@, pos as int),
        r matches Lexed::Done(next) ==> pos < next <= input@.len(),
{
    let slashes = two_bytes(0x2F, 0x2F);
    match tag(input, pos, slashes.as_slice()) {
        Lexed::Done(after) => match not_line_ending(input, after) {
            Lexed::Error => Lexed::Done(after),
            other => other,
        },
        other => other,
    }
}

fn find_comment_close(input: &[u8], pos: usize) -> (r: Option<usize>)
    requires
        pos <= input@.len(),
    ensures
        match r {
            Some(at) => comment_close(input@, pos as int) == at && pos <= at && at + 2
                <= input@.len(),
            None => comment_close(input@, pos as int) == -1,
        },
{
    let n = input.len();
    let mut i = pos;
    while n - i >= 2
        invariant
            pos <= i <= n,
            n == input@.len(),
            comment_close(input@, pos as int) == comment_close(input@, i as int),
        decreases n - i,
    {
        if input[i] == 0x2A && input[i + 1] == 0x2F {
            return Some(i);
        }
        i += 1;
    }
    None
}

fn comment_block(input: &[u8], pos: usize) -> (r: Lexed)
    requires
        pos <= input@.len(),
    ensures
        r@ == comment_block_at(input@, pos as int),
        r matches Lexed::Done(next) ==> pos < next <= input@.len(),
{
    let opening = two_bytes(0x2F, 0x2A);
    let n = input.len();
    match tag(input, pos, opening.as_slice()) {
        Lexed::Done(after) => match find_comment_close(input, after) {
            Some(close) => Lexed::Done(close + 2),
            None => Lexed::Incomplete,
        },
        other => other,
    }
}

fn some_class(input: &[u8], pos: usize, class: ByteClass) -> (r: Lexed)
    requires
        pos <= input@.len(),
    ensures
        r@ == some_of(input@, pos as int, class),
        r matches Lexed::Done(next) ==> pos < next <= input@.len(),
{
    if pos >= input.len() {
        Lexed::Incomplete
    } else if !class_has(class, input[pos]) {
        Lexed::Error
    } else {
        proof {
            lemma_run_end(input@, pos + 1, class, true);
        }
        Lexed::Done(skip_run(input, pos, class, true))
    }
}

fn filler(input: &[u8], pos: usize, class: ByteClass) -> (r: Lexed)
    requires
        pos <= input@.len(),
    ensures
        r@ == filler_at(input@, pos as int, class),
        r matches Lexed::Done(next) ==> pos < next <= input@.len(),
{
    match some_class(input, pos, class) {
        Lexed::Error => match comment_one_line(input, pos) {
            Lexed::Error => comment_block(input, pos),
            other => other,
        },
        other => other,
    }
}

fn fillers(input: &[u8], pos: usize, class: ByteClass) -> (r: Lexed)
    requires
        pos <= input@.len(),
    ensures
        r@ == fillers_at(input@, pos as int, class),
        r matches Lexed::Done(next) ==> pos <= next <= input@.len(),
{
    let mut at = pos;
    while at < input.len()
        invariant
            pos <= at <= input@.len(),
            fillers_at(input@, pos as int, class) == fillers_at(input@, at as int, class),
        decreases input@.len() - at,
    {
        match filler(input, at, class) {
            Lexed::Error => {
                return Lexed::Done(at);
            },
            Lexed::Incomplete => {
                return Lexed::Incomplete;
            },
            Lexed::Done(next) => {
                at = next;
            },
        }
    }
    Lexed::Done(at)
}

/// Passes over blanks, tabs and comments within a line.
pub fn blanks(input: &[u8], pos: usize) -> (r: Lexed)
    requires
        pos <= input@.len(),
    ensures
        r@ == blanks_at(input@, pos as int),
        r matches Lexed::Done(next) ==> pos <= next <= input@.len(),
{
    fillers(input, pos, ByteClass::Space)
}

/// Passes over blanks, tabs, line ends and comments between lines.
pub fn lines(input: &[u8], pos: usize) -> (r: Lexed)
    requires
        pos <= input@.len(),
    ensures
        r@ == lines_at(input@, pos as int),
        r matches Lexed::Done(next) ==> pos <= next <= input@.len(),
{
    fillers(input, pos, ByteClass::MultiSpace)
}

fn escapes(input: &[u8], pos: usize) -> (r: Lexed)
    requires
        pos <= input@.len(),
    ensures
        r@ == escapes_at(input@, pos as int),
        r matches Lexed::Done(next) ==> pos <= next <= input@.len(),
{
    let n = input.len();
    let mut at = pos;
    while at < n && input[at] == 0x5C
        invariant
            pos <= at <= n,
            n == input@.len(),
            escapes_at(input@, pos as int) == escapes_at(input@, at as int),
        decreases n - at,
    {
        if n - at < 2 {
            return Lexed::Incomplete;
        }
        at = skip_run(input, at + 2, ByteClass::QuoteSpecial, false);
    }
    Lexed::Done(at)
}

/// Reads a string in double quotes.
pub fn code_double_quote(input: &[u8], pos: usize) -> (r: Lexed)
    requires
        pos <= input@.len(),
    ensures
        r@ == code_double_quote_at(input@, pos as int),
        r matches Lexed::Done(next) ==> pos < next <= input@.len(),
{
    let quote = one_byte(0x22);
    match tag(input, pos, quote.as_slice()) {
        Lexed::Done(after) => {
            let plain = skip_run(input, after, ByteClass::QuoteSpecial, false);
            match escapes(input, plain) {
                Lexed::Done(end) => tag(input, end, quote.as_slice()),
                other => other,
            }
        },
        other => other,
    }
}

fn code_item(input: &[u8], pos: usize) -> (r: Lexed)
    requires
        pos <= input@.len(),
    ensures
        r@ == code_item_at(input@, pos as int),
        r matches Lexed::Done(next) ==> pos < next <= input@.len(),
{
    match code_double_quote(input, pos) {
        Lexed::Error => match comment_one_line(input, pos) {
            Lexed::Error => match comment_block(input, pos) {
                Lexed::Error => {
                    let slash = one_byte(0x2F);
                    tag(input, pos, slash.as_slice())
                },
                other => other,
            },
            other => other,
        },
        other => other,
    }
}

fn code_items(input: &[u8], pos: usize) -> (r: Lexed)
    requires
        pos <= input@.len(),
    ensures
        r@ == code_items_at(input@, pos as int),
        r matches Lexed::Done(next) ==> pos <= next <= input@.len(),
{
    let mut at = pos;
    while at < input.len()
        invariant
            pos <= at <= input@.len(),
            code_items_at(input@, pos as int) == code_items_at(input@, at as int),
        decreases input@.len() - at,
    {
        match code_item(input, at) {
            Lexed::Error => {
                return Lexed::Done(at);
            },
            Lexed::Incomplete => {
                return Lexed::Incomplete;
            },
            Lexed::Done(after) => {
                at = skip_run(input, after, ByteClass::CodeSpecial, false);
            },
        }
    }
    Lexed::Done(at)
}

/// Reads a line of code up to its line end.
pub fn code_line(input: &[u8], pos: usize) -> (r: Lexed)
    requires
        pos <= input@.len(),
    ensures
        r@ == code_line_at(input@, pos as int),
        r matches Lexed::Done(next) ==> pos <= next <= input@.len(),
{
    if pos < input.len() && input[pos] == 0x23 {
        Lexed::Error
    } else {
        let plain = skip_run(input, pos, ByteClass::CodeSpecial, false);
        code_items(input, plain)
    }
}

fn directive_body(input: &[u8], pos: usize) -> (r: Lexed)
    requires
        pos <= input@.len(),
    ensures
        r@ == directive_body_at(input@, pos as int),
        r matches Lexed::Done(next) ==> pos <= next <= input@.len(),
{
    let mut at = pos;
    while at < input.len()
        invariant
            pos <= at <= input@.len(),
            directive_body_at(input@, pos as int) == directive_body_at(input@, at as int),
        decreases input@.len() - at,
    {
        let plain = skip_run(input, at, ByteClass::CodeSpecial, false);
        let found = match eof(input, plain) {
            Lexed::Error => code_item(input, plain),
            other => other,
        };
        match found {
            Lexed::Error => {
                return Lexed::Done(at);
            },
            Lexed::Incomplete => {
                return Lexed::Incomplete;
            },
            Lexed::Done(next) => {
                if next <= at {
                    return Lexed::Error;
                }
                at = next;
            },
        }
    }
    Lexed::Done(at)
}

fn include_word() -> (r: Vec<u8>)
    ensures
        r@ == word_include(),
{
    let r = vec![105u8, 110u8, 99u8, 108u8, 117u8, 100u8, 101u8];
    assert(r@ =~= word_include());
    r
}

fn unknown_directive(input: &[u8], pos: usize) -> (r: Lexed)
    requires
        pos <= input@.len(),
    ensures
        r@ == unknown_directive_at(input@, pos as int),
        r matches Lexed::Done(next) ==> pos <= next <= input@.len(),
{
    let word = include_word();
    match tag(input, pos, word.as_slice()) {
        Lexed::Done(_) => Lexed::Error,
        _ => directive_body(input, pos),
    }
}

fn delimited(input: &[u8], pos: usize, open: u8, class: ByteClass, close: u8) -> (r: Found<Vec<u8>>)
    requires
        pos <= input@.len(),
    ensures
        match r {
            Found::Done(next, name) => delimited_at(input@, pos as int, open, class, close)
                == FoundView::Done(next as int, name@) && pos < next <= input@.len(),
            Found::Error => delimited_at(input@, pos as int, open, class, close)
                == FoundView::<Seq<u8>>::Error,
            Found::Incomplete => delimited_at(input@, pos as int, open, class, close)
                == FoundView::<Seq<u8>>::Incomplete,
        },
{
    let opening = one_byte(open);
    match tag(input, pos, opening.as_slice()) {
        Lexed::Error => Found::Error,
        Lexed::Incomplete => Found::Incomplete,
        Lexed::Done(after) => {
            let end = skip_run(input, after, class, false);
            if after >= input.len() {
                Found::Incomplete
            } else if end == after || end >= input.len() {
                Found::Error
            } else if input[end] != close {
                Found::Error
            } else {
                Found::Done(end + 1, slice_to_vec(slice_subrange(input, after, end)))
            }
        },
    }
}

fn include_name(input: &[u8], pos: usize) -> (r: Found<Include<Vec<u8>>>)
    requires
        pos <= input@.len(),
    ensures
        match r {
            Found::Done(next, name) => include_name_at(input@, pos as int) == FoundView::Done(
                next as int,
                include_view(name),
            ) && pos < next <= input@.len(),
            Found::Error => include_name_at(input@, pos as int) == FoundView::<
                Include<Seq<u8>>,
            >::Error,
            Found::Incomplete => include_name_at(input@, pos as int) == FoundView::<
                Include<Seq<u8>>,
            >::Incomplete,
        },
{
    match delimited(input, pos, 0x22, ByteClass::QuoteEnd, 0x22) {
        Found::Done(next, name) => Found::Done(next, Include::Quote(name)),
        Found::Incomplete => Found::Incomplete,
        Found::Error => match delimited(input, pos, 0x3C, ByteClass::BracketEnd, 0x3E) {
            Found::Done(next, name) => Found::Done(next, Include::Bracket(name)),
            Found::Incomplete => Found::Incomplete,
            Found::Error => Found::Error,
        },
    }
}

fn optional_blanks(input: &[u8], pos: usize) -> (r: Lexed)
    requires
        pos <= input@.len(),
    ensures
        r@ == optional(pos as int, blanks_at(input@, pos as int)),
        r matches Lexed::Done(next) ==> pos <= next <= input@.len(),
{
    match blanks(input, pos) {
        Lexed::Error => Lexed::Done(pos),
        other => other,
    }
}

fn include_directive(input: &[u8], pos: usize) -> (r: Found<Include<Vec<u8>>>)
    requires
        pos <= input@.len(),
    ensures
        match r {
            Found::Done(next, name) => include_at(input@, pos as int) == FoundView::Done(
                next as int,
                include_view(name),
            ) && pos < next <= input@.len(),
            Found::Error => include_at(input@, pos as int) == FoundView::<Include<Seq<u8>>>::Error,
            Found::Incomplete => include_at(input@, pos as int) == FoundView::<
                Include<Seq<u8>>,
            >::Incomplete,
        },
{
    let word = include_word();
    let after = match tag(input, pos, word.as_slice()) {
        Lexed::Error => {
            return Found::Error;
        },
        Lexed::Incomplete => {
            return Found::Incomplete;
        },
        Lexed::Done(after) => after,
    };
    let at_name = match optional_blanks(input, after) {
        Lexed::Error => {
            return Found::Error;
        },
        Lexed::Incomplete => {
            return Found::Incomplete;
        },
        Lexed::Done(next) => next,
    };
    let (after_name, name) = match include_name(input, at_name) {
        Found::Error => {
            return Found::Error;
        },
        Found::Incomplete => {
            return Found::Incomplete;
        },
        Found::Done(next, name) => (next, name),
    };
    let at_end = match optional_blanks(input, after_name) {
        Lexed::Error => {
            return Found::Error;
        },
        Lexed::Incomplete => {
            return Found::Incomplete;
        },
        Lexed::Done(next) => next,
    };
    let closing = match eof(input, at_end) {
        Lexed::Error => eol(input, at_end),
        other => other,
    };
    match closing {
        Lexed::Error => Found::Error,
        Lexed::Incomplete => Found::Incomplete,
        Lexed::Done(next) => Found::Done(next, name),
    }
}

fn directive(input: &[u8], pos: usize) -> (r: Found<Option<Include<Vec<u8>>>>)
    requires
        pos <= input@.len(),
    ensures
        match r {
            Found::Done(next, name) => directive_at(input@, pos as int) == FoundView::Done(
                next as int,
                opt_include_view(name),
            ) && pos < next <= input@.len(),
            Found::Error => directive_at(input@, pos as int) == FoundView::<
                Option<Include<Seq<u8>>>,
            >::Error,
            Found::Incomplete => directive_at(input@, pos as int) == FoundView::<
                Option<Include<Seq<u8>>>,
            >::Incomplete,
        },
{
    let hash = one_byte(0x23);
    let after = match tag(input, pos, hash.as_slice()) {
        Lexed::Error => {
            return Found::Error;
        },
        Lexed::Incomplete => {
            return Found::Incomplete;
        },
        Lexed::Done(after) => after,
    };
    let at_word = match optional_blanks(input, after) {
        Lexed::Error => {
            return Found::Error;
        },
        Lexed::Incomplete => {
            return Found::Incomplete;
        },
        Lexed::Done(next) => next,
    };
    match include_directive(input, at_word) {
        Found::Done(next, name) => Found::Done(next, Some(name)),
        Found::Incomplete => Found::Incomplete,
        Found::Error => match unknown_directive(input, at_word) {
            Lexed::Done(next) => Found::Done(next, None),
            Lexed::Incomplete => Found::Incomplete,
            Lexed::Error => Found::Error,
        },
    }
}

fn item(input: &[u8], pos: usize) -> (r: Found<Option<Include<Vec<u8>>>>)
    requires
        pos <= input@.len(),
    ensures
        match r {
            Found::Done(next, name) => item_at(input@, pos as int) == FoundView::Done(
                next as int,
                opt_include_view(name),
            ) && pos <= next <= input@.len(),
            Found::Error => item_at(input@, pos as int) == FoundView::<
                Option<Include<Seq<u8>>>,
            >::Error,
            Found::Incomplete => item_at(input@, pos as int) == FoundView::<
                Option<Include<Seq<u8>>>,
            >::Incomplete,
        },
{
    let found = match directive(input, pos) {
        Found::Error => match code_line(input, pos) {
            Lexed::Done(next) => Found::Done(next, None),
            Lexed::Incomplete => Found::Incomplete,
            Lexed::Error => Found::Error,
        },
        other => other,
    };
    match found {
        Found::Done(after, name) => match lines(input, after) {
            Lexed::Done(next) => Found::Done(next, name),
            Lexed::Incomplete => Found::Incomplete,
            Lexed::Error => Found::Error,
        },
        other => other,
    }
}

fn items(input: &[u8], pos: usize) -> (r: Found<Vec<Include<Vec<u8>>>>)
    requires
        pos <= input@.len(),
    ensures
        match r {
            Found::Done(next, found) => items_at(input@, pos as int, Seq::empty())
                == FoundView::Done(next as int, include_views(found@)) && pos <= next
                <= input@.len(),
            Found::Error => items_at(input@, pos as int, Seq::empty()) == FoundView::<
                Seq<Include<Seq<u8>>>,
            >::Error,
            Found::Incomplete => items_at(input@, pos as int, Seq::empty()) == FoundView::<
                Seq<Include<Seq<u8>>>,
            >::Incomplete,
        },
{
    let n = input.len();
    let mut found: Vec<Include<Vec<u8>>> = Vec::new();
    let mut at = pos;
    assert(include_views(found@) =~= Seq::<Include<Seq<u8>>>::empty());
    while at < n
        invariant
            pos <= at <= n,
            n == input@.len(),
            items_at(input@, pos as int, Seq::empty()) == items_at(
                input@,
                at as int,
                include_views(found@),
            ),
        decreases n - at,
    {
        match item(input, at) {
            Found::Error => {
                return Found::Done(at, found);
            },
            Found::Incomplete => {
                return Found::Incomplete;
            },
            Found::Done(next, name) => {
                if next <= at {
                    return Found::Error;
                }
                let ghost before = include_views(found@);
                match name {
                    Some(include_found) => {
                        found.push(include_found);
                        assert(include_views(found@) =~= before.push(include_view(include_found)));
                    },
                    None => {},
                }
                at = next;
            },
        }
    }
    Found::Done(at, found)
}

/// Reads a whole source: tells whether it opens with a byte order mark, and
/// lists its includes in order.
pub fn find_includes(source: &[u8]) -> (r: Found<(bool, Vec<Include<Vec<u8>>>)>)
    ensures
        match r {
            Found::Done(next, (bom, found)) => includes_of(source@) == FoundView::Done(
                next as int,
                (bom, include_views(found@)),
            ) && next == source@.len(),
            Found::Error => includes_of(source@) == FoundView::<
                (bool, Seq<Include<Seq<u8>>>),
            >::Error,
            Found::Incomplete => includes_of(source@) == FoundView::<
                (bool, Seq<Include<Seq<u8>>>),
            >::Incomplete,
        },
{
    let n = source.len();
    let bom = n >= 3 && source[0] == 0xEF && source[1] == 0xBB && source[2] == 0xBF;
    let start: usize = if bom {
        3
    } else {
        0
    };
    let first = match lines(source, start) {
        Lexed::Error => {
            return Found::Error;
        },
        Lexed::Incomplete => {
            return Found::Incomplete;
        },
        Lexed::Done(next) => next,
    };
    match items(source, first) {
        Found::Error => Found::Error,
        Found::Incomplete => Found::Incomplete,
        Found::Done(end, found) => if end >= n {
            Found::Done(end, (bom, found))
        } else {
            Found::Error
        },
    }
}


/// Why the includes of a source could not be listed.
#[derive(Clone, Copy, Debug, PartialEq, Eq, Structural)]
pub enum InvalidSource {
    /// The source ends inside a string, a comment or a directive.
    UnexpectedEof,
    /// The source holds a line that is neither code nor a directive that can be read.
    InvalidData,
}

/// The text that std's `String::from_utf8_lossy` makes of bytes.
pub uninterp spec fn lossy_text(bytes: Seq<u8>) -> Seq<char>;

/// Decodes bytes as UTF-8 with std's `String::from_utf8_lossy`, which puts a
/// replacement character for what is not UTF-8. The contract names that text,
/// and says what std documents of bytes that are UTF-8: they are decoded as
/// they stand.
#[verifier::external_body]
fn utf8_lossy(bytes: &[u8]) -> (r: String)
    ensures
        r@ == lossy_text(bytes@),
        valid_utf8(bytes@) ==> r@ == decode_utf8(bytes@),
{
    String::from_utf8_lossy(bytes).into_owned()
}

/// Decodes bytes in the code page of this machine, through
/// `local_encoding::Encoding::ANSI.to_string`. Which text comes back, and
/// whether any does, depends on the machine: the contract promises nothing.
#[verifier::external_body]
fn ansi_text(bytes: &[u8]) -> (r: Result<String, std::io::Error>) {
    Encoding::ANSI.to_string(bytes)
}

/// The name of an include as text, from what the code page of this machine
/// made of it: that text where it made one, else the name decoded as UTF-8,
/// with a replacement character for what is not UTF-8.
pub fn name_from_local(local: Result<String, std::io::Error>, name: &[u8]) -> (r: String)
    ensures
        match local {
            Ok(text) => r@ == text@,
            Err(_) => r@ == lossy_text(name@),
        },
        local is Err && valid_utf8(name@) ==> r@ == decode_utf8(name@),
{
    match local {
        Ok(text) => text,
        Err(_) => utf8_lossy(name),
    }
}

/// The name of an include as text: UTF-8 in a source with a byte order mark,
/// else the code page of this machine, and UTF-8 again where that fails. No
/// name is refused. What the code page makes of a name is for the machine to
/// say; `name_from_local` says what becomes of its answer.
pub fn decode_name(name: &[u8], bom: bool) -> (r: String)
    ensures
        bom ==> r@ == lossy_text(name@),
        bom && valid_utf8(name@) ==> r@ == decode_utf8(name@),
{
    if bom {
        utf8_lossy(name)
    } else {
        name_from_local(ansi_text(name), name)
    }
}

/// `list` holds the includes `found`, in order, with their names as text: the
/// kinds are the same, and in a source with a byte order mark each name is
/// decoded as UTF-8, so that a name that is UTF-8 is the text it stands for.
/// Without the mark the names are in the code page of the machine, of which
/// nothing is said.
pub open spec fn names_decoded(list: Seq<Include<String>>, bom: bool, found: Seq<Include<Seq<u8>>>) -> bool {
    &&& list.len() == found.len()
    &&& forall|i: int| 0 <= i < found.len() ==> ((#[trigger] list[i] is Quote) <==> found[i] is Quote)
    &&& forall|i: int|
        0 <= i < found.len() && bom ==> (#[trigger] list[i]).name()@ == lossy_text(found[i].name())
    &&& forall|i: int|
        0 <= i < found.len() && bom && valid_utf8(found[i].name()) ==> (#[trigger] list[i]).name()@
            == decode_utf8(found[i].name())
}

/// Lists the includes of a source, in order, with their names as text.
pub fn source_includes(source: &[u8]) -> (r: Result<Vec<Include<String>>, InvalidSource>)
    ensures
        match r {
            Ok(list) => match includes_of(source@) {
                FoundView::Done(_, (bom, found)) => names_decoded(list@, bom, found),
                _ => false,
            },
            Err(InvalidSource::UnexpectedEof) => includes_of(source@) is Incomplete,
            Err(InvalidSource::InvalidData) => includes_of(source@) is Error,
        },
{
    match find_includes(source) {
        Found::Incomplete => Err(InvalidSource::UnexpectedEof),
        Found::Error => Err(InvalidSource::InvalidData),
        Found::Done(_, (bom, includes)) => {
            let mut list: Vec<Include<String>> = Vec::new();
            let mut i: usize = 0;
            while i < includes.len()
                invariant
                    i <= includes.len(),
                    list@.len() == i,
                    forall|j: int|
                        0 <= j < i ==> ((#[trigger] list@[j] is Quote) <==> includes@[j] is Quote),
                    forall|j: int|
                        0 <= j < i && bom ==> (#[trigger] list@[j]).name()@ == lossy_text(
                            includes@[j].name()@,
                        ),
                    forall|j: int|
                        0 <= j < i && bom && valid_utf8(includes@[j].name()@) ==> (
                        #[trigger] list@[j]).name()@ == decode_utf8(includes@[j].name()@),
                decreases includes.len() - i,
            {
                let text = match &includes[i] {
                    Include::Quote(name) => Include::Quote(decode_name(name.as_slice(), bom)),
                    Include::Bracket(name) => Include::Bracket(decode_name(name.as_slice(), bom)),
                };
                list.push(text);
                i += 1;
            }
            assert forall|j: int| 0 <= j < includes@.len() implies (include_views(includes@)[j] is Quote
                <==> includes@[j] is Quote) && include_views(includes@)[j].name()
                == includes@[j].name()@ by {}
            Ok(list)
        },
    }
}


/// An include as a source writes it: the name in double quotes or in angle
/// brackets.
pub open spec fn include_written(item: Include<Seq<char>>) -> Seq<char> {
    match item {
        Include::Quote(name) => seq!['"'] + name + seq!['"'],
        Include::Bracket(name) => seq!['<'] + name + seq!['>'],
    }
}

impl Include<String> {
    /// Writes the include as a source writes it.
    pub fn to_text(&self) -> (r: String)
        ensures
            r@ == include_written(
                match *self {
                    Include::Quote(name) => Include::Quote(name@),
                    Include::Bracket(name) => Include::Bracket(name@),
                },
            ),
    {
        proof {
            reveal_strlit("\"");
            reveal_strlit("<");
            reveal_strlit(">");
        }
        match self {
            Include::Quote(name) => {
                let r = String::from_str("\"").concat(name.as_str()).concat("\"");
                assert(r@ =~= seq!['"'] + name@ + seq!['"']);
                r
            },
            Include::Bracket(name) => {
                let r = String::from_str("<").concat(name.as_str()).concat(">");
                assert(r@ =~= seq!['<'] + name@ + seq!['>']);
                r
            },
        }
    }
}

} // verus!
