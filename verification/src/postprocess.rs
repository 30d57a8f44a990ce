//! The filter for the output of the preprocessor of the Microsoft compiler:
//! it tells the sources of a stream apart and finds the place where the
//! precompiled part of each source ends.

use crate::compiler::opt_view;
use local_encoding::{Encoder, Encoding};
use vstd::prelude::*;
use vstd::slice::{slice_subrange, slice_to_vec};
use vstd::string::StrSliceExecFns;
use vstd::string::StringExecFns;
use vstd::string::StringSliceAdditionalSpecFns;

verus! {

/// Why a preprocessed stream was refused.
#[derive(Clone, Copy, Debug, PartialEq, Eq, Structural)]
pub enum PostprocessError {
    LiteralEol,
    LiteralEof,
    LiteralTooLong,
    EscapeEof,
    MarkerNotFound,
    InvalidLiteral,
    TokenTooLong,
}

impl PostprocessError {
    /// What the error says, in words.
    pub open spec fn text(self) -> Seq<char> {
        match self {
            PostprocessError::LiteralEol => "unexpected end of line in literal"@,
            PostprocessError::LiteralEof => "unexpected end of stream in literal"@,
            PostprocessError::LiteralTooLong => "literal too long"@,
            PostprocessError::EscapeEof => "unexpected end of escape sequence"@,
            PostprocessError::MarkerNotFound => "can't find precompiled header marker in preprocessed file"@,
            PostprocessError::InvalidLiteral => "can't create string from literal"@,
            PostprocessError::TokenTooLong => "token too long"@,
        }
    }

    pub fn description(&self) -> (r: &'static str)
        ensures
            r@ == self.text(),
    {
        match self {
            PostprocessError::LiteralEol => "unexpected end of line in literal",
            PostprocessError::LiteralEof => "unexpected end of stream in literal",
            PostprocessError::LiteralTooLong => "literal too long",
            PostprocessError::EscapeEof => "unexpected end of escape sequence",
            PostprocessError::MarkerNotFound => "can't find precompiled header marker in preprocessed file",
            PostprocessError::InvalidLiteral => "can't create string from literal",
            PostprocessError::TokenTooLong => "token too long",
        }
    }
}

/// The longest directive keyword and the longest line number that are read.
pub const TOKEN_LIMIT: usize = 16;

/// The longest word after `#pragma` that is read.
pub const PRAGMA_LIMIT: usize = 32;

/// The room that a path literal has, in bytes.
pub const PATH_LIMIT: usize = 1024;

/// The bytes of `line`.
pub open spec fn word_line() -> Seq<u8> {
    seq![108u8, 105u8, 110u8, 101u8]
}

/// The bytes of `pragma`.
pub open spec fn word_pragma() -> Seq<u8> {
    seq![112u8, 114u8, 97u8, 103u8, 109u8, 97u8]
}

/// The bytes of `hdrstop`.
pub open spec fn word_hdrstop() -> Seq<u8> {
    seq![104u8, 100u8, 114u8, 115u8, 116u8, 111u8, 112u8]
}

/// The bytes of `#pragma hdrstop`.
pub open spec fn pragma_hdrstop() -> Seq<u8> {
    seq![35u8, 112u8, 114u8, 97u8, 103u8, 109u8, 97u8, 32u8] + word_hdrstop()
}

/// The bytes of `#line ` with its blank.
pub open spec fn line_opening() -> Seq<u8> {
    seq![35u8, 108u8, 105u8, 110u8, 101u8, 32u8]
}

/// A blank, a tab or a form feed.
pub open spec fn is_blank(c: u8) -> bool {
    c == 0x20 || c == 0x09 || c == 0x0C
}

/// A blank, a tab, a form feed, a line feed or a carriage return.
pub open spec fn is_blank_or_eol(c: u8) -> bool {
    is_blank(c) || c == 0x0A || c == 0x0D
}

/// A letter, a digit or an underscore.
pub open spec fn is_token_byte(c: u8) -> bool {
    (0x61 <= c <= 0x7A) || (0x41 <= c <= 0x5A) || (0x30 <= c <= 0x39) || c == 0x5F
}

/// Where the run of blanks that begins at `pos` ends.
pub open spec fn spaces_end(s: Seq<u8>, pos: int) -> int
    decreases s.len() - pos,
{
    if 0 <= pos < s.len() && is_blank(s[pos]) {
        spaces_end(s, pos + 1)
    } else {
        pos
    }
}

/// Where the run of blanks and line ends that begins at `pos` ends.
pub open spec fn empty_end(s: Seq<u8>, pos: int) -> int
    decreases s.len() - pos,
{
    if 0 <= pos < s.len() && is_blank_or_eol(s[pos]) {
        empty_end(s, pos + 1)
    } else {
        pos
    }
}

/// Where the run of token bytes that begins at `pos` ends.
pub open spec fn token_end(s: Seq<u8>, pos: int) -> int
    decreases s.len() - pos,
{
    if 0 <= pos < s.len() && is_token_byte(s[pos]) {
        token_end(s, pos + 1)
    } else {
        pos
    }
}

/// Where the line that holds `pos` ends: just behind the first line feed at or
/// after `pos`, or at the end of `s` where none follows.
pub open spec fn line_end(s: Seq<u8>, pos: int) -> int
    decreases s.len() - pos,
{
    if 0 <= pos < s.len() {
        if s[pos] == 0x0A {
            pos + 1
        } else {
            line_end(s, pos + 1)
        }
    } else {
        pos
    }
}

/// The line that holds `pos` ends in a line feed.
pub open spec fn line_is_closed(s: Seq<u8>, pos: int) -> bool {
    let end = line_end(s, pos);
    pos < end <= s.len() && s[end - 1] == 0x0A
}

/// The end of line that closes the line that holds `pos`: `\r\n` where a
/// carriage return stands before the line feed, `\n` otherwise, and nothing
/// where the stream ends first.
pub open spec fn line_closing(s: Seq<u8>, pos: int) -> Seq<u8> {
    let end = line_end(s, pos);
    if !line_is_closed(s, pos) {
        Seq::empty()
    } else if end >= 2 && s[end - 2] == 0x0D {
        seq![0x0Du8, 0x0Au8]
    } else {
        seq![0x0Au8]
    }
}

/// The token that begins at `pos`, and where it ends; refused where it holds
/// more than `limit` bytes.
pub open spec fn token_at(s: Seq<u8>, pos: int, limit: int) -> Result<
    (Seq<u8>, int),
    PostprocessError,
> {
    let end = token_end(s, pos);
    if end - pos > limit {
        Err(PostprocessError::TokenTooLong)
    } else {
        Ok((s.subrange(pos, end), end))
    }
}

/// The byte that an escape sequence with `c` behind the backslash stands for.
pub open spec fn unescaped(c: u8) -> u8 {
    if c == 0x6E {
        0x0A
    } else if c == 0x72 {
        0x0D
    } else if c == 0x74 {
        0x09
    } else {
        c
    }
}

/// A path literal as it was read: the path it names, with each escaped
/// backslash turned into a slash; the literal as it is written out again, with
/// its quotes; and where the literal ends.
pub struct PathLiteral {
    pub file: Seq<u8>,
    pub raw: Seq<u8>,
    pub next: int,
}

/// A literal has outgrown its room.
pub open spec fn literal_is_full(file: Seq<u8>, raw: Seq<u8>) -> bool {
    raw.len() >= PATH_LIMIT - 2 || file.len() >= PATH_LIMIT - 1
}

/// Reads on in a path literal from `pos`, with `file` and `raw` read so far.
/// The literal ends at the byte `quote`. A backslash takes the next byte with
/// it, and both are written out again as they stood.
pub open spec fn literal_from(s: Seq<u8>, pos: int, quote: u8, file: Seq<u8>, raw: Seq<u8>) -> Result<
    PathLiteral,
    PostprocessError,
>
    decreases s.len() - pos,
{
    if !(0 <= pos < s.len()) {
        Err(PostprocessError::LiteralEof)
    } else if s[pos] == 0x0A || s[pos] == 0x0D {
        Err(PostprocessError::LiteralEol)
    } else if s[pos] == 0x5C {
        if pos + 1 >= s.len() {
            Err(PostprocessError::EscapeEof)
        } else {
            let v = unescaped(s[pos + 1]);
            let file2 = file.push(if v == 0x5C { 0x2Fu8 } else { v });
            let raw2 = raw.push(0x5Cu8).push(s[pos + 1]);
            if literal_is_full(file2, raw2) {
                Err(PostprocessError::LiteralTooLong)
            } else {
                literal_from(s, pos + 2, quote, file2, raw2)
            }
        }
    } else if s[pos] == quote {
        Ok(PathLiteral { file, raw: raw.push(quote), next: pos + 1 })
    } else {
        let file2 = file.push(s[pos]);
        let raw2 = raw.push(s[pos]);
        if literal_is_full(file2, raw2) {
            Err(PostprocessError::LiteralTooLong)
        } else {
            literal_from(s, pos + 1, quote, file2, raw2)
        }
    }
}

/// The path literal that begins at `pos`. The byte at `pos` is taken as the
/// quote, whatever it is; a stream that ends at `pos` ends in the literal.
pub open spec fn path_at(s: Seq<u8>, pos: int) -> Result<PathLiteral, PostprocessError> {
    if !(0 <= pos < s.len()) {
        Err(PostprocessError::LiteralEof)
    } else {
        literal_from(s, pos + 1, s[pos], Seq::empty(), seq![s[pos]])
    }
}

/// How many of the three bytes of a UTF-8 byte order mark open `s`, one after
/// the other.
pub open spec fn bom_end(s: Seq<u8>) -> int {
    if s.len() >= 1 && s[0] == 0xEF {
        if s.len() >= 2 && s[1] == 0xBB {
            if s.len() >= 3 && s[2] == 0xBF {
                3
            } else {
                2
            }
        } else {
            1
        }
    } else {
        0
    }
}

/// `child` is the whole of `parent` or its end behind a slash, letters of
/// ASCII in either case.
pub open spec fn subpath(parent: Seq<u8>, child: Seq<u8>) -> bool {
    &&& parent.len() >= child.len()
    &&& parent.len() == child.len() || parent[parent.len() - child.len() - 1] == 0x2F
    &&& forall|i: int|
        0 <= i < child.len() ==> lower(child[i]) == lower(#[trigger] parent[parent.len() - child.len() + i])
}

/// The lower-case form of an ASCII letter; any other byte unchanged.
pub open spec fn lower(c: u8) -> u8 {
    if 0x41 <= c <= 0x5A {
        (c + 32) as u8
    } else {
        c
    }
}

pub proof fn lemma_spaces_end(s: Seq<u8>, pos: int)
    requires
        0 <= pos <= s.len(),
    ensures
        pos <= spaces_end(s, pos) <= s.len(),
    decreases s.len() - pos,
{
    if pos < s.len() && is_blank(s[pos]) {
        lemma_spaces_end(s, pos + 1);
    }
}

pub proof fn lemma_empty_end(s: Seq<u8>, pos: int)
    requires
        0 <= pos <= s.len(),
    ensures
        pos <= empty_end(s, pos) <= s.len(),
        empty_end(s, pos) < s.len() ==> !is_blank_or_eol(s[empty_end(s, pos)]),
    decreases s.len() - pos,
{
    if pos < s.len() && is_blank_or_eol(s[pos]) {
        lemma_empty_end(s, pos + 1);
    }
}

pub proof fn lemma_token_end(s: Seq<u8>, pos: int)
    requires
        0 <= pos <= s.len(),
    ensures
        pos <= token_end(s, pos) <= s.len(),
    decreases s.len() - pos,
{
    if pos < s.len() && is_token_byte(s[pos]) {
        lemma_token_end(s, pos + 1);
    }
}

pub proof fn lemma_line_end(s: Seq<u8>, pos: int)
    requires
        0 <= pos <= s.len(),
    ensures
        pos <= line_end(s, pos) <= s.len(),
        pos < s.len() ==> pos < line_end(s, pos),
    decreases s.len() - pos,
{
    if pos < s.len() && s[pos] != 0x0A {
        lemma_line_end(s, pos + 1);
    }
}

pub proof fn lemma_literal_from(s: Seq<u8>, pos: int, quote: u8, file: Seq<u8>, raw: Seq<u8>)
    requires
        0 <= pos <= s.len(),
    ensures
        match literal_from(s, pos, quote, file, raw) {
            Ok(found) => pos < found.next <= s.len(),
            Err(_) => true,
        },
    decreases s.len() - pos,
{
    if pos < s.len() && s[pos] != 0x0A && s[pos] != 0x0D {
        if s[pos] == 0x5C {
            if pos + 1 < s.len() {
                let v = unescaped(s[pos + 1]);
                lemma_literal_from(
                    s,
                    pos + 2,
                    quote,
                    file.push(if v == 0x5C { 0x2Fu8 } else { v }),
                    raw.push(0x5Cu8).push(s[pos + 1]),
                );
            }
        } else if s[pos] != quote {
            lemma_literal_from(s, pos + 1, quote, file.push(s[pos]), raw.push(s[pos]));
        }
    }
}

fn is_blank_byte(c: u8) -> (r: bool)
    ensures
        r == is_blank(c),
{
    c == 0x20 || c == 0x09 || c == 0x0C
}

fn token_byte(c: u8) -> (r: bool)
    ensures
        r == is_token_byte(c),
{
    (0x61 <= c && c <= 0x7A) || (0x41 <= c && c <= 0x5A) || (0x30 <= c && c <= 0x39) || c == 0x5F
}

fn to_lower(c: u8) -> (r: u8)
    ensures
        r == lower(c),
{
    if 0x41 <= c && c <= 0x5A {
        c + 32
    } else {
        c
    }
}

/// Skips blanks, tabs and form feeds.
pub fn parse_spaces(input: &[u8], pos: usize) -> (r: usize)
    requires
        pos <= input@.len(),
    ensures
        r == spaces_end(input@, pos as int),
        pos <= r <= input@.len(),
{
    let mut i = pos;
    while i < input.len() && is_blank_byte(input[i])
        invariant
            pos <= i <= input@.len(),
            spaces_end(input@, pos as int) == spaces_end(input@, i as int),
        decreases input@.len() - i,
    {
        i += 1;
    }
    i
}

/// Skips blanks, tabs, form feeds and ends of line.
pub fn parse_empty(input: &[u8], pos: usize) -> (r: usize)
    requires
        pos <= input@.len(),
    ensures
        r == empty_end(input@, pos as int),
        pos <= r <= input@.len(),
{
    let mut i = pos;
    while i < input.len() && (is_blank_byte(input[i]) || input[i] == 0x0A || input[i] == 0x0D)
        invariant
            pos <= i <= input@.len(),
            empty_end(input@, pos as int) == empty_end(input@, i as int),
        decreases input@.len() - i,
    {
        i += 1;
    }
    i
}

/// Moves behind the next line feed, or to the end of the stream.
pub fn next_line(input: &[u8], pos: usize) -> (r: usize)
    requires
        pos <= input@.len(),
    ensures
        r == line_end(input@, pos as int),
        pos <= r <= input@.len(),
{
    let mut i = pos;
    while i < input.len()
        invariant
            pos <= i <= input@.len(),
            line_end(input@, pos as int) == line_end(input@, i as int),
        decreases input@.len() - i,
    {
        if input[i] == 0x0A {
            return i + 1;
        }
        i += 1;
    }
    i
}

/// Moves behind the next line feed as `next_line` does, and tells which end of
/// line was found there.
pub fn next_line_eol(input: &[u8], pos: usize) -> (r: (Vec<u8>, usize))
    requires
        pos <= input@.len(),
    ensures
        r.0@ == line_closing(input@, pos as int),
        r.1 == line_end(input@, pos as int),
        pos <= r.1 <= input@.len(),
{
    let end = next_line(input, pos);
    if end > pos && input[end - 1] == 0x0A {
        if end >= 2 && input[end - 2] == 0x0D {
            (vec![0x0Du8, 0x0Au8], end)
        } else {
            (vec![0x0Au8], end)
        }
    } else {
        (Vec::new(), end)
    }
}

/// Reads the run of letters, digits and underscores at `pos`.
pub fn parse_token(input: &[u8], pos: usize, limit: usize) -> (r: Result<
    (Vec<u8>, usize),
    PostprocessError,
>)
    requires
        pos <= input@.len(),
    ensures
        match r {
            Ok((token, next)) => token_at(input@, pos as int, limit as int) == Ok::<
                (Seq<u8>, int),
                PostprocessError,
            >((token@, next as int)) && pos <= next <= input@.len(),
            Err(e) => token_at(input@, pos as int, limit as int) == Err::<
                (Seq<u8>, int),
                PostprocessError,
            >(e),
        },
{
    let mut token: Vec<u8> = Vec::new();
    let mut i = pos;
    while i < input.len() && token_byte(input[i])
        invariant
            pos <= i <= input@.len(),
            token_end(input@, pos as int) == token_end(input@, i as int),
            token@ == input@.subrange(pos as int, i as int),
            i - pos <= limit,
        decreases input@.len() - i,
    {
        if i - pos >= limit {
            proof {
                lemma_token_end(input@, i + 1);
            }
            return Err(PostprocessError::TokenTooLong);
        }
        token.push(input[i]);
        assert(token@ =~= input@.subrange(pos as int, i + 1));
        i += 1;
    }
    Ok((token, i))
}

/// Reads the byte behind the backslash at `pos`.
pub fn parse_escape(input: &[u8], pos: usize) -> (r: Result<(u8, usize), PostprocessError>)
    requires
        pos < input@.len(),
    ensures
        match r {
            Ok((c, next)) => pos + 1 < input@.len() && c == unescaped(input@[pos + 1]) && next
                == pos + 2,
            Err(e) => pos + 1 >= input@.len() && e == PostprocessError::EscapeEof,
        },
{
    if input.len() - pos > 1 {
        let c = input[pos + 1];
        let v = if c == 0x6E {
            0x0Au8
        } else if c == 0x72 {
            0x0Du8
        } else if c == 0x74 {
            0x09u8
        } else {
            c
        };
        Ok((v, pos + 2))
    } else {
        Err(PostprocessError::EscapeEof)
    }
}

/// Reads the path literal at `pos`: the path it names, the literal as it is
/// written out again, and where it ends.
pub fn parse_path(input: &[u8], pos: usize) -> (r: Result<
    (Vec<u8>, Vec<u8>, usize),
    PostprocessError,
>)
    requires
        pos <= input@.len(),
    ensures
        match r {
            Ok((file, raw, next)) => path_at(input@, pos as int) == Ok::<
                PathLiteral,
                PostprocessError,
            >(PathLiteral { file: file@, raw: raw@, next: next as int }) && pos < next
                <= input@.len(),
            Err(e) => path_at(input@, pos as int) == Err::<PathLiteral, PostprocessError>(e),
        },
{
    if pos >= input.len() {
        return Err(PostprocessError::LiteralEof);
    }
    let quote = input[pos];
    let mut file: Vec<u8> = Vec::new();
    let mut raw: Vec<u8> = Vec::new();
    raw.push(quote);
    let mut i = pos + 1;
    assert(raw@ =~= seq![quote]);
    while i < input.len()
        invariant
            pos < i <= input@.len(),
            quote == input@[pos as int],
            path_at(input@, pos as int) == literal_from(input@, i as int, quote, file@, raw@),
            !literal_is_full(file@, raw@),
        decreases input@.len() - i,
    {
        let c = input[i];
        if c == 0x0A || c == 0x0D {
            return Err(PostprocessError::LiteralEol);
        } else if c == 0x5C {
            match parse_escape(input, i) {
                Ok((v, next)) => {
                    raw.push(0x5C);
                    raw.push(input[i + 1]);
                    file.push(if v == 0x5C { 0x2F } else { v });
                    i = next;
                },
                Err(e) => {
                    return Err(e);
                },
            }
        } else {
            raw.push(c);
            if c == quote {
                return Ok((file, raw, i + 1));
            }
            file.push(c);
            i += 1;
        }
        if raw.len() >= PATH_LIMIT - 2 || file.len() >= PATH_LIMIT - 1 {
            return Err(PostprocessError::LiteralTooLong);
        }
    }
    Err(PostprocessError::LiteralEof)
}

/// Tells whether `child` names the file `parent` or the end of its path.
pub fn is_subpath(parent: &[u8], child: &[u8]) -> (r: bool)
    ensures
        r == subpath(parent@, child@),
{
    if parent.len() < child.len() {
        return false;
    }
    let offset = parent.len() - child.len();
    if offset != 0 && parent[offset - 1] != 0x2F {
        return false;
    }
    let mut i: usize = 0;
    while i < child.len()
        invariant
            i <= child@.len(),
            offset == parent@.len() - child@.len(),
            parent@.len() <= usize::MAX,
            forall|j: int|
                0 <= j < i ==> lower(child@[j]) == lower(#[trigger] parent@[offset + j]),
        decreases child@.len() - i,
    {
        if to_lower(child[i]) != to_lower(parent[offset + i]) {
            return false;
        }
        i += 1;
    }
    true
}


/// A `#line` directive as it was read: the line number as it was written, the
/// path it names, the path literal as it is written out again, and the end of
/// line behind the directive.
#[derive(Clone, Debug, PartialEq, Eq)]
pub struct LineDirective {
    pub line: Vec<u8>,
    pub file: Vec<u8>,
    pub raw: Vec<u8>,
    pub eol: Vec<u8>,
}

/// The mathematical value of a [`LineDirective`].
pub struct LineView {
    pub line: Seq<u8>,
    pub file: Seq<u8>,
    pub raw: Seq<u8>,
    pub eol: Seq<u8>,
}

impl View for LineDirective {
    type V = LineView;

    open spec fn view(&self) -> LineView {
        LineView { line: self.line@, file: self.file@, raw: self.raw@, eol: self.eol@ }
    }
}

/// What stands behind a `#`.
#[derive(Debug, PartialEq, Eq)]
pub enum Directive {
    /// `#line`, with what it says.
    Line(LineDirective),
    /// `#pragma hdrstop`.
    Hdrstop,
    /// Anything else; its line is passed over.
    Other,
}

/// The mathematical value of a [`Directive`].
pub enum DirectiveView {
    Line(LineView),
    Hdrstop,
    Other,
}

impl View for Directive {
    type V = DirectiveView;

    open spec fn view(&self) -> DirectiveView {
        match *self {
            Directive::Line(d) => DirectiveView::Line(d@),
            Directive::Hdrstop => DirectiveView::Hdrstop,
            Directive::Other => DirectiveView::Other,
        }
    }
}

/// What follows the word `line`, from `pos` on: a line number, a path literal
/// and the rest of the line; with it, where the next line begins.
pub open spec fn line_directive_at(s: Seq<u8>, pos: int) -> Result<(LineView, int), PostprocessError> {
    match token_at(s, spaces_end(s, pos), TOKEN_LIMIT as int) {
        Err(e) => Err(e),
        Ok((line, after_line)) => match path_at(s, spaces_end(s, after_line)) {
            Err(e) => Err(e),
            Ok(path) => Ok(
                (
                    LineView {
                        line,
                        file: path.file,
                        raw: path.raw,
                        eol: line_closing(s, path.next),
                    },
                    line_end(s, path.next),
                ),
            ),
        },
    }
}

/// What follows the word `pragma`, from `pos` on: whether it is `hdrstop`, and
/// where reading goes on. Behind `hdrstop` that is the end of the word; any
/// other pragma is passed over with its line.
pub open spec fn pragma_at(s: Seq<u8>, pos: int) -> Result<(bool, int), PostprocessError> {
    match token_at(s, spaces_end(s, pos), PRAGMA_LIMIT as int) {
        Err(e) => Err(e),
        Ok((what, after)) => if what == word_hdrstop() {
            Ok((true, after))
        } else {
            Ok((false, line_end(s, after)))
        },
    }
}

/// The directive whose `#` stands at `pos`, and where reading goes on.
pub open spec fn directive_at(s: Seq<u8>, pos: int) -> Result<
    (DirectiveView, int),
    PostprocessError,
> {
    match token_at(s, spaces_end(s, pos + 1), TOKEN_LIMIT as int) {
        Err(e) => Err(e),
        Ok((word, after)) => if word == word_line() {
            match line_directive_at(s, after) {
                Err(e) => Err(e),
                Ok((d, next)) => Ok((DirectiveView::Line(d), next)),
            }
        } else if word == word_pragma() {
            match pragma_at(s, after) {
                Err(e) => Err(e),
                Ok((true, next)) => Ok((DirectiveView::Hdrstop, next)),
                Ok((false, next)) => Ok((DirectiveView::Other, next)),
            }
        } else {
            Ok((DirectiveView::Other, line_end(s, after)))
        },
    }
}

pub proof fn lemma_directive_at(s: Seq<u8>, pos: int)
    requires
        0 <= pos < s.len(),
    ensures
        match directive_at(s, pos) {
            Ok((_, next)) => pos < next <= s.len(),
            Err(_) => true,
        },
{
    lemma_spaces_end(s, pos + 1);
    let p1 = spaces_end(s, pos + 1);
    lemma_token_end(s, p1);
    let p2 = token_end(s, p1);
    lemma_line_end(s, p2);
    lemma_spaces_end(s, p2);
    let p3 = spaces_end(s, p2);
    lemma_token_end(s, p3);
    let p4 = token_end(s, p3);
    lemma_line_end(s, p4);
    lemma_spaces_end(s, p4);
    let p5 = spaces_end(s, p4);
    if p5 < s.len() {
        lemma_literal_from(s, p5 + 1, s[p5], Seq::empty(), seq![s[p5]]);
        match path_at(s, p5) {
            Ok(path) => {
                lemma_line_end(s, path.next);
            },
            Err(_) => {},
        }
    }
}

fn is_word(token: &Vec<u8>, word: &[u8]) -> (r: bool)
    ensures
        r == (token@ == word@),
{
    if token.len() != word.len() {
        return false;
    }
    let mut i: usize = 0;
    while i < token.len()
        invariant
            i <= token@.len(),
            token@.len() == word@.len(),
            forall|j: int| 0 <= j < i ==> token@[j] == word@[j],
        decreases token@.len() - i,
    {
        if token[i] != word[i] {
            return false;
        }
        i += 1;
    }
    assert(token@ =~= word@);
    true
}

fn line_word() -> (r: Vec<u8>)
    ensures
        r@ == word_line(),
{
    vec![108u8, 105u8, 110u8, 101u8]
}

fn pragma_word() -> (r: Vec<u8>)
    ensures
        r@ == word_pragma(),
{
    vec![112u8, 114u8, 97u8, 103u8, 109u8, 97u8]
}

fn hdrstop_word() -> (r: Vec<u8>)
    ensures
        r@ == word_hdrstop(),
{
    vec![104u8, 100u8, 114u8, 115u8, 116u8, 111u8, 112u8]
}

fn hdrstop_pragma() -> (r: Vec<u8>)
    ensures
        r@ == pragma_hdrstop(),
{
    let r = vec![
        35u8,
        112u8,
        114u8,
        97u8,
        103u8,
        109u8,
        97u8,
        32u8,
        104u8,
        100u8,
        114u8,
        115u8,
        116u8,
        111u8,
        112u8,
    ];
    assert(r@ =~= pragma_hdrstop());
    r
}

fn opening_of_line() -> (r: Vec<u8>)
    ensures
        r@ == line_opening(),
{
    vec![35u8, 108u8, 105u8, 110u8, 101u8, 32u8]
}

/// Reads what follows the word `line`.
pub fn read_line_directive(input: &[u8], pos: usize) -> (r: Result<
    (LineDirective, usize),
    PostprocessError,
>)
    requires
        pos <= input@.len(),
    ensures
        match r {
            Ok((d, next)) => line_directive_at(input@, pos as int) == Ok::<
                (LineView, int),
                PostprocessError,
            >((d@, next as int)) && pos < next <= input@.len(),
            Err(e) => line_directive_at(input@, pos as int) == Err::<
                (LineView, int),
                PostprocessError,
            >(e),
        },
{
    let p1 = parse_spaces(input, pos);
    let (line, p2) = match parse_token(input, p1, TOKEN_LIMIT) {
        Ok(found) => found,
        Err(e) => {
            return Err(e);
        },
    };
    let p3 = parse_spaces(input, p2);
    let (file, raw, p4) = match parse_path(input, p3) {
        Ok(found) => found,
        Err(e) => {
            return Err(e);
        },
    };
    let (eol, next) = next_line_eol(input, p4);
    Ok((LineDirective { line, file, raw, eol }, next))
}

/// Reads what follows the word `pragma`.
pub fn read_pragma(input: &[u8], pos: usize) -> (r: Result<(bool, usize), PostprocessError>)
    requires
        pos <= input@.len(),
    ensures
        match r {
            Ok((stop, next)) => pragma_at(input@, pos as int) == Ok::<
                (bool, int),
                PostprocessError,
            >((stop, next as int)) && pos <= next <= input@.len(),
            Err(e) => pragma_at(input@, pos as int) == Err::<(bool, int), PostprocessError>(e),
        },
{
    let p1 = parse_spaces(input, pos);
    let (what, p2) = match parse_token(input, p1, PRAGMA_LIMIT) {
        Ok(found) => found,
        Err(e) => {
            return Err(e);
        },
    };
    let word = hdrstop_word();
    if is_word(&what, word.as_slice()) {
        Ok((true, p2))
    } else {
        Ok((false, next_line(input, p2)))
    }
}

/// Reads the directive whose `#` stands at `pos`.
pub fn parse_directive(input: &[u8], pos: usize) -> (r: Result<
    (Directive, usize),
    PostprocessError,
>)
    requires
        pos < input@.len(),
    ensures
        match r {
            Ok((d, next)) => directive_at(input@, pos as int) == Ok::<
                (DirectiveView, int),
                PostprocessError,
            >((d@, next as int)) && pos < next <= input@.len(),
            Err(e) => directive_at(input@, pos as int) == Err::<
                (DirectiveView, int),
                PostprocessError,
            >(e),
        },
{
    proof {
        lemma_directive_at(input@, pos as int);
    }
    let n = input.len();
    let p1 = parse_spaces(input, pos + 1);
    let (word, p2) = match parse_token(input, p1, TOKEN_LIMIT) {
        Ok(found) => found,
        Err(e) => {
            return Err(e);
        },
    };
    let line = line_word();
    let pragma = pragma_word();
    if is_word(&word, line.as_slice()) {
        match read_line_directive(input, p2) {
            Ok((d, next)) => Ok((Directive::Line(d), next)),
            Err(e) => Err(e),
        }
    } else if is_word(&word, pragma.as_slice()) {
        match read_pragma(input, p2) {
            Ok((true, next)) => Ok((Directive::Hdrstop, next)),
            Ok((false, next)) => Ok((Directive::Other, next)),
            Err(e) => Err(e),
        }
    } else {
        Ok((Directive::Other, next_line(input, p2)))
    }
}


/// Where a scan of a preprocessed stream stands.
#[derive(Clone, Debug, PartialEq, Eq)]
pub struct ScannerState {
    /// Up to here the stream was handed on or dropped.
    pub copy: usize,
    /// Up to here the stream was read.
    pub read: usize,
    /// What stands before the cut is handed on too.
    pub keep_headers: bool,
    /// Each source opens with a precompiled part, which ends at the cut.
    pub precompiled: bool,
    /// The path of the header that ends the precompiled part, if there is one.
    pub marker: Option<Vec<u8>>,
    /// The stream opened with a byte order mark.
    pub utf8: bool,
    /// The marker header was entered in the source at hand.
    pub header_found: bool,
    /// The path of the source at hand, as its first `#line` gave it.
    pub entry_file: Option<Vec<u8>>,
    /// The cut of the source at hand was reached.
    pub done: bool,
}

/// The mathematical value of a [`ScannerState`].
pub struct ScanView {
    pub copy: int,
    pub read: int,
    pub keep_headers: bool,
    pub precompiled: bool,
    pub marker: Option<Seq<u8>>,
    pub utf8: bool,
    pub header_found: bool,
    pub entry_file: Option<Seq<u8>>,
    pub done: bool,
}

/// The value of an optional byte string.
pub open spec fn opt_bytes(item: Option<Vec<u8>>) -> Option<Seq<u8>> {
    match item {
        Some(v) => Some(v@),
        None => None,
    }
}

/// The values of a list of byte strings, in order.
pub open spec fn chunk_views(chunks: Seq<Vec<u8>>) -> Seq<Seq<u8>> {
    Seq::new(chunks.len(), |i: int| chunks[i]@)
}

impl View for ScannerState {
    type V = ScanView;

    open spec fn view(&self) -> ScanView {
        ScanView {
            copy: self.copy as int,
            read: self.read as int,
            keep_headers: self.keep_headers,
            precompiled: self.precompiled,
            marker: opt_bytes(self.marker),
            utf8: self.utf8,
            header_found: self.header_found,
            entry_file: opt_bytes(self.entry_file),
            done: self.done,
        }
    }
}

impl ScanView {
    /// The state fits a stream of `len` bytes.
    pub open spec fn fits(self, len: int) -> bool {
        0 <= self.copy <= self.read <= len
    }

    /// The state with another place of reading.
    pub open spec fn at(self, read: int) -> ScanView {
        ScanView { read, ..self }
    }
}

/// The state a scan begins in, behind the byte order mark where there is one.
/// Where the sources have no precompiled part, the cut counts as reached from
/// the start.
pub open spec fn scan_start(
    s: Seq<u8>,
    precompiled: bool,
    marker: Option<Seq<u8>>,
    keep_headers: bool,
) -> ScanView {
    ScanView {
        copy: 0,
        read: bom_end(s),
        keep_headers,
        precompiled,
        marker,
        utf8: bom_end(s) == 3,
        header_found: false,
        entry_file: None,
        done: !precompiled,
    }
}

/// What was read and not yet handed on is handed on now, where headers are
/// kept or the cut was reached, and dropped otherwise. The second part is what
/// the sink is given.
pub open spec fn flushed(s: Seq<u8>, st: ScanView) -> (ScanView, Seq<Seq<u8>>) {
    if st.copy == st.read {
        (st, Seq::empty())
    } else if st.keep_headers || st.done {
        (ScanView { copy: st.read, ..st }, seq![s.subrange(st.copy, st.read)])
    } else {
        (ScanView { copy: st.read, ..st }, Seq::empty())
    }
}

/// What a line of the stream was.
pub enum LineKind {
    /// There was no line: the stream is used up.
    Eof,
    /// A line that changes nothing but, for `#pragma hdrstop`, the cut.
    Plain,
    /// A `#line` directive; the sink decides what it means.
    Line(LineDirective),
}

/// The mathematical value of a [`LineKind`].
pub enum LineKindView {
    Eof,
    Plain,
    Line(LineView),
}

impl View for LineKind {
    type V = LineKindView;

    open spec fn view(&self) -> LineKindView {
        match *self {
            LineKind::Eof => LineKindView::Eof,
            LineKind::Plain => LineKindView::Plain,
            LineKind::Line(d) => LineKindView::Line(d@),
        }
    }
}

/// The state after `#pragma hdrstop` was read, and what the sink is given: the
/// pragma is the cut unless the cut was reached before. What stands before it
/// is handed on where headers are kept; where they are not, the pragma is
/// written out in its plain form in their place.
pub open spec fn hdrstop_applied(s: Seq<u8>, st: ScanView) -> (ScanView, Seq<Seq<u8>>) {
    if st.done {
        (st, Seq::empty())
    } else {
        let (st2, w) = flushed(s, st);
        (
            ScanView { done: true, ..st2 },
            if st.keep_headers {
                w
            } else {
                w.push(pragma_hdrstop())
            },
        )
    }
}

/// The state after the next line was read, what the sink is given, and what
/// the line was. Blank lines before it are passed over. At a `#`, what was
/// read is handed on first where headers are kept or the cut was reached, so
/// that it goes to the source it belongs to. At the end of the stream all
/// that is left is handed on.
pub open spec fn line_step(s: Seq<u8>, st: ScanView) -> Result<
    (ScanView, Seq<Seq<u8>>, LineKindView),
    PostprocessError,
> {
    let at = empty_end(s, st.read);
    if at >= s.len() {
        let (st2, w) = flushed(s, st.at(at));
        Ok((st2, w, LineKindView::Eof))
    } else if s[at] != 0x23 {
        Ok((st.at(line_end(s, at)), Seq::empty(), LineKindView::Plain))
    } else {
        let (st1, w1) = if st.keep_headers || st.done {
            flushed(s, st.at(at))
        } else {
            (st, Seq::empty())
        };
        match directive_at(s, at) {
            Err(e) => Err(e),
            Ok((DirectiveView::Other, next)) => Ok((st1.at(next), w1, LineKindView::Plain)),
            Ok((DirectiveView::Hdrstop, next)) => {
                let (st2, w2) = hdrstop_applied(s, st1.at(next));
                Ok((st2, w1 + w2, LineKindView::Plain))
            },
            Ok((DirectiveView::Line(d), next)) => Ok((st1.at(next), w1, LineKindView::Line(d))),
        }
    }
}

/// The directive gives the line number `1`: it enters a file.
pub open spec fn enters_file(d: LineView) -> bool {
    d.line == seq![49u8]
}

/// What is written where the precompiled part ends: `#pragma hdrstop`, and
/// the `#line` directive that leads back into the source.
pub open spec fn resume_mark(d: LineView) -> Seq<u8> {
    pragma_hdrstop() + d.eol + line_opening() + d.line + seq![32u8] + d.raw + d.eol
}

/// The state after a `#line` directive was read, and what the sink is given.
/// `separator` is the sink's answer for a directive that enters a file: with
/// it a new source begins, whose cut is still to come where the sources have
/// a precompiled part, and the directive itself is dropped where headers are
/// not kept. The first path of a source is remembered. A later directive
/// that leads back to that path, once the marker header was entered, is the
/// cut: what was read is handed on, then the mark. A directive that enters the
/// marker header is taken note of.
pub open spec fn line_applied(s: Seq<u8>, st: ScanView, d: LineView, separator: bool) -> (
    ScanView,
    Seq<Seq<u8>>,
) {
    let st1 = if enters_file(d) && separator {
        ScanView {
            done: !st.precompiled,
            header_found: false,
            entry_file: None,
            copy: if st.keep_headers {
                st.copy
            } else {
                st.read
            },
            ..st
        }
    } else {
        st
    };
    match st1.entry_file {
        None => (ScanView { entry_file: Some(d.file), ..st1 }, Seq::empty()),
        Some(path) => {
            let (st2, w2) = if st1.header_found && path == d.file {
                let (st3, w3) = flushed(s, st1);
                (ScanView { done: true, ..st3 }, w3.push(resume_mark(d)))
            } else {
                (st1, Seq::empty())
            };
            let enters_marker = enters_file(d) && match st.marker {
                Some(m) => subpath(d.file, m),
                None => false,
            };
            (ScanView { header_found: st2.header_found || enters_marker, ..st2 }, w2)
        },
    }
}

/// How a scan ends: a marker that was asked for has to have led to the cut of
/// the last source.
pub open spec fn scan_result(st: ScanView) -> Result<(), PostprocessError> {
    if st.marker is Some && !st.done {
        Err(PostprocessError::MarkerNotFound)
    } else {
        Ok(())
    }
}

/// Where reading stands once the line behind `pos` is read, be it a directive
/// or not; `pos` itself at the end of the stream.
pub open spec fn line_passed(s: Seq<u8>, pos: int) -> Result<int, PostprocessError> {
    let at = empty_end(s, pos);
    if 0 <= at < s.len() {
        if s[at] != 0x23 {
            Ok(line_end(s, at))
        } else {
            match directive_at(s, at) {
                Err(e) => Err(e),
                Ok((_, next)) => Ok(next),
            }
        }
    } else {
        Ok(pos)
    }
}

/// The first error in the form of the stream from `pos` on, if there is one.
/// It depends on the stream alone, not on what a sink answers.
pub open spec fn syntax_error_from(s: Seq<u8>, pos: int) -> Option<PostprocessError>
    decreases s.len() - pos,
{
    let next = line_passed(s, pos);
    match next {
        Err(e) => Some(e),
        Ok(next) => if pos < next <= s.len() {
            syntax_error_from(s, next)
        } else {
            None
        },
    }
}

/// The first error in the form of a whole stream, if there is one.
pub open spec fn syntax_error(s: Seq<u8>) -> Option<PostprocessError> {
    syntax_error_from(s, bom_end(s))
}

impl ScannerState {
    /// A scan that has read nothing yet.
    pub fn new(precompiled: bool, keep_headers: bool) -> (r: Self)
        ensures
            r@ == (ScanView {
                copy: 0,
                read: 0,
                keep_headers,
                precompiled,
                marker: None,
                utf8: false,
                header_found: false,
                entry_file: None,
                done: !precompiled,
            }),
    {
        ScannerState {
            copy: 0,
            read: 0,
            keep_headers,
            precompiled,
            marker: None,
            utf8: false,
            header_found: false,
            entry_file: None,
            done: !precompiled,
        }
    }

    /// Passes over the byte order mark, byte by byte as far as it goes.
    pub fn parse_bom(&mut self, input: &[u8])
        requires
            old(self).read == 0,
        ensures
            final(self)@ == (ScanView {
                read: bom_end(input@),
                utf8: bom_end(input@) == 3,
                ..old(self)@
            }),
            final(self).read <= input@.len(),
    {
        let n = input.len();
        if n >= 1 && input[0] == 0xEF {
            if n >= 2 && input[1] == 0xBB {
                if n >= 3 && input[2] == 0xBF {
                    self.read = 3;
                    self.utf8 = true;
                } else {
                    self.read = 2;
                    self.utf8 = false;
                }
            } else {
                self.read = 1;
                self.utf8 = false;
            }
        } else {
            self.utf8 = false;
        }
    }

    /// Hands on or drops what was read since the last time.
    pub fn flush(&mut self, input: &[u8], out: &mut Vec<Vec<u8>>)
        requires
            old(self)@.fits(input@.len() as int),
        ensures
            final(self)@ == flushed(input@, old(self)@).0,
            chunk_views(final(out)@) == chunk_views(old(out)@) + flushed(input@, old(self)@).1,
            final(self)@.fits(input@.len() as int),
    {
        let ghost before = chunk_views(out@);
        if self.copy != self.read {
            if self.keep_headers || self.done {
                let chunk = slice_to_vec(slice_subrange(input, self.copy, self.read));
                out.push(chunk);
                assert(chunk_views(out@) =~= before + seq![
                    input@.subrange(self.copy as int, self.read as int),
                ]);
            }
            self.copy = self.read;
        }
        assert(chunk_views(out@) =~= before + flushed(input@, old(self)@).1);
    }

    /// Takes `#pragma hdrstop` as the cut, unless the cut was reached before.
    pub fn parse_directive_pragma(&mut self, input: &[u8], out: &mut Vec<Vec<u8>>)
        requires
            old(self)@.fits(input@.len() as int),
        ensures
            final(self)@ == hdrstop_applied(input@, old(self)@).0,
            chunk_views(final(out)@) == chunk_views(old(out)@) + hdrstop_applied(
                input@,
                old(self)@,
            ).1,
            final(self)@.fits(input@.len() as int),
    {
        let ghost before = chunk_views(out@);
        if !self.done {
            self.flush(input, out);
            if !self.keep_headers {
                let ghost middle = chunk_views(out@);
                let mark = hdrstop_pragma();
                out.push(mark);
                assert(chunk_views(out@) =~= middle.push(pragma_hdrstop()));
            }
            self.done = true;
        }
        assert(chunk_views(out@) =~= before + hdrstop_applied(input@, old(self)@).1);
    }

    /// Reads the next line. What the sink is to be given is put behind `out`.
    pub fn parse_line(&mut self, input: &[u8], out: &mut Vec<Vec<u8>>) -> (r: Result<
        LineKind,
        PostprocessError,
    >)
        requires
            old(self)@.fits(input@.len() as int),
        ensures
            match r {
                Ok(kind) => {
                    &&& line_step(input@, old(self)@) == Ok::<
                        (ScanView, Seq<Seq<u8>>, LineKindView),
                        PostprocessError,
                    >(
                        (
                            final(self)@,
                            line_step(input@, old(self)@)->Ok_0.1,
                            kind@,
                        ),
                    )
                    &&& chunk_views(final(out)@) == chunk_views(old(out)@) + line_step(
                        input@,
                        old(self)@,
                    )->Ok_0.1
                    &&& final(self)@.fits(input@.len() as int)
                    &&& kind is Eof ==> final(self).read == input@.len()
                    &&& !(kind is Eof) ==> final(self).read > old(self).read
                },
                Err(e) => line_step(input@, old(self)@) == Err::<
                    (ScanView, Seq<Seq<u8>>, LineKindView),
                    PostprocessError,
                >(e),
            },
    {
        let ghost before = chunk_views(out@);
        let ghost start = self@;
        let at = parse_empty(input, self.read);
        if at >= input.len() {
            self.read = at;
            self.flush(input, out);
            return Ok(LineKind::Eof);
        }
        if input[at] != 0x23 {
            proof {
                lemma_line_end(input@, at as int);
            }
            self.read = next_line(input, at);
            assert(chunk_views(out@) =~= before + Seq::<Seq<u8>>::empty());
            return Ok(LineKind::Plain);
        }
        if self.keep_headers || self.done {
            self.read = at;
            self.flush(input, out);
        }
        let ghost middle = chunk_views(out@);
        let ghost w1 = if start.keep_headers || start.done {
            flushed(input@, start.at(at as int)).1
        } else {
            Seq::<Seq<u8>>::empty()
        };
        assert(middle =~= before + w1);
        match parse_directive(input, at) {
            Err(e) => Err(e),
            Ok((Directive::Other, next)) => {
                self.read = next;
                Ok(LineKind::Plain)
            },
            Ok((Directive::Hdrstop, next)) => {
                self.read = next;
                let ghost st1 = self@;
                self.parse_directive_pragma(input, out);
                assert(chunk_views(out@) =~= before + (w1 + hdrstop_applied(input@, st1).1));
                Ok(LineKind::Plain)
            },
            Ok((Directive::Line(d), next)) => {
                self.read = next;
                Ok(LineKind::Line(d))
            },
        }
    }

    /// Takes a `#line` directive into the state, with the sink's answer for a
    /// directive that enters a file. What the sink is to be given is put
    /// behind `out`.
    pub fn parse_directive_line(
        &mut self,
        input: &[u8],
        d: &LineDirective,
        separator: bool,
        out: &mut Vec<Vec<u8>>,
    )
        requires
            old(self)@.fits(input@.len() as int),
        ensures
            final(self)@ == line_applied(input@, old(self)@, d@, separator).0,
            chunk_views(final(out)@) == chunk_views(old(out)@) + line_applied(
                input@,
                old(self)@,
                d@,
                separator,
            ).1,
            final(self)@.fits(input@.len() as int),
            final(self).read == old(self).read,
    {
        let ghost before = chunk_views(out@);
        let first = d.line.len() == 1 && d.line[0] == 49u8;
        assert(first == enters_file(d@)) by {
            if first {
                assert(d@.line =~= seq![49u8]);
            }
        }
        if first && separator {
            self.done = !self.precompiled;
            self.header_found = false;
            self.entry_file = None;
            if !self.keep_headers {
                self.copy = self.read;
            }
        }
        let ghost st1 = self@;
        let known = match &self.entry_file {
            Some(path) => Some(is_word(path, d.file.as_slice())),
            None => None,
        };
        match known {
            None => {
                self.entry_file = Some(d.file.clone());
                assert(chunk_views(out@) =~= before + Seq::<Seq<u8>>::empty());
            },
            Some(same) => {
                if self.header_found && same {
                    self.flush(input, out);
                    let ghost middle = chunk_views(out@);
                    let mut mark = hdrstop_pragma();
                    let opening = opening_of_line();
                    mark.extend_from_slice(d.eol.as_slice());
                    mark.extend_from_slice(opening.as_slice());
                    mark.extend_from_slice(d.line.as_slice());
                    mark.push(32u8);
                    mark.extend_from_slice(d.raw.as_slice());
                    mark.extend_from_slice(d.eol.as_slice());
                    assert(mark@ =~= resume_mark(d@));
                    out.push(mark);
                    assert(chunk_views(out@) =~= middle.push(resume_mark(d@)));
                    self.done = true;
                }
                if first {
                    let enters_marker = match &self.marker {
                        Some(m) => is_subpath(d.file.as_slice(), m.as_slice()),
                        None => false,
                    };
                    if enters_marker {
                        self.header_found = true;
                    }
                }
                assert(chunk_views(out@) =~= before + line_applied(
                    input@,
                    old(self)@,
                    d@,
                    separator,
                ).1);
            },
        }
    }

    /// Tells how the scan ended.
    pub fn finish(&self) -> (r: Result<(), PostprocessError>)
        ensures
            r == scan_result(self@),
    {
        if self.marker.is_some() && !self.done {
            Err(PostprocessError::MarkerNotFound)
        } else {
            Ok(())
        }
    }
}


/// std's I/O error, as a sink or an encoder hands it back.
#[verifier::external_type_specification]
#[verifier::external_body]
pub struct ExIoError(std::io::Error);

/// Where a filtered stream goes. The sink also decides where one source ends
/// and the next begins.
pub trait PostprocessWrite {
    /// Takes the next bytes of the stream.
    fn write(&mut self, buf: &[u8]) -> Result<usize, std::io::Error>;

    /// Tells whether a `#line 1` directive with the path `marker` opens a new
    /// source. What is written after a `true` belongs to that source.
    fn is_source_separator(&mut self, marker: &[u8]) -> Result<bool, std::io::Error>;
}

/// Why filtering stopped.
#[derive(Debug)]
pub enum FilterError {
    /// The stream is not what a preprocessor writes.
    Syntax(PostprocessError),
    /// The sink refused, or the marker could not be encoded.
    Io(std::io::Error),
}

/// `text` with every backslash turned into a slash.
pub open spec fn slashed(text: Seq<char>) -> Seq<char> {
    Seq::new(text.len(), |i: int| if text[i] == '\\' { '/' } else { text[i] })
}

/// Turns every backslash of `text` into a slash.
pub fn replace_backslashes(text: &str) -> (r: String)
    ensures
        r@ == slashed(text@),
{
    let n = text.unicode_len();
    let mut result = String::new();
    let mut i: usize = 0;
    proof {
        reveal_strlit("/");
    }
    while i < n
        invariant
            i <= n,
            n == text@.len(),
            result@ == slashed(text@).subrange(0, i as int),
            "/"@ == seq!['/'],
        decreases n - i,
    {
        let ghost before = result@;
        if text.get_char(i) == '\\' {
            result.append("/");
        } else {
            result.append(text.substring_char(i, i + 1));
        }
        assert(result@ =~= slashed(text@).subrange(0, i + 1));
        i += 1;
    }
    assert(result@ =~= slashed(text@));
    result
}

/// Encodes text in the code page of this machine, through
/// `local_encoding::Encoding::ANSI.to_bytes`. Which bytes come back depends on
/// the machine, so the contract promises nothing of them.
#[verifier::external_body]
fn ansi_bytes(text: &str) -> (r: Result<Vec<u8>, std::io::Error>) {
    Encoding::ANSI.to_bytes(text)
}

/// The marker as the paths of the stream are compared with it: in a stream
/// with a byte order mark its bytes as they are, else its text with slashes
/// for backslashes, in the code page of this machine.
pub fn marker_bytes(marker: &str, utf8: bool) -> (r: Result<Vec<u8>, std::io::Error>)
    ensures
        utf8 ==> (match r {
            Ok(bytes) => bytes@ == marker.spec_bytes(),
            Err(_) => false,
        }),
{
    if utf8 {
        Ok(slice_to_vec(marker.as_bytes()))
    } else {
        let replaced = replace_backslashes(marker);
        ansi_bytes(replaced.as_str())
    }
}

/// The sink was given `chunk`, and `answer` is what it said: the contract of
/// its `write` allows that answer.
pub open spec fn was_written<W: PostprocessWrite>(
    chunk: Seq<u8>,
    answer: Result<usize, std::io::Error>,
) -> bool {
    exists|w: &mut W, b: &[u8]| b@ == chunk && #[trigger] call_ensures(W::write, (w, b), answer)
}

/// `answers` are what the sink said when it was given the chunks one after
/// the other. The writing ends at the first error, which is the result `r`;
/// else every chunk was taken, and the result is no error.
pub open spec fn written_with<W: PostprocessWrite>(
    chunks: Seq<Seq<u8>>,
    r: Result<(), std::io::Error>,
    answers: Seq<Result<usize, std::io::Error>>,
) -> bool {
    &&& answers.len() <= chunks.len()
    &&& forall|i: int|
        0 <= i < answers.len() ==> was_written::<W>(chunks[i], #[trigger] answers[i])
    &&& forall|i: int| 0 <= i < answers.len() - 1 ==> (#[trigger] answers[i]) is Ok
    &&& if answers.len() > 0 && answers.last() is Err {
        r == Err::<(), std::io::Error>(answers.last()->Err_0)
    } else {
        answers.len() == chunks.len() && r is Ok
    }
}

/// `r` is what handing the chunks to a sink gives: there are answers of the
/// sink that lead to it.
pub open spec fn written<W: PostprocessWrite>(
    chunks: Seq<Seq<u8>>,
    r: Result<(), std::io::Error>,
) -> bool {
    exists|answers: Seq<Result<usize, std::io::Error>>| #[trigger]
        written_with::<W>(chunks, r, answers)
}

/// Hands the chunks to the sink one after the other, up to its first error.
fn write_all<W: PostprocessWrite>(writer: &mut W, chunks: &Vec<Vec<u8>>) -> (r: Result<
    (),
    std::io::Error,
>)
    ensures
        written::<W>(chunk_views(chunks@), r),
        chunks@.len() == 0 ==> r is Ok && *final(writer) == *old(writer),
{
    let ghost views = chunk_views(chunks@);
    let ghost mut answers: Seq<Result<usize, std::io::Error>> = Seq::empty();
    let mut i: usize = 0;
    while i < chunks.len()
        invariant
            i <= chunks.len(),
            views == chunk_views(chunks@),
            answers.len() == i,
            i == 0 ==> *writer == *old(writer),
            forall|j: int| 0 <= j < i ==> was_written::<W>(views[j], #[trigger] answers[j]),
            forall|j: int| 0 <= j < i ==> (#[trigger] answers[j]) is Ok,
        decreases chunks.len() - i,
    {
        let answer = writer.write(chunks[i].as_slice());
        proof {
            assert(views[i as int] == chunks@[i as int]@);
            assert(was_written::<W>(views[i as int], answer));
            let old_answers = answers;
            answers = answers.push(answer);
            assert forall|j: int| 0 <= j < answers.len() implies was_written::<W>(
                views[j],
                #[trigger] answers[j],
            ) by {
                if j < old_answers.len() {
                    assert(was_written::<W>(views[j], old_answers[j]));
                }
            }
            assert forall|j: int| 0 <= j < answers.len() - 1 implies (#[trigger] answers[j]) is Ok by {
                assert(old_answers[j] is Ok);
            }
        }
        match answer {
            Ok(_) => {},
            Err(e) => {
                assert(written_with::<W>(views, Err::<(), std::io::Error>(e), answers));
                return Err(e);
            },
        }
        i += 1;
    }
    assert(written_with::<W>(views, Ok::<(), std::io::Error>(()), answers));
    Ok(())
}

/// The sink was asked whether a `#line 1` directive with the path `path`
/// opens a new source, and `answer` is what it said: the contract of its
/// `is_source_separator` allows that answer.
pub open spec fn was_queried<W: PostprocessWrite>(
    path: Seq<u8>,
    answer: Result<bool, std::io::Error>,
) -> bool {
    exists|w: &mut W, b: &[u8]|
        b@ == path && #[trigger] call_ensures(W::is_source_separator, (w, b), answer)
}

/// What the sink's answers to a list of chunks come to: its first error, which
/// is its last answer, or no error.
pub open spec fn write_result(answers: Seq<Result<usize, std::io::Error>>) -> Result<
    (),
    std::io::Error,
> {
    if answers.len() > 0 && answers.last() is Err {
        Err(answers.last()->Err_0)
    } else {
        Ok(())
    }
}

/// The chunks were handed to the sink one after the other, up to its first
/// error, and `answers` are what it said.
pub open spec fn handed<W: PostprocessWrite>(
    chunks: Seq<Seq<u8>>,
    answers: Seq<Result<usize, std::io::Error>>,
) -> bool {
    written_with::<W>(chunks, write_result(answers), answers)
}

/// What a sink said while one line was taken up: its answers to the chunks
/// that the line gave; for a directive that enters a file, its answer to
/// whether a new source begins; and its answers to the chunks that the
/// directive gave after that.
pub struct LineAnswers {
    pub wrote: Seq<Result<usize, std::io::Error>>,
    pub asked: Option<Result<bool, std::io::Error>>,
    pub wrote_after: Seq<Result<usize, std::io::Error>>,
}

/// How the taking up of a line ends: with the state for the next line, or
/// with the result of the whole.
pub enum LineEnd {
    Next(ScanView),
    Done(Result<(), FilterError>),
}

/// What the end of a scan gives.
pub open spec fn filter_end(st: ScanView) -> Result<(), FilterError> {
    match scan_result(st) {
        Ok(_) => Ok(()),
        Err(e) => Err(FilterError::Syntax(e)),
    }
}

/// How a `#line` directive is taken up in the state `st`, with the sink's
/// answers `said`; `None` where these are not the answers to this directive.
/// The sink is asked whether a new source begins where the directive enters a
/// file, with the path of that file, and not otherwise. Its answer decides how
/// the directive changes the state and what is handed to the sink then. An
/// error of the sink ends the whole.
pub open spec fn directive_taken<W: PostprocessWrite>(
    s: Seq<u8>,
    st: ScanView,
    d: LineView,
    said: LineAnswers,
) -> Option<LineEnd> {
    if enters_file(d) != (said.asked is Some) {
        None
    } else {
        match said.asked {
            Some(answer) if !was_queried::<W>(d.file, answer) => None,
            Some(Err(e)) => if said.wrote_after.len() == 0 {
                Some(LineEnd::Done(Err(FilterError::Io(e))))
            } else {
                None
            },
            _ => {
                let separator = said.asked == Some(Ok::<bool, std::io::Error>(true));
                let (st2, w2) = line_applied(s, st, d, separator);
                if !handed::<W>(w2, said.wrote_after) {
                    None
                } else {
                    match write_result(said.wrote_after) {
                        Err(e) => Some(LineEnd::Done(Err(FilterError::Io(e)))),
                        Ok(_) => Some(LineEnd::Next(st2)),
                    }
                }
            },
        }
    }
}

/// How the next line is taken up in the state `st`, with the sink's answers
/// `said`; `None` where the line has an error of form or these are not the
/// answers to this line. What the line gives is handed to the sink, chunk by
/// chunk; then a `#line` directive is taken up. At the end of the stream the
/// result is that of the scan. An error of the sink ends the whole.
pub open spec fn line_taken<W: PostprocessWrite>(
    s: Seq<u8>,
    st: ScanView,
    said: LineAnswers,
) -> Option<LineEnd> {
    match line_step(s, st) {
        Err(_) => None,
        Ok((st1, w1, kind)) => if !handed::<W>(w1, said.wrote) {
            None
        } else {
            match write_result(said.wrote) {
                Err(e) => if said.asked is None && said.wrote_after.len() == 0 {
                    Some(LineEnd::Done(Err(FilterError::Io(e))))
                } else {
                    None
                },
                Ok(_) => match kind {
                    LineKindView::Line(d) => directive_taken::<W>(s, st1, d, said),
                    _ => if said.asked is Some || said.wrote_after.len() > 0 {
                        None
                    } else if kind is Eof {
                        Some(LineEnd::Done(filter_end(st1)))
                    } else {
                        Some(LineEnd::Next(st1))
                    },
                },
            }
        }
    }
}

/// How the filtering ends that goes on from the state `st`, where `said` from
/// `at` on are the sink's answers, line by line; `None` where these are not
/// the answers to the lines that follow. The lines are taken up one after the
/// other. The first error of form ends the filtering with that error, an
/// error of the sink with the sink's error, and the end of the stream with the
/// result of the scan.
pub open spec fn filtered_from<W: PostprocessWrite>(
    s: Seq<u8>,
    st: ScanView,
    said: Seq<LineAnswers>,
    at: int,
) -> Option<Result<(), FilterError>>
    decreases s.len() - st.read,
{
    match line_step(s, st) {
        Err(e) => if at == said.len() {
            Some(Err(FilterError::Syntax(e)))
        } else {
            None
        },
        Ok(_) => if !(0 <= at < said.len()) {
            None
        } else {
            match line_taken::<W>(s, st, said[at]) {
                None => None,
                Some(LineEnd::Done(r)) => if at + 1 == said.len() {
                    Some(r)
                } else {
                    None
                },
                Some(LineEnd::Next(next)) => if st.read < next.read <= s.len() {
                    filtered_from::<W>(s, next, said, at + 1)
                } else {
                    None
                },
            }
        },
    }
}

/// The marker was brought into the form in which the paths of the stream are
/// compared with it, and `made` is what came of it. In a stream with a byte
/// order mark it is the bytes of the marker as they are. Else it is for the
/// code page of this machine to say, and may fail.
pub open spec fn marker_made(
    marker: Seq<char>,
    utf8: bool,
    made: Result<Seq<u8>, std::io::Error>,
) -> bool {
    utf8 ==> made == Ok::<Seq<u8>, std::io::Error>(vstd::utf8::encode_utf8(marker))
}

/// The sink was never called: no chunk was handed to it and nothing was asked
/// of it.
pub open spec fn sink_is_idle(said: Seq<LineAnswers>) -> bool {
    forall|i: int|
        0 <= i < said.len() ==> (#[trigger] said[i]).wrote.len() == 0 && said[i].asked is None
            && said[i].wrote_after.len() == 0
}

/// `r` is what filtering the stream `s` gives, where `made` is what came of
/// the marker and `said` are the sink's answers, line by line. A marker that
/// cannot be brought into its form ends the filtering with that error before
/// the sink is called. Else the scan begins behind the byte order mark, with
/// the marker in its form, and `r` is how the filtering from there ends.
/// `untouched` says that the sink is as it was; it is so where the sink was
/// never called.
pub open spec fn filtered_with<W: PostprocessWrite>(
    s: Seq<u8>,
    precompiled: bool,
    marker: Option<Seq<char>>,
    keep_headers: bool,
    r: Result<(), FilterError>,
    untouched: bool,
    made: Option<Result<Seq<u8>, std::io::Error>>,
    said: Seq<LineAnswers>,
) -> bool {
    &&& sink_is_idle(said) ==> untouched
    &&& match marker {
        None => made is None && filtered_from::<W>(
            s,
            scan_start(s, precompiled, None, keep_headers),
            said,
            0,
        ) == Some(r),
        Some(text) => match made {
            None => false,
            Some(Err(e)) => marker_made(text, bom_end(s) == 3, Err(e)) && said.len() == 0
                && r == Err::<(), FilterError>(FilterError::Io(e)),
            Some(Ok(bytes)) => marker_made(text, bom_end(s) == 3, Ok(bytes))
                && filtered_from::<W>(
                s,
                scan_start(s, precompiled, Some(bytes), keep_headers),
                said,
                0,
            ) == Some(r),
        },
    }
}

/// `r` is what filtering the stream `s` into a sink gives: there are answers
/// of the sink that lead to it.
pub open spec fn filtered<W: PostprocessWrite>(
    s: Seq<u8>,
    precompiled: bool,
    marker: Option<Seq<char>>,
    keep_headers: bool,
    r: Result<(), FilterError>,
    untouched: bool,
) -> bool {
    exists|made: Option<Result<Seq<u8>, std::io::Error>>, said: Seq<LineAnswers>| #[trigger]
        filtered_with::<W>(s, precompiled, marker, keep_headers, r, untouched, made, said)
}

/// Takes up a `#line` directive: asks the sink where the directive enters a
/// file, takes the directive into the state and hands on what that gives. The
/// result is the error that ended the filtering, if there was one, and what
/// the sink said; `wrote` is what it said before, to the chunks of the line.
#[verifier::rlimit(50)]
fn take_directive<W: PostprocessWrite>(
    state: &mut ScannerState,
    input: &[u8],
    writer: &mut W,
    d: &LineDirective,
    Ghost(wrote): Ghost<Seq<Result<usize, std::io::Error>>>,
) -> (r: (Option<FilterError>, Ghost<LineAnswers>))
    requires
        old(state)@.fits(input@.len() as int),
    ensures
        r.1@.wrote == wrote,
        directive_taken::<W>(input@, old(state)@, d@, r.1@) == Some(
            match r.0 {
                Some(e) => LineEnd::Done(Err(e)),
                None => LineEnd::Next(final(state)@),
            },
        ),
        r.0 matches Some(e) ==> e is Io,
        final(state)@.fits(input@.len() as int),
        final(state).read == old(state).read,
        final(state)@.marker == old(state)@.marker,
        final(state).precompiled == old(state).precompiled,
        !old(state).precompiled && old(state).done ==> final(state).done,
        r.1@.asked is None && r.1@.wrote_after.len() == 0 ==> *final(writer) == *old(writer),
{
    let ghost s = input@;
    let ghost st1 = state@;
    let ghost none = Seq::<Result<usize, std::io::Error>>::empty();
    let first = d.line.len() == 1 && d.line[0] == 49u8;
    assert(first == enters_file(d@)) by {
        if first {
            assert(d.line@ =~= seq![49u8]);
        }
    }
    let ghost mut asked: Option<Result<bool, std::io::Error>> = None;
    let separator = if first {
        let answer = writer.is_source_separator(d.file.as_slice());
        proof {
            asked = Some(answer);
            assert(was_queried::<W>(d@.file, answer));
        }
        match answer {
            Ok(answer) => answer,
            Err(e) => {
                return (
                    Some(FilterError::Io(e)),
                    Ghost(LineAnswers { wrote, asked, wrote_after: none }),
                );
            },
        }
    } else {
        false
    };
    assert(separator == (asked == Some(Ok::<bool, std::io::Error>(true))));
    let mut rest: Vec<Vec<u8>> = Vec::new();
    state.parse_directive_line(input, d, separator, &mut rest);
    let ghost w2 = line_applied(s, st1, d@, separator).1;
    assert(chunk_views(rest@) =~= w2);
    let second_answer = write_all(writer, &rest);
    let ghost wrote_after = choose|answers: Seq<Result<usize, std::io::Error>>|
        written_with::<W>(w2, second_answer, answers);
    assert(handed::<W>(w2, wrote_after));
    match second_answer {
        Ok(_) => (None, Ghost(LineAnswers { wrote, asked, wrote_after })),
        Err(e) => (Some(FilterError::Io(e)), Ghost(LineAnswers { wrote, asked, wrote_after })),
    }
}

/// How the taking up of a line went.
enum Taken {
    /// The line is done with, and another may follow.
    Next,
    /// The stream is used up.
    End,
    /// The filtering ends here, with this error.
    Failed(FilterError),
}

/// Takes up the next line: reads it, hands on what it gives, and takes up a
/// `#line` directive. The second part of the result is what the sink said.
#[verifier::rlimit(50)]
fn take_line<W: PostprocessWrite>(state: &mut ScannerState, input: &[u8], writer: &mut W) -> (r: (
    Taken,
    Ghost<LineAnswers>,
))
    requires
        old(state)@.fits(input@.len() as int),
    ensures
        match r.0 {
            Taken::Failed(FilterError::Syntax(e)) => {
                &&& line_step(input@, old(state)@) == Err::<
                    (ScanView, Seq<Seq<u8>>, LineKindView),
                    PostprocessError,
                >(e)
                &&& syntax_error_from(input@, old(state).read as int) == Some(e)
                &&& *final(writer) == *old(writer)
            },
            Taken::Failed(FilterError::Io(e)) => line_taken::<W>(input@, old(state)@, r.1@) == Some(
                LineEnd::Done(Err(FilterError::Io(e))),
            ),
            Taken::End => {
                &&& line_taken::<W>(input@, old(state)@, r.1@) == Some(
                    LineEnd::Done(filter_end(final(state)@)),
                )
                &&& syntax_error_from(input@, old(state).read as int) is None
                &&& syntax_error_from(input@, final(state).read as int) is None
            },
            Taken::Next => {
                &&& line_taken::<W>(input@, old(state)@, r.1@) == Some(
                    LineEnd::Next(final(state)@),
                )
                &&& syntax_error_from(input@, old(state).read as int) == syntax_error_from(
                    input@,
                    final(state).read as int,
                )
                &&& final(state).read > old(state).read
            },
        },
        !(r.0 matches Taken::Failed(FilterError::Syntax(_))) ==> line_step(input@, old(state)@) is Ok,
        !(r.0 is Failed) ==> {
            &&& final(state)@.fits(input@.len() as int)
            &&& final(state).read >= old(state).read
            &&& final(state)@.marker == old(state)@.marker
            &&& final(state).precompiled == old(state).precompiled
            &&& !old(state).precompiled && old(state).done ==> final(state).done
        },
        r.1@.wrote.len() == 0 && r.1@.asked is None && r.1@.wrote_after.len() == 0 ==> *final(writer)
            == *old(writer),
{
    let ghost s = input@;
    let ghost st = state@;
    let ghost none = Seq::<Result<usize, std::io::Error>>::empty();
    let mut out: Vec<Vec<u8>> = Vec::new();
    proof {
        lemma_empty_end(input@, state.read as int);
    }
    let kind = match state.parse_line(input, &mut out) {
        Err(e) => {
            return (
                Taken::Failed(FilterError::Syntax(e)),
                Ghost(LineAnswers { wrote: none, asked: None, wrote_after: none }),
            );
        },
        Ok(kind) => kind,
    };
    let ghost w1 = line_step(s, st)->Ok_0.1;
    assert(chunk_views(out@) =~= w1);
    let first_answer = write_all(writer, &out);
    let ghost wrote = choose|answers: Seq<Result<usize, std::io::Error>>|
        written_with::<W>(w1, first_answer, answers);
    assert(handed::<W>(w1, wrote));
    match first_answer {
        Ok(_) => {},
        Err(e) => {
            return (
                Taken::Failed(FilterError::Io(e)),
                Ghost(LineAnswers { wrote, asked: None, wrote_after: none }),
            );
        },
    }
    match kind {
        LineKind::Eof => (Taken::End, Ghost(LineAnswers { wrote, asked: None, wrote_after: none })),
        LineKind::Plain => (
            Taken::Next,
            Ghost(LineAnswers { wrote, asked: None, wrote_after: none }),
        ),
        LineKind::Line(d) => {
            let (failed, answers) = take_directive(state, input, writer, &d, Ghost(wrote));
            match failed {
                Some(e) => (Taken::Failed(e), answers),
                None => (Taken::Next, answers),
            }
        },
    }
}

/// Filters the output of a preprocessor that was given several sources at
/// once. The sink is asked at each `#line 1` whether a new source begins.
/// Where `precompiled` says that each source opens with a precompiled part,
/// what stands before the cut is handed on only where `keep_headers` says so;
/// the cut is `#pragma hdrstop`, or the return from the header `marker` into
/// the source. A source that never reaches its cut is handed on only where
/// headers are kept. Without a precompiled part the whole of each source is
/// handed on, but for the directive that opens it where headers are not kept.
///
/// The sink is handed the chunks that each line gives, in order, and nothing
/// else; it is asked at the directives that enter a file and at no other. The
/// result is the first of these: the sink's error, the error in the form of
/// the stream, the marker that was asked for and never led to a cut. A sink
/// that was never called is as it was.
#[verifier::rlimit(50)]
pub fn filter_sources<W: PostprocessWrite>(
    input: &[u8],
    writer: &mut W,
    precompiled: bool,
    marker: &Option<String>,
    keep_headers: bool,
) -> (r: Result<(), FilterError>)
    ensures
        filtered::<W>(
            input@,
            precompiled,
            opt_view(*marker),
            keep_headers,
            r,
            *final(writer) == *old(writer),
        ),
        r is Ok ==> syntax_error(input@) is None,
        match r {
            Err(FilterError::Syntax(e)) => if syntax_error(input@) is None {
                e == PostprocessError::MarkerNotFound && marker is Some && precompiled
            } else {
                syntax_error(input@) == Some(e)
            },
            _ => true,
        },
        input@.len() == 0 && marker is None ==> r is Ok,
{
    let ghost s = input@;
    let ghost nothing = Seq::<LineAnswers>::empty();
    let ghost made: Option<Result<Seq<u8>, std::io::Error>> = None;
    let mut state = ScannerState::new(precompiled, keep_headers);
    state.parse_bom(input);
    match marker {
        Some(text) => match marker_bytes(text.as_str(), state.utf8) {
            Ok(bytes) => {
                proof {
                    made = Some(Ok(bytes@));
                }
                state.marker = Some(bytes);
            },
            Err(e) => {
                assert(filtered_with::<W>(
                    s,
                    precompiled,
                    opt_view(*marker),
                    keep_headers,
                    Err::<(), FilterError>(FilterError::Io(e)),
                    true,
                    Some(Err::<Seq<u8>, std::io::Error>(e)),
                    nothing,
                ));
                return Err(FilterError::Io(e));
            },
        },
        None => {},
    }
    let ghost start = state@;
    let ghost mut said: Seq<LineAnswers> = Seq::empty();
    assert(start == scan_start(s, precompiled, opt_bytes(state.marker), keep_headers));
    let mut finished = false;
    while !finished
        invariant
            s == input@,
            nothing == Seq::<LineAnswers>::empty(),
            state@.fits(input@.len() as int),
            syntax_error(input@) == syntax_error_from(input@, state.read as int),
            finished ==> syntax_error(input@) is None,
            marker is None ==> state.marker is None,
            state.precompiled == precompiled,
            !precompiled ==> state.done,
            sink_is_idle(said) ==> *writer == *old(writer),
            finished ==> filtered_from::<W>(s, start, said, 0) == Some(filter_end(state@)),
            !finished ==> forall|x: Seq<LineAnswers>| #[trigger]
                filtered_from::<W>(s, start, said + x, 0) == filtered_from::<W>(
                    s,
                    state@,
                    said + x,
                    said.len() as int,
                ),
            match *marker {
                None => made is None && start == scan_start(s, precompiled, None, keep_headers),
                Some(text) => made matches Some(Ok(bytes)) && marker_made(
                    text@,
                    bom_end(s) == 3,
                    Ok(bytes),
                ) && start == scan_start(s, precompiled, Some(bytes), keep_headers),
            },
        decreases input@.len() - state.read + (if finished { 0int } else { 1int }),
    {
        let ghost st = state@;
        let ghost count = said.len() as int;
        let (taken, answers) = take_line(&mut state, input, writer);
        let ghost a = answers@;
        let ghost all = said.push(a);
        let ghost st2 = state@;
        proof {
            assert(said + nothing =~= said);
            assert(said + (seq![a] + nothing) =~= all);
            assert(all[count] == a);
            lemma_idle_with_one_more(said, a);
        }
        match taken {
            Taken::Failed(FilterError::Syntax(e)) => {
                proof {
                    assert(filtered_from::<W>(s, st, said + nothing, count) == Some(
                        Err::<(), FilterError>(FilterError::Syntax(e)),
                    ));
                    assert(filtered_with::<W>(
                        s,
                        precompiled,
                        opt_view(*marker),
                        keep_headers,
                        Err::<(), FilterError>(FilterError::Syntax(e)),
                        *writer == *old(writer),
                        made,
                        said,
                    ));
                }
                return Err(FilterError::Syntax(e));
            },
            Taken::Failed(FilterError::Io(e)) => {
                proof {
                    assert(filtered_from::<W>(s, st, all, count) == Some(
                        Err::<(), FilterError>(FilterError::Io(e)),
                    ));
                    assert(filtered_with::<W>(
                        s,
                        precompiled,
                        opt_view(*marker),
                        keep_headers,
                        Err::<(), FilterError>(FilterError::Io(e)),
                        *writer == *old(writer),
                        made,
                        all,
                    ));
                }
                return Err(FilterError::Io(e));
            },
            Taken::End => {
                proof {
                    assert(filtered_from::<W>(s, st, all, count) == Some(filter_end(st2)));
                    said = all;
                }
                finished = true;
            },
            Taken::Next => {
                proof {
                    assert forall|x: Seq<LineAnswers>| #[trigger]
                        filtered_from::<W>(s, start, all + x, 0) == filtered_from::<W>(
                            s,
                            st2,
                            all + x,
                            all.len() as int,
                        ) by {
                        let y = seq![a] + x;
                        assert(said + y =~= all + x);
                        assert((all + x)[count] == a);
                        assert(filtered_from::<W>(s, start, said + y, 0) == filtered_from::<W>(
                            s,
                            st,
                            said + y,
                            count,
                        ));
                    }
                    said = all;
                }
            },
        }
    }
    let r = match state.finish() {
        Ok(_) => Ok(()),
        Err(e) => Err(FilterError::Syntax(e)),
    };
    assert(filtered_with::<W>(
        s,
        precompiled,
        opt_view(*marker),
        keep_headers,
        r,
        *writer == *old(writer),
        made,
        said,
    ));
    r
}

/// With one more line the sink is idle where it was idle before and was not
/// called for that line.
proof fn lemma_idle_with_one_more(said: Seq<LineAnswers>, a: LineAnswers)
    ensures
        sink_is_idle(said.push(a)) == (sink_is_idle(said) && a.wrote.len() == 0 && a.asked is None
            && a.wrote_after.len() == 0),
{
    let all = said.push(a);
    if sink_is_idle(all) {
        assert(all[said.len() as int] == a);
        assert forall|i: int| 0 <= i < said.len() implies (#[trigger] said[i]).wrote.len() == 0
            && said[i].asked is None && said[i].wrote_after.len() == 0 by {
            assert(all[i] == said[i]);
        }
    }
}

/// Filters the output of a preprocessor for sources that open with a
/// precompiled part: `filter_sources` with that said. What stands before the
/// cut of a source is handed on only where headers are kept, so a stream
/// whose sources have no precompiled part, filtered without keeping headers,
/// gives nothing: such sources are for `filter_sources`.
pub fn filter_preprocessed<W: PostprocessWrite>(
    input: &[u8],
    writer: &mut W,
    marker: &Option<String>,
    keep_headers: bool,
) -> (r: Result<(), FilterError>)
    ensures
        filtered::<W>(
            input@,
            true,
            opt_view(*marker),
            keep_headers,
            r,
            *final(writer) == *old(writer),
        ),
        r is Ok ==> syntax_error(input@) is None,
        match r {
            Err(FilterError::Syntax(e)) => if syntax_error(input@) is None {
                e == PostprocessError::MarkerNotFound && marker is Some
            } else {
                syntax_error(input@) == Some(e)
            },
            _ => true,
        },
        input@.len() == 0 && marker is None ==> r is Ok,
{
    filter_sources(input, writer, true, marker, keep_headers)
}

} // verus!
