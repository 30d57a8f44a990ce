//! What holds of the library as a whole: laws that relate its functions,
//! proved over the same definitions that their contracts use.

use vstd::prelude::*;
use crate::backend::{holds_pass, pass_wrapped};
use crate::cache::{EntryView, KeyView, code_of, exit_code_of, key_of, le_bytes};
use crate::compiler::{ArgView, InputKind, OutputInfo, OutputKind, TaskView};
use crate::includes::{
    ByteClass, FoundView, Include, LexedView, code_double_quote_at, comment_block_at,
    comment_close, escapes_at, in_class, includes_of, items_at, lines_at, run_end,
};
use crate::paths::{
    component_end, components, components_from, is_absolute, is_rooted, is_separator, joined,
    lemma_component_end, normalized, resolved,
};
use crate::postprocess::{
    DirectiveView, FilterError, LineAnswers, LineEnd, LineKindView, LineView, PATH_LIMIT,
    PathLiteral, PostprocessError, PostprocessWrite, ScanView, directive_at, directive_taken,
    empty_end, enters_file, filtered_from, filtered_with, flushed, hdrstop_applied,
    lemma_directive_at, lemma_empty_end, lemma_line_end, line_applied, line_step, line_taken,
    literal_from, path_at, scan_result, scan_start, unescaped,
};
use crate::prepare::{
    classified, input_files, marker_files, task_for, tasks_for, tasks_from, with_one_source,
};
use crate::response::{is_gap, tokens, tokens_from};
use crate::scanner::{
    Answer, IncludeCacher, IncludeInfo, IncludeState, looked_up, remembered, search_list, solved_with,
};
use std::rc::Rc;
use crate::storage::{
    block_at, blocks_at, decoded_entry, encoded_block, encoded_blocks, encoded_entry, le_value,
    number_at, status_number, status_of,
};

verus! {

/// The chunks one after the other, as one byte string.
pub open spec fn joined_chunks(chunks: Seq<Seq<u8>>) -> Seq<u8>
    decreases chunks.len(),
{
    if chunks.len() == 0 {
        Seq::empty()
    } else {
        joined_chunks(chunks.drop_last()) + chunks.last()
    }
}

/// What a sink is given while a stream is read from the state `st` to its
/// end, with each directive that opened a source put back where headers are
/// not kept. `answers` are the sink's answers to the directives that enter a
/// file, in order; once they are used up the answer is no.
pub open spec fn restored_output(s: Seq<u8>, st: ScanView, answers: Seq<bool>) -> Result<
    Seq<u8>,
    PostprocessError,
>
    decreases s.len() - st.read,
{
    match line_step(s, st) {
        Err(e) => Err(e),
        Ok((st1, w1, kind)) => match kind {
            LineKindView::Eof => match scan_result(st1) {
                Ok(_) => Ok(joined_chunks(w1)),
                Err(e) => Err(e),
            },
            LineKindView::Plain => if st.read < st1.read <= s.len() {
                match restored_output(s, st1, answers) {
                    Ok(rest) => Ok(joined_chunks(w1) + rest),
                    Err(e) => Err(e),
                }
            } else {
                Ok(joined_chunks(w1))
            },
            LineKindView::Line(d) => {
                let asked = enters_file(d) && answers.len() > 0;
                let answer = asked && answers[0];
                let left = if asked {
                    answers.skip(1)
                } else {
                    answers
                };
                let (st2, w2) = line_applied(s, st1, d, answer);
                let put_back = if answer && !st.keep_headers {
                    s.subrange(st1.copy, st1.read)
                } else {
                    Seq::empty()
                };
                if st.read < st2.read <= s.len() {
                    match restored_output(s, st2, left) {
                        Ok(rest) => Ok(joined_chunks(w1) + put_back + joined_chunks(w2) + rest),
                        Err(e) => Err(e),
                    }
                } else {
                    Ok(joined_chunks(w1) + put_back + joined_chunks(w2))
                }
            },
        },
    }
}

/// A state in which nothing but the directives that open a source is ever
/// dropped, and nothing is added: no marker is looked for, and headers are
/// kept or the sources have no precompiled part.
pub open spec fn passes_all(st: ScanView, len: int) -> bool {
    &&& st.fits(len)
    &&& st.marker is None
    &&& !st.header_found
    &&& st.keep_headers || (!st.precompiled && st.done)
}

proof fn lemma_flushed_passes(s: Seq<u8>, st: ScanView)
    requires
        st.fits(s.len() as int),
        st.keep_headers || st.done,
    ensures
        joined_chunks(flushed(s, st).1) == s.subrange(st.copy, st.read),
        flushed(s, st).0 == (ScanView { copy: st.read, ..st }),
{
    let w = flushed(s, st).1;
    if st.copy == st.read {
        assert(s.subrange(st.copy, st.read) =~= Seq::<u8>::empty());
    } else {
        assert(w =~= seq![s.subrange(st.copy, st.read)]);
        assert(w.drop_last() =~= Seq::<Seq<u8>>::empty());
        assert(joined_chunks(w.drop_last()) =~= Seq::<u8>::empty());
        assert(w.last() == s.subrange(st.copy, st.read));
        assert(joined_chunks(w) =~= s.subrange(st.copy, st.read));
    }
}

proof fn lemma_joined_two(a: Seq<Seq<u8>>, b: Seq<Seq<u8>>)
    ensures
        joined_chunks(a + b) == joined_chunks(a) + joined_chunks(b),
    decreases b.len(),
{
    if b.len() == 0 {
        assert(a + b =~= a);
        assert(joined_chunks(a) + joined_chunks(b) =~= joined_chunks(a));
    } else {
        lemma_joined_two(a, b.drop_last());
        assert((a + b).drop_last() =~= a + b.drop_last());
        assert((a + b).last() == b.last());
        assert(joined_chunks(a + b) =~= joined_chunks(a) + joined_chunks(b));
    }
}

/// One line read in a state that passes all: what the sink is given is the
/// stream from where it was handed on to where it is handed on now.
proof fn lemma_line_passes(s: Seq<u8>, st: ScanView)
    requires
        passes_all(st, s.len() as int),
    ensures
        match line_step(s, st) {
            Ok((st1, w1, kind)) => {
                &&& passes_all(st1, s.len() as int)
                &&& st1.keep_headers == st.keep_headers
                &&& st.copy <= st1.copy
                &&& joined_chunks(w1) == s.subrange(st.copy, st1.copy)
                &&& kind is Eof ==> st1.copy == s.len()
                &&& kind is Line ==> st1.copy == empty_end(s, st.read)
                &&& !(kind is Eof) ==> st.read < st1.read
            },
            Err(_) => true,
        },
{
    let at = empty_end(s, st.read);
    lemma_empty_end(s, st.read);
    if at >= s.len() {
        lemma_flushed_passes(s, st.at(at));
    } else if s[at] != 0x23 {
        lemma_line_end(s, at);
        assert(s.subrange(st.copy, st.copy) =~= Seq::<u8>::empty());
    } else {
        lemma_directive_at(s, at);
        lemma_flushed_passes(s, st.at(at));
        let (st1, w1) = flushed(s, st.at(at));
        match directive_at(s, at) {
            Err(_) => {},
            Ok((DirectiveView::Other, next)) => {},
            Ok((DirectiveView::Hdrstop, next)) => {
                let st2 = st1.at(next);
                if !st2.done {
                    lemma_flushed_passes(s, st2);
                }
                let w2 = hdrstop_applied(s, st2).1;
                lemma_joined_two(w1, w2);
                if st2.done {
                    assert(joined_chunks(w2) =~= Seq::<u8>::empty());
                    assert(joined_chunks(w1) + joined_chunks(w2) =~= joined_chunks(w1));
                } else {
                    assert(joined_chunks(w1) + joined_chunks(w2) =~= s.subrange(st.copy, next));
                }
            },
            Ok((DirectiveView::Line(d), next)) => {},
        }
    }
}

/// A `#line` directive taken into a state that passes all: nothing is given
/// to the sink, and nothing is dropped but the directive itself where it
/// opens a source and headers are not kept.
proof fn lemma_applied_passes(s: Seq<u8>, st: ScanView, d: LineView, answer: bool)
    requires
        passes_all(st, s.len() as int),
    ensures
        passes_all(line_applied(s, st, d, answer).0, s.len() as int),
        line_applied(s, st, d, answer).0.keep_headers == st.keep_headers,
        line_applied(s, st, d, answer).0.read == st.read,
        line_applied(s, st, d, answer).1.len() == 0,
        line_applied(s, st, d, answer).0.copy == (if enters_file(d) && answer && !st.keep_headers {
            st.read
        } else {
            st.copy
        }),
{
}

/// What is written for a stream without precompiled headers is the stream
/// itself. Whatever the sink answers: where headers are kept, or the sources
/// have no precompiled part, and no marker is looked for, the bytes that the
/// sink is given, with the directives that opened a source put back where
/// they were dropped, are the bytes of the stream from where it was handed on
/// last.
#[verifier::spinoff_prover]
#[verifier::rlimit(60)]
pub proof fn lemma_stream_is_restored(s: Seq<u8>, st: ScanView, answers: Seq<bool>)
    requires
        passes_all(st, s.len() as int),
    ensures
        match restored_output(s, st, answers) {
            Ok(out) => out == s.subrange(st.copy, s.len() as int),
            Err(_) => true,
        },
    decreases s.len() - st.read,
{
    lemma_line_passes(s, st);
    match line_step(s, st) {
        Err(_) => {},
        Ok((st1, w1, kind)) => match kind {
            LineKindView::Eof => {},
            LineKindView::Plain => {
                lemma_stream_is_restored(s, st1, answers);
                match restored_output(s, st1, answers) {
                    Ok(rest) => {
                        assert(joined_chunks(w1) + rest =~= s.subrange(st.copy, s.len() as int));
                    },
                    Err(_) => {},
                }
            },
            LineKindView::Line(d) => {
                let asked = enters_file(d) && answers.len() > 0;
                let answer = asked && answers[0];
                let left = if asked {
                    answers.skip(1)
                } else {
                    answers
                };
                lemma_applied_passes(s, st1, d, answer);
                let (st2, w2) = line_applied(s, st1, d, answer);
                let put_back = if answer && !st.keep_headers {
                    s.subrange(st1.copy, st1.read)
                } else {
                    Seq::<u8>::empty()
                };
                assert(joined_chunks(w2) =~= Seq::<u8>::empty());
                lemma_stream_is_restored(s, st2, left);
                match restored_output(s, st2, left) {
                    Ok(rest) => {
                        assert(joined_chunks(w1) + put_back + joined_chunks(w2) + rest
                            =~= s.subrange(st.copy, s.len() as int));
                    },
                    Err(_) => {},
                }
            },
        },
    }
}

/// What the sink said to the directives that enter a file, from the line `at`
/// on, in order: whether a new source begins.
pub open spec fn separators(said: Seq<LineAnswers>, at: int) -> Seq<bool>
    decreases said.len() - at,
{
    if at < 0 || at >= said.len() {
        Seq::empty()
    } else {
        match said[at].asked {
            Some(Ok(answer)) => seq![answer] + separators(said, at + 1),
            _ => separators(said, at + 1),
        }
    }
}

/// A filtering that ends well restores the stream. Where headers are kept, or
/// the sources have no precompiled part, and no marker is looked for: the
/// bytes that the sink is handed while the stream is filtered, with the
/// directives that opened a source put back where they were dropped, are the
/// bytes of the stream from where it was handed on last. So the parts of the
/// sources, one after the other in the order of the stream, each behind the
/// directive that opened it, give the stream again.
#[verifier::rlimit(50)]
pub proof fn lemma_filtered_stream_is_restored<W: PostprocessWrite>(
    s: Seq<u8>,
    st: ScanView,
    said: Seq<LineAnswers>,
    at: int,
)
    requires
        passes_all(st, s.len() as int),
        0 <= at,
        filtered_from::<W>(s, st, said, at) == Some(Ok::<(), FilterError>(())),
    ensures
        restored_output(s, st, separators(said, at)) == Ok::<Seq<u8>, PostprocessError>(
            s.subrange(st.copy, s.len() as int),
        ),
    decreases s.len() - st.read,
{
    let answers = separators(said, at);
    lemma_stream_is_restored(s, st, answers);
    lemma_line_passes(s, st);
    match line_step(s, st) {
        Err(_) => {},
        Ok((st1, w1, kind)) => {
            let a = said[at];
            match line_taken::<W>(s, st, a) {
                Some(LineEnd::Next(next)) => {
                    match kind {
                        LineKindView::Line(d) => {
                            let answer = a.asked == Some(Ok::<bool, std::io::Error>(true));
                            lemma_applied_passes(s, st1, d, answer);
                            assert(next == line_applied(s, st1, d, answer).0);
                            if enters_file(d) {
                                assert(answers =~= seq![answer] + separators(said, at + 1));
                                assert(answers.skip(1) =~= separators(said, at + 1));
                            }
                            lemma_filtered_stream_is_restored::<W>(s, next, said, at + 1);
                        },
                        _ => {
                            assert(next == st1);
                            lemma_filtered_stream_is_restored::<W>(s, next, said, at + 1);
                        },
                    }
                },
                _ => {},
            }
        },
    }
}

/// A stream that is filtered whole, without a marker, with headers kept or
/// sources without a precompiled part, is restored where the filtering ends
/// well: what the sink is handed, with the directives that opened a source
/// put back where they were dropped, is the stream.
pub proof fn lemma_filter_restores_the_stream<W: PostprocessWrite>(
    s: Seq<u8>,
    precompiled: bool,
    keep_headers: bool,
    untouched: bool,
    made: Option<Result<Seq<u8>, std::io::Error>>,
    said: Seq<LineAnswers>,
)
    requires
        keep_headers || !precompiled,
        filtered_with::<W>(
            s,
            precompiled,
            None,
            keep_headers,
            Ok::<(), FilterError>(()),
            untouched,
            made,
            said,
        ),
    ensures
        restored_output(
            s,
            scan_start(s, precompiled, None, keep_headers),
            separators(said, 0),
        ) == Ok::<Seq<u8>, PostprocessError>(s),
{
    let st = scan_start(s, precompiled, None, keep_headers);
    lemma_filtered_stream_is_restored::<W>(s, st, said, 0);
    assert(s.subrange(0, s.len() as int) =~= s);
}

/// An error in the form of the first line is what the filtering gives, and the
/// sink is not called: it is as it was.
pub proof fn lemma_first_error_of_form_is_reported<W: PostprocessWrite>(
    s: Seq<u8>,
    precompiled: bool,
    keep_headers: bool,
    r: Result<(), FilterError>,
    untouched: bool,
    made: Option<Result<Seq<u8>, std::io::Error>>,
    said: Seq<LineAnswers>,
)
    requires
        filtered_with::<W>(s, precompiled, None, keep_headers, r, untouched, made, said),
        line_step(s, scan_start(s, precompiled, None, keep_headers)) is Err,
    ensures
        r == Err::<(), FilterError>(
            FilterError::Syntax(
                line_step(s, scan_start(s, precompiled, None, keep_headers))->Err_0,
            ),
        ),
        untouched,
{
}

/// The sink is asked at the directives that enter a file and at no other:
/// where a `#line` directive is taken up, the sink was asked if and only if
/// the directive gives the line number 1.
pub proof fn lemma_sink_is_asked_at_line_one<W: PostprocessWrite>(
    s: Seq<u8>,
    st: ScanView,
    d: LineView,
    said: LineAnswers,
)
    requires
        directive_taken::<W>(s, st, d, said) is Some,
    ensures
        said.asked is Some <==> enters_file(d),
{
}

/// What is written out again of a path literal that is read on from `pos` is
/// the stream from `start` to the end of the literal, where it was so up to
/// `pos`.
proof fn lemma_raw_is_the_literal(
    s: Seq<u8>,
    start: int,
    pos: int,
    quote: u8,
    file: Seq<u8>,
    raw: Seq<u8>,
)
    requires
        0 <= start <= pos <= s.len(),
        raw == s.subrange(start, pos),
    ensures
        match literal_from(s, pos, quote, file, raw) {
            Ok(found) => found.raw == s.subrange(start, found.next),
            Err(_) => true,
        },
    decreases s.len() - pos,
{
    if pos < s.len() && s[pos] != 0x0A && s[pos] != 0x0D {
        if s[pos] == 0x5C {
            if pos + 1 < s.len() {
                let v = unescaped(s[pos + 1]);
                let raw2 = raw.push(0x5Cu8).push(s[pos + 1]);
                assert(raw2 =~= s.subrange(start, pos + 2));
                lemma_raw_is_the_literal(
                    s,
                    start,
                    pos + 2,
                    quote,
                    file.push(if v == 0x5C { 0x2Fu8 } else { v }),
                    raw2,
                );
            }
        } else if s[pos] == quote {
            assert(raw.push(quote) =~= s.subrange(start, pos + 1));
        } else {
            assert(raw.push(s[pos]) =~= s.subrange(start, pos + 1));
            lemma_raw_is_the_literal(s, start, pos + 1, quote, file.push(s[pos]), raw.push(s[pos]));
        }
    }
}

/// A path literal is written out again as it stood in the stream, with its
/// quotes and its escapes.
pub proof fn lemma_path_is_written_as_it_stood(s: Seq<u8>, pos: int)
    ensures
        match path_at(s, pos) {
            Ok(found) => found.raw == s.subrange(pos, found.next),
            Err(_) => true,
        },
{
    if 0 <= pos < s.len() {
        assert(seq![s[pos]] =~= s.subrange(pos, pos + 1));
        lemma_raw_is_the_literal(s, pos, pos + 1, s[pos], Seq::empty(), seq![s[pos]]);
    }
}

/// An include with an absolute name is looked for under that name and nowhere
/// else, whatever the directories are.
pub proof fn lemma_absolute_include_is_searched_alone(
    item: Include<Seq<char>>,
    context: Seq<Seq<char>>,
    system: Seq<Seq<char>>,
)
    requires
        is_absolute(item.name()),
    ensures
        search_list(item, context, system) == seq![item.name()],
{
}

/// The markers of a list of arguments are at least as many as the markers of
/// any beginning of it.
proof fn lemma_markers_grow(args: Seq<ArgView>, upto: int)
    requires
        0 <= upto <= args.len(),
    ensures
        marker_files(args.take(upto)).len() <= marker_files(args).len(),
    decreases args.len() - upto,
{
    if upto < args.len() {
        assert(args.take(upto + 1).drop_last() =~= args.take(upto));
        lemma_markers_grow(args, upto + 1);
    } else {
        assert(args.take(upto) =~= args);
    }
}

/// The argument is a marker of a precompiled header.
pub open spec fn is_marker(arg: ArgView) -> bool {
    match arg {
        ArgView::Input { kind: InputKind::Marker, .. } => true,
        ArgView::Output { kind: OutputKind::Marker, .. } => true,
        _ => false,
    }
}

/// A command line with a source that asks both to make a precompiled header
/// and to use one is refused: two markers, whatever their kinds, give an
/// error.
pub proof fn lemma_two_markers_are_refused(args: Seq<ArgView>, i: int, j: int)
    requires
        0 <= i < j < args.len(),
        is_marker(args[i]),
        is_marker(args[j]),
        input_files(args, InputKind::Source).len() > 0,
    ensures
        task_for(args) is Err,
{
    assert(args.take(i + 1).drop_last() =~= args.take(i));
    assert(args.take(i + 1).last() == args[i]);
    assert(marker_files(args.take(i + 1)).len() >= 1);
    lemma_markers_grow(args.take(j), i + 1);
    assert(args.take(j).take(i + 1) =~= args.take(i + 1));
    assert(args.take(j + 1).drop_last() =~= args.take(j));
    assert(args.take(j + 1).last() == args[j]);
    assert(marker_files(args.take(j + 1)).len() >= 2);
    lemma_markers_grow(args, j + 1);
}


/// An argument that a response file holds as it stands: it is not empty and
/// has neither a gap nor a double quote in it.
pub open spec fn is_plain_word(arg: Seq<char>) -> bool {
    arg.len() > 0 && forall|i: int| 0 <= i < arg.len() ==> !is_gap(#[trigger] arg[i]) && arg[i] != '"'
}

/// The arguments with a blank between each two: the text of a response file
/// that holds them.
pub open spec fn spaced(args: Seq<Seq<char>>) -> Seq<char>
    decreases args.len(),
{
    if args.len() == 0 {
        Seq::empty()
    } else if args.len() == 1 {
        args[0]
    } else {
        args[0] + seq![' '] + spaced(args.skip(1))
    }
}

proof fn lemma_word_is_read(text: Seq<char>, pos: int, word: Seq<char>, k: int)
    requires
        is_plain_word(word),
        0 <= pos,
        0 <= k <= word.len(),
        pos + word.len() <= text.len(),
        text.subrange(pos, pos + word.len()) == word,
        pos + word.len() == text.len() || text[pos + word.len()] == ' ',
    ensures
        tokens_from(text, pos + k, word.take(k), k > 0, false) == tokens_from(
            text,
            pos + word.len(),
            word,
            true,
            false,
        ),
    decreases word.len() - k,
{
    if k < word.len() {
        let c = text[pos + k];
        assert(c == text.subrange(pos, pos + word.len())[k]);
        assert(c == word[k]);
        if pos + k + 1 < text.len() {
            if k + 1 < word.len() {
                assert(text[pos + k + 1] == text.subrange(pos, pos + word.len())[k + 1]);
                assert(text[pos + k + 1] == word[k + 1]);
            }
        }
        assert(word.take(k).push(c) =~= word.take(k + 1));
        lemma_word_is_read(text, pos, word, k + 1);
    } else {
        assert(word.take(k) =~= word);
    }
}

proof fn lemma_spaced_is_read(text: Seq<char>, pos: int, args: Seq<Seq<char>>)
    requires
        0 <= pos <= text.len(),
        forall|i: int| 0 <= i < args.len() ==> is_plain_word(#[trigger] args[i]),
        text.subrange(pos, text.len() as int) == spaced(args),
    ensures
        tokens_from(text, pos, Seq::empty(), false, false) == args,
    decreases args.len(),
{
    if args.len() == 0 {
        assert(text.subrange(pos, text.len() as int).len() == 0);
        assert(args =~= Seq::<Seq<char>>::empty());
    } else {
        let word = args[0];
        let rest = args.skip(1);
        assert(is_plain_word(word));
        let tail = text.subrange(pos, text.len() as int);
        if args.len() == 1 {
            assert(tail == word);
            assert(text.subrange(pos, pos + word.len()) =~= word);
            lemma_word_is_read(text, pos, word, 0);
            assert(word.take(0) =~= Seq::<char>::empty());
            assert(args =~= seq![word]);
        } else {
            assert(tail == word + seq![' '] + spaced(rest));
            assert(tail.len() == word.len() + 1 + spaced(rest).len());
            assert(text.subrange(pos, pos + word.len()) =~= word) by {
                assert forall|i: int| 0 <= i < word.len() implies text[pos + i] == word[i] by {
                    assert(tail[i] == word[i]);
                }
            }
            assert(text[pos + word.len()] == ' ') by {
                assert(tail[word.len() as int] == ' ');
            }
            lemma_word_is_read(text, pos, word, 0);
            assert(word.take(0) =~= Seq::<char>::empty());
            let next = pos + word.len() + 1;
            assert(text.subrange(next, text.len() as int) =~= spaced(rest)) by {
                assert forall|i: int| 0 <= i < spaced(rest).len() implies text[next + i] == spaced(
                    rest,
                )[i] by {
                    assert(tail[word.len() + 1 + i] == spaced(rest)[i]);
                }
            }
            assert forall|i: int| 0 <= i < rest.len() implies is_plain_word(#[trigger] rest[i]) by {
                assert(rest[i] == args[i + 1]);
            }
            lemma_spaced_is_read(text, next, rest);
            assert(seq![word] + rest =~= args);
        }
    }
}

/// A response file that holds the arguments of a command line gives that
/// command line back. Arguments that a response file holds as they stand,
/// written with a blank between each two, are read as they were; so their
/// classification is the same.
pub proof fn lemma_response_file_gives_arguments_back(args: Seq<Seq<char>>)
    requires
        forall|i: int| 0 <= i < args.len() ==> is_plain_word(#[trigger] args[i]),
    ensures
        tokens(spaced(args)) == args,
        classified(tokens(spaced(args))) == classified(args),
{
    let text = spaced(args);
    assert(text.subrange(0, text.len() as int) =~= text);
    lemma_spaced_is_read(text, 0, args);
}


/// The key of a compile step is stable: the same toolchain, arguments,
/// preprocessed source and precompiled header give the same key.
pub proof fn lemma_cache_key_is_stable(
    toolchain1: Seq<char>,
    args1: Seq<Seq<char>>,
    preprocessed1: Seq<u8>,
    precompiled1: Option<Seq<u8>>,
    toolchain2: Seq<char>,
    args2: Seq<Seq<char>>,
    preprocessed2: Seq<u8>,
    precompiled2: Option<Seq<u8>>,
)
    requires
        toolchain1 == toolchain2,
        args1 == args2,
        preprocessed1 == preprocessed2,
        precompiled1 == precompiled2,
    ensures
        key_of(toolchain1, args1, preprocessed1, precompiled1) == key_of(
            toolchain2,
            args2,
            preprocessed2,
            precompiled2,
        ),
{
}

/// What was put into the cache is what a lookup under the same key finds,
/// files and output as they were, whatever the cache held before.
pub proof fn lemma_lookup_hits_what_was_inserted(
    cache: Map<KeyView, EntryView>,
    key: KeyView,
    entry: EntryView,
)
    ensures
        cache.insert(key, entry).contains_key(key),
        cache.insert(key, entry)[key] == entry,
        cache.insert(key, entry)[key].artifacts == entry.artifacts,
{
}

/// To put the same entry under the same key once more changes nothing.
pub proof fn lemma_insert_is_idempotent(cache: Map<KeyView, EntryView>, key: KeyView, entry: EntryView)
    ensures
        cache.insert(key, entry).insert(key, entry) == cache.insert(key, entry),
{
    assert(cache.insert(key, entry).insert(key, entry) =~= cache.insert(key, entry));
}

/// A build of one source ends with the exit code of its backend.
pub proof fn lemma_one_source_ends_as_its_backend(output: OutputInfo)
    ensures
        exit_code_of(seq![output]) == code_of(output.status),
{
    assert(seq![output].drop_last() =~= Seq::<OutputInfo>::empty());
    assert(seq![output].last() == output);
    assert(exit_code_of(Seq::<OutputInfo>::empty()) == 0);
}

/// A compile step that is found in the cache ends as its backend ended when
/// the entry was made. Only what a backend made that ended well is kept, so
/// the step ends well too: a build of one source whose step was kept under
/// `key`, and is found there, has the exit code of that backend.
pub proof fn lemma_hit_ends_as_its_backend(
    cache: Map<KeyView, EntryView>,
    key: KeyView,
    made: EntryView,
    found: OutputInfo,
)
    requires
        made.output.status == Some(0i32),
        cache.insert(key, made)[key].output.status == found.status,
    ensures
        exit_code_of(seq![found]) == code_of(made.output.status),
        exit_code_of(seq![found]) == 0,
{
    assert(seq![found].drop_last() =~= Seq::<OutputInfo>::empty());
    assert(seq![found].last() == found);
    assert(exit_code_of(Seq::<OutputInfo>::empty()) == 0);
}

/// The hook of a pass of the backend ends as the backend does: whenever the
/// backend is run, its exit code is the result, be it 0 or not, whatever the
/// arguments are and whatever the files and the cache do. The backend is not
/// run only where the cache holds a pass that ended well, and the hook ends
/// well then.
pub proof fn lemma_hook_ends_as_the_backend<H, R, C, F>(
    before: Map<KeyView, EntryView>,
    after: Map<KeyView, EntryView>,
    args: Seq<Seq<char>>,
    r: u32,
    hash_inputs: H,
    restore: R,
    collect: C,
    original: F,
) where
    H: FnOnce(Vec<String>) -> Option<Vec<String>>,
    R: FnOnce(String, Vec<u8>) -> bool,
    C: FnOnce(String) -> Option<Vec<u8>>,
    F: FnOnce() -> u32,

    requires
        pass_wrapped(before, after, args, r, hash_inputs, restore, collect, original),
    ensures
        call_ensures(original, (), r) || (r == 0 && exists|key: KeyView|
            #[trigger] holds_pass(before, key)),
        r != 0 ==> call_ensures(original, (), r) && after == before,
{
}

/// A build without sources ends well.
pub proof fn lemma_no_source_ends_well()
    ensures
        exit_code_of(Seq::<OutputInfo>::empty()) == 0,
{
}


proof fn lemma_le_bytes_len(n: nat, width: nat)
    ensures
        le_bytes(n, width).len() == width,
    decreases width,
{
    if width > 0 {
        lemma_le_bytes_len(n / 256, (width - 1) as nat);
    }
}

proof fn lemma_number_is_read_back(n: nat)
    requires
        n < 0x1_0000_0000_0000_0000,
    ensures
        le_bytes(n, 8).len() == 8,
        le_value(le_bytes(n, 8)) == n,
{
    lemma_le_bytes_len(n, 8);
    let b = le_bytes(n, 8);
    let n1 = n / 256;
    let n2 = n1 / 256;
    let n3 = n2 / 256;
    let n4 = n3 / 256;
    let n5 = n4 / 256;
    let n6 = n5 / 256;
    let n7 = n6 / 256;
    lemma_le_bytes_len(n1, 7);
    lemma_le_bytes_len(n2, 6);
    lemma_le_bytes_len(n3, 5);
    lemma_le_bytes_len(n4, 4);
    lemma_le_bytes_len(n5, 3);
    lemma_le_bytes_len(n6, 2);
    lemma_le_bytes_len(n7, 1);
    assert(b[0] == (n % 256) as u8);
    assert(b[1] == le_bytes(n1, 7)[0]);
    assert(b[2] == le_bytes(n2, 6)[0]);
    assert(le_bytes(n1, 7)[2] == le_bytes(n3, 5)[0]);
    assert(b[3] == le_bytes(n3, 5)[0]);
    assert(le_bytes(n3, 5)[1] == le_bytes(n4, 4)[0]);
    assert(le_bytes(n1, 7)[3] == le_bytes(n4, 4)[0]);
    assert(b[4] == le_bytes(n4, 4)[0]);
    assert(le_bytes(n4, 4)[1] == le_bytes(n5, 3)[0]);
    assert(le_bytes(n3, 5)[2] == le_bytes(n5, 3)[0]);
    assert(le_bytes(n2, 6)[3] == le_bytes(n5, 3)[0]);
    assert(le_bytes(n1, 7)[4] == le_bytes(n5, 3)[0]);
    assert(b[5] == le_bytes(n5, 3)[0]);
    assert(le_bytes(n5, 3)[1] == le_bytes(n6, 2)[0]);
    assert(le_bytes(n4, 4)[2] == le_bytes(n6, 2)[0]);
    assert(le_bytes(n3, 5)[3] == le_bytes(n6, 2)[0]);
    assert(le_bytes(n2, 6)[4] == le_bytes(n6, 2)[0]);
    assert(le_bytes(n1, 7)[5] == le_bytes(n6, 2)[0]);
    assert(b[6] == le_bytes(n6, 2)[0]);
    assert(le_bytes(n6, 2)[1] == le_bytes(n7, 1)[0]);
    assert(le_bytes(n5, 3)[2] == le_bytes(n7, 1)[0]);
    assert(le_bytes(n4, 4)[3] == le_bytes(n7, 1)[0]);
    assert(le_bytes(n3, 5)[4] == le_bytes(n7, 1)[0]);
    assert(le_bytes(n2, 6)[5] == le_bytes(n7, 1)[0]);
    assert(le_bytes(n1, 7)[6] == le_bytes(n7, 1)[0]);
    assert(b[7] == le_bytes(n7, 1)[0]);
    assert(b[1] == (n1 % 256) as u8);
    assert(b[2] == (n2 % 256) as u8);
    assert(b[3] == (n3 % 256) as u8);
    assert(b[4] == (n4 % 256) as u8);
    assert(b[5] == (n5 % 256) as u8);
    assert(b[6] == (n6 % 256) as u8);
    assert(b[7] == (n7 % 256) as u8);
    assert(n7 < 256);
}

proof fn lemma_number_at(prefix: Seq<u8>, n: nat, rest: Seq<u8>)
    requires
        n < 0x1_0000_0000_0000_0000,
    ensures
        number_at(prefix + le_bytes(n, 8) + rest, prefix.len() as int) == Some(
            (n, (prefix.len() + 8) as int),
        ),
{
    lemma_number_is_read_back(n);
    let all = prefix + le_bytes(n, 8) + rest;
    assert(all.subrange(prefix.len() as int, (prefix.len() + 8) as int) =~= le_bytes(n, 8));
}

proof fn lemma_block_at(prefix: Seq<u8>, block: Seq<u8>, rest: Seq<u8>)
    requires
        block.len() < 0x1_0000_0000_0000_0000,
    ensures
        encoded_block(block).len() == 8 + block.len(),
        block_at(prefix + encoded_block(block) + rest, prefix.len() as int) == Some(
            (block, (prefix.len() + 8 + block.len()) as int),
        ),
{
    lemma_le_bytes_len(block.len(), 8);
    let all = prefix + encoded_block(block) + rest;
    assert(all =~= prefix + le_bytes(block.len(), 8) + (block + rest));
    lemma_number_at(prefix, block.len(), block + rest);
    assert(all.subrange((prefix.len() + 8) as int, (prefix.len() + 8 + block.len()) as int) =~= block);
}

/// Every file of the list is shorter than 2 to the 64th bytes.
pub open spec fn blocks_fit(blocks: Seq<Seq<u8>>) -> bool {
    forall|i: int| 0 <= i < blocks.len() ==> (#[trigger] blocks[i]).len() < 0x1_0000_0000_0000_0000
}

#[verifier::spinoff_prover]
#[verifier::rlimit(60)]
proof fn lemma_blocks_at(prefix: Seq<u8>, blocks: Seq<Seq<u8>>, rest: Seq<u8>)
    requires
        blocks_fit(blocks),
    ensures
        blocks_at(prefix + encoded_blocks(blocks) + rest, prefix.len() as int, blocks.len()) == Some(
            (blocks, (prefix.len() + encoded_blocks(blocks).len()) as int),
        ),
    decreases blocks.len(),
{
    let all = prefix + encoded_blocks(blocks) + rest;
    if blocks.len() == 0 {
        assert(blocks =~= Seq::<Seq<u8>>::empty());
    } else {
        let first = blocks[0];
        let others = blocks.skip(1);
        assert(first.len() < 0x1_0000_0000_0000_0000);
        assert forall|i: int| 0 <= i < others.len() implies (#[trigger] others[i]).len()
            < 0x1_0000_0000_0000_0000 by {
            assert(others[i] == blocks[i + 1]);
        }
        assert(all =~= prefix + encoded_block(first) + (encoded_blocks(others) + rest));
        lemma_block_at(prefix, first, encoded_blocks(others) + rest);
        let next = prefix + encoded_block(first);
        assert(all =~= next + encoded_blocks(others) + rest);
        lemma_blocks_at(next, others, rest);
        assert(seq![first] + others =~= blocks);
    }
}

/// What is written of an entry of the cache is read back as it was: the
/// status, both outputs and every file. The only entries left out are those
/// with an output or a file of 2 to the 64th bytes or more, or that many
/// files.
#[verifier::spinoff_prover]
#[verifier::rlimit(60)]
pub proof fn lemma_entry_is_read_back(entry: EntryView)
    requires
        entry.output.stdout.len() < 0x1_0000_0000_0000_0000,
        entry.output.stderr.len() < 0x1_0000_0000_0000_0000,
        entry.artifacts.len() < 0x1_0000_0000_0000_0000,
        blocks_fit(entry.artifacts),
    ensures
        decoded_entry(encoded_entry(entry)) == Some(entry),
{
    let number = status_number(entry.output.status);
    let a = le_bytes(number, 8);
    let b = encoded_block(entry.output.stdout);
    let c = encoded_block(entry.output.stderr);
    let d = le_bytes(entry.artifacts.len(), 8);
    let e = encoded_blocks(entry.artifacts);
    let all = encoded_entry(entry);
    let none = Seq::<u8>::empty();
    lemma_le_bytes_len(number, 8);
    lemma_le_bytes_len(entry.artifacts.len(), 8);
    assert(all =~= none + a + (b + c + d + e));
    lemma_number_at(none, number, b + c + d + e);
    assert(status_of(number) == Some(entry.output.status));
    assert(all =~= a + b + (c + d + e));
    lemma_block_at(a, entry.output.stdout, c + d + e);
    assert(all =~= (a + b) + c + (d + e));
    lemma_block_at(a + b, entry.output.stderr, d + e);
    assert(all =~= (a + b + c) + d + e);
    lemma_number_at(a + b + c, entry.artifacts.len(), e);
    assert(all =~= (a + b + c + d) + e + none);
    lemma_blocks_at(a + b + c + d, entry.artifacts, none);
}


/// A component of a path: it is not empty and holds no separator.
pub open spec fn is_component(part: Seq<char>) -> bool {
    part.len() > 0 && forall|i: int| 0 <= i < part.len() ==> !is_separator(#[trigger] part[i])
}

/// A component that names something: neither `.` nor `..`.
pub open spec fn is_name(part: Seq<char>) -> bool {
    is_component(part) && part != seq!['.'] && part != seq!['.', '.']
}

proof fn lemma_component_run(path: Seq<char>, pos: int, upto: int)
    requires
        0 <= pos <= upto <= path.len(),
        forall|i: int| pos <= i < upto ==> !is_separator(#[trigger] path[i]),
    ensures
        component_end(path, pos) == component_end(path, upto),
    decreases upto - pos,
{
    if pos < upto {
        lemma_component_run(path, pos + 1, upto);
    }
}

proof fn lemma_components_are_components(path: Seq<char>, pos: int)
    requires
        0 <= pos <= path.len(),
    ensures
        forall|i: int|
            0 <= i < components_from(path, pos).len() ==> is_component(
                #[trigger] components_from(path, pos)[i],
            ),
    decreases path.len() - pos,
{
    if pos < path.len() {
        if is_separator(path[pos]) {
            lemma_components_are_components(path, pos + 1);
            assert(components_from(path, pos) == components_from(path, pos + 1));
        } else {
            let end = component_end(path, pos);
            lemma_component_end(path, pos);
            lemma_component_end(path, pos + 1);
            lemma_no_separator_before_end(path, pos);
            assert(pos < end <= path.len());
            lemma_components_are_components(path, end);
            let first = path.subrange(pos, end);
            assert(is_component(first)) by {
                assert forall|i: int| 0 <= i < first.len() implies !is_separator(
                    #[trigger] first[i],
                ) by {
                    assert(first[i] == path[pos + i]);
                }
            }
            let rest = components_from(path, end);
            assert(components_from(path, pos) == seq![first] + rest);
            assert forall|i: int| 0 <= i < components_from(path, pos).len() implies is_component(
                #[trigger] components_from(path, pos)[i],
            ) by {
                if i > 0 {
                    assert(components_from(path, pos)[i] == rest[i - 1]);
                } else {
                    assert(components_from(path, pos)[0] == first);
                }
            }
        }
    }
}

proof fn lemma_no_separator_before_end(path: Seq<char>, pos: int)
    requires
        0 <= pos <= path.len(),
    ensures
        forall|i: int| pos <= i < component_end(path, pos) ==> !is_separator(#[trigger] path[i]),
        component_end(path, pos) < path.len() ==> is_separator(path[component_end(path, pos)]),
    decreases path.len() - pos,
{
    if pos < path.len() && !is_separator(path[pos]) {
        lemma_no_separator_before_end(path, pos + 1);
    }
}

proof fn lemma_resolved_gives_names(parts: Seq<Seq<char>>, kept: Seq<Seq<char>>)
    requires
        forall|i: int| 0 <= i < parts.len() ==> is_component(#[trigger] parts[i]),
        forall|i: int| 0 <= i < kept.len() ==> is_name(#[trigger] kept[i]),
    ensures
        match resolved(parts, kept) {
            Some(left) => forall|i: int| 0 <= i < left.len() ==> is_name(#[trigger] left[i]),
            None => true,
        },
    decreases parts.len(),
{
    if parts.len() > 0 {
        let rest = parts.skip(1);
        assert forall|i: int| 0 <= i < rest.len() implies is_component(#[trigger] rest[i]) by {
            assert(rest[i] == parts[i + 1]);
        }
        if parts[0] == seq!['.'] {
            lemma_resolved_gives_names(rest, kept);
        } else if parts[0] == seq!['.', '.'] {
            if kept.len() > 0 {
                let less = kept.drop_last();
                assert forall|i: int| 0 <= i < less.len() implies is_name(#[trigger] less[i]) by {
                    assert(less[i] == kept[i]);
                }
                lemma_resolved_gives_names(rest, less);
            }
        } else {
            let more = kept.push(parts[0]);
            assert(is_component(parts[0]));
            assert forall|i: int| 0 <= i < more.len() implies is_name(#[trigger] more[i]) by {
                if i < kept.len() {
                    assert(more[i] == kept[i]);
                }
            }
            lemma_resolved_gives_names(rest, more);
        }
    }
}

proof fn lemma_names_resolve_to_themselves(parts: Seq<Seq<char>>, kept: Seq<Seq<char>>)
    requires
        forall|i: int| 0 <= i < parts.len() ==> is_name(#[trigger] parts[i]),
    ensures
        resolved(parts, kept) == Some(kept + parts),
    decreases parts.len(),
{
    if parts.len() == 0 {
        assert(kept + parts =~= kept);
    } else {
        let rest = parts.skip(1);
        assert(is_name(parts[0]));
        assert forall|i: int| 0 <= i < rest.len() implies is_name(#[trigger] rest[i]) by {
            assert(rest[i] == parts[i + 1]);
        }
        lemma_names_resolve_to_themselves(rest, kept.push(parts[0]));
        assert(kept.push(parts[0]) + rest =~= kept + parts);
    }
}

/// The components of a text that ends in a separator and a component are
/// those of the text before the separator, and that component.
proof fn lemma_components_with_one_more(head: Seq<char>, word: Seq<char>, pos: int)
    requires
        is_component(word),
        0 <= pos <= head.len(),
    ensures
        components_from(head + seq!['/'] + word, pos) == components_from(head, pos) + seq![word],
    decreases head.len() - pos,
{
    let text = head + seq!['/'] + word;
    if pos == head.len() {
        assert(text[pos] == '/');
        let start = pos + 1;
        assert forall|i: int| start <= i < text.len() implies !is_separator(#[trigger] text[i]) by {
            assert(text[i] == word[i - start]);
        }
        lemma_component_run(text, start, text.len() as int);
        assert(component_end(text, start) == text.len());
        assert(text.subrange(start, text.len() as int) =~= word);
        assert(components_from(text, text.len() as int) =~= Seq::<Seq<char>>::empty());
        assert(components_from(head, pos) =~= Seq::<Seq<char>>::empty());
        assert(components_from(text, start) =~= seq![word]);
    } else {
        assert(text[pos] == head[pos]);
        if is_separator(head[pos]) {
            lemma_components_with_one_more(head, word, pos + 1);
        } else {
            let end = component_end(head, pos);
            lemma_component_end(head, pos);
            lemma_component_end(head, pos + 1);
            lemma_no_separator_before_end(head, pos);
            assert(pos < end);
            assert forall|i: int| pos <= i < end implies !is_separator(#[trigger] text[i]) by {
                assert(text[i] == head[i]);
            }
            lemma_component_run(text, pos, end);
            assert(is_separator(text[end])) by {
                if end < head.len() {
                    assert(text[end] == head[end]);
                } else {
                    assert(text[end] == '/');
                }
            }
            assert(component_end(text, pos) == end);
            assert(text.subrange(pos, end) =~= head.subrange(pos, end));
            lemma_components_with_one_more(head, word, end);
            assert(components_from(text, pos) =~= components_from(head, pos) + seq![word]);
        }
    }
}

proof fn lemma_components_of_joined(parts: Seq<Seq<char>>, rooted: bool)
    requires
        forall|i: int| 0 <= i < parts.len() ==> is_component(#[trigger] parts[i]),
    ensures
        components(
            if rooted {
                seq!['/'] + joined(parts)
            } else {
                joined(parts)
            },
        ) == parts,
    decreases parts.len(),
{
    let none = Seq::<char>::empty();
    let root = seq!['/'];
    if parts.len() == 0 {
        assert(joined(parts) =~= none);
        assert(root + none =~= root);
        assert(components_from(root, 1) =~= Seq::<Seq<char>>::empty());
        assert(parts =~= Seq::<Seq<char>>::empty());
    } else if parts.len() == 1 {
        let word = parts[0];
        assert(is_component(word));
        if rooted {
            lemma_components_with_one_more(none, word, 0);
            assert(none + root + word =~= root + word);
            assert(components_from(none, 0) =~= Seq::<Seq<char>>::empty());
            assert(Seq::<Seq<char>>::empty() + seq![word] =~= parts);
        } else {
            assert forall|i: int| 0 <= i < word.len() implies !is_separator(#[trigger] word[i]) by {}
            lemma_component_run(word, 0, word.len() as int);
            assert(component_end(word, 0) == word.len());
            assert(word.subrange(0, word.len() as int) =~= word);
            assert(components_from(word, word.len() as int) =~= Seq::<Seq<char>>::empty());
            assert(components_from(word, 0) =~= seq![word]);
            assert(seq![word] =~= parts);
        }
    } else {
        let before = parts.drop_last();
        let word = parts.last();
        assert(is_component(word));
        assert forall|i: int| 0 <= i < before.len() implies is_component(#[trigger] before[i]) by {
            assert(before[i] == parts[i]);
        }
        lemma_components_of_joined(before, rooted);
        let head = if rooted {
            root + joined(before)
        } else {
            joined(before)
        };
        lemma_components_with_one_more(head, word, 0);
        assert(head + root + word =~= (if rooted {
            root + joined(parts)
        } else {
            joined(parts)
        }));
        assert(before + seq![word] =~= parts);
    }
}

proof fn lemma_joined_opens_with_its_first(parts: Seq<Seq<char>>)
    requires
        parts.len() > 0,
        forall|i: int| 0 <= i < parts.len() ==> is_component(#[trigger] parts[i]),
    ensures
        joined(parts).len() > 0,
        joined(parts)[0] == parts[0][0],
    decreases parts.len(),
{
    assert(is_component(parts[0]));
    if parts.len() > 1 {
        let before = parts.drop_last();
        assert forall|i: int| 0 <= i < before.len() implies is_component(#[trigger] before[i]) by {
            assert(before[i] == parts[i]);
        }
        lemma_joined_opens_with_its_first(before);
        assert(before[0] == parts[0]);
    }
}

/// To bring a path into its canonical form once is enough: the canonical form
/// of a path is its own canonical form.
pub proof fn lemma_normalized_is_idempotent(path: Seq<char>)
    ensures
        match normalized(path) {
            Some(canonical) => normalized(canonical) == Some(canonical),
            None => true,
        },
{
    lemma_components_are_components(path, 0);
    lemma_resolved_gives_names(components(path), Seq::empty());
    match resolved(components(path), Seq::empty()) {
        None => {},
        Some(parts) => {
            let rooted = is_rooted(path);
            let canonical = if rooted {
                seq!['/'] + joined(parts)
            } else {
                joined(parts)
            };
            assert forall|i: int| 0 <= i < parts.len() implies is_component(#[trigger] parts[i]) by {
                assert(is_name(parts[i]));
            }
            lemma_components_of_joined(parts, rooted);
            lemma_names_resolve_to_themselves(parts, Seq::empty());
            assert(Seq::<Seq<char>>::empty() + parts =~= parts);
            if !rooted && parts.len() > 0 {
                lemma_joined_opens_with_its_first(parts);
                assert(is_component(parts[0]));
            }
            assert(is_rooted(canonical) == rooted);
        },
    }
}


/// A byte that a path literal takes as it stands: no line end, no backslash
/// and not the quote.
pub open spec fn is_literal_byte(c: u8, quote: u8) -> bool {
    c != 0x0A && c != 0x0D && c != 0x5C && c != quote
}

/// A byte that can close the literal that it opens: no line end and no
/// backslash.
pub open spec fn is_quote_byte(c: u8) -> bool {
    c != 0x0A && c != 0x0D && c != 0x5C
}

/// The longest path that a literal without escapes may hold.
pub open spec fn longest_path() -> int {
    PATH_LIMIT - 4
}

proof fn lemma_literal_is_read(s: Seq<u8>, pos: int, n: int, k: int)
    requires
        0 <= pos,
        0 <= k <= n,
        k <= longest_path(),
        pos + n + 1 < s.len(),
        is_quote_byte(s[pos]),
        forall|i: int| pos < i <= pos + n ==> is_literal_byte(#[trigger] s[i], s[pos]),
        s[pos + n + 1] == s[pos],
    ensures
        literal_from(
            s,
            pos + 1 + k,
            s[pos],
            s.subrange(pos + 1, pos + 1 + k),
            s.subrange(pos, pos + 1 + k),
        ) == (if n <= longest_path() {
            Ok::<PathLiteral, PostprocessError>(
                PathLiteral {
                    file: s.subrange(pos + 1, pos + 1 + n),
                    raw: s.subrange(pos, pos + n + 2),
                    next: pos + n + 2,
                },
            )
        } else {
            Err::<PathLiteral, PostprocessError>(PostprocessError::LiteralTooLong)
        }),
    decreases n - k,
{
    let quote = s[pos];
    let file = s.subrange(pos + 1, pos + 1 + k);
    let raw = s.subrange(pos, pos + 1 + k);
    let at = pos + 1 + k;
    if k == n {
        assert(s[at] == quote);
        assert(raw.push(quote) =~= s.subrange(pos, pos + n + 2));
    } else {
        let c = s[at];
        assert(is_literal_byte(c, quote));
        assert(file.push(c) =~= s.subrange(pos + 1, pos + 1 + (k + 1)));
        assert(raw.push(c) =~= s.subrange(pos, pos + 1 + (k + 1)));
        if k < longest_path() {
            lemma_literal_is_read(s, pos, n, k + 1);
        }
    }
}

/// A path literal without escapes is read as it stands where its path has
/// 1020 bytes or less, and is refused as too long where it has more.
pub proof fn lemma_path_limit(s: Seq<u8>, pos: int, n: int)
    requires
        0 <= pos,
        0 <= n,
        pos + n + 1 < s.len(),
        is_quote_byte(s[pos]),
        forall|i: int| pos < i <= pos + n ==> is_literal_byte(#[trigger] s[i], s[pos]),
        s[pos + n + 1] == s[pos],
    ensures
        longest_path() == 1020,
        path_at(s, pos) == (if n <= longest_path() {
            Ok::<PathLiteral, PostprocessError>(
                PathLiteral {
                    file: s.subrange(pos + 1, pos + 1 + n),
                    raw: s.subrange(pos, pos + n + 2),
                    next: pos + n + 2,
                },
            )
        } else {
            Err::<PathLiteral, PostprocessError>(PostprocessError::LiteralTooLong)
        }),
{
    lemma_literal_is_read(s, pos, n, 0);
    assert(s.subrange(pos + 1, pos + 1) =~= Seq::<u8>::empty());
    assert(s.subrange(pos, pos + 1) =~= seq![s[pos]]);
}


/// A comment that is opened and never closed is no comment: the source ends
/// in it.
pub proof fn lemma_open_comment_is_incomplete(s: Seq<u8>, pos: int)
    requires
        0 <= pos,
        pos + 2 <= s.len(),
        s[pos] == 0x2F,
        s[pos + 1] == 0x2A,
        comment_close(s, pos + 2) < 0,
    ensures
        comment_block_at(s, pos) == LexedView::Incomplete,
{
    assert(s.subrange(pos, pos + 2) =~= seq![0x2Fu8, 0x2Au8].subrange(0, 2));
}

proof fn lemma_plain_run_reaches_the_end(s: Seq<u8>, pos: int)
    requires
        0 <= pos <= s.len(),
        forall|i: int| pos <= i < s.len() ==> !in_class(ByteClass::QuoteSpecial, #[trigger] s[i]),
    ensures
        run_end(s, pos, ByteClass::QuoteSpecial, false) == s.len(),
    decreases s.len() - pos,
{
    if pos < s.len() {
        lemma_plain_run_reaches_the_end(s, pos + 1);
    }
}

/// A string that is opened and runs to the end of the source is no string:
/// the source ends in it.
pub proof fn lemma_open_string_is_incomplete(s: Seq<u8>, pos: int)
    requires
        0 <= pos < s.len(),
        s[pos] == 0x22,
        forall|i: int| pos < i < s.len() ==> !in_class(ByteClass::QuoteSpecial, #[trigger] s[i]),
    ensures
        code_double_quote_at(s, pos) == LexedView::Incomplete,
{
    assert(s.subrange(pos, pos + 1) =~= seq![0x22u8].subrange(0, 1));
    lemma_plain_run_reaches_the_end(s, pos + 1);
    let end = s.len() as int;
    assert(escapes_at(s, end) == LexedView::Done(end));
    assert(s.subrange(end, end + 0) =~= seq![0x22u8].subrange(0, 0));
}

/// A source that holds a byte order mark and nothing else has no includes,
/// and is no error.
pub proof fn lemma_mark_alone_has_no_includes()
    ensures
        includes_of(seq![0xEFu8, 0xBBu8, 0xBFu8]) == FoundView::Done(
            3,
            (true, Seq::<Include<Seq<u8>>>::empty()),
        ),
{
    let s = seq![0xEFu8, 0xBBu8, 0xBFu8];
    assert(lines_at(s, 3) == LexedView::Done(3));
    assert(items_at(s, 3, Seq::empty()) == FoundView::Done(3, Seq::<Include<Seq<u8>>>::empty()));
}


/// What holds of every task: its arguments name its source and no other, at
/// most one precompiled header file and at most one marker; and the task
/// reads a precompiled header only where its marker is one to be used, writes
/// one only where its marker is one to be made, and never does both.
pub open spec fn task_is_sound(task: TaskView) -> bool {
    let markers = marker_files(task.args);
    &&& input_files(task.args, InputKind::Source) == seq![task.input_source]
    &&& input_files(task.args, InputKind::Precompiled).len() <= 1
    &&& markers.len() <= 1
    &&& task.input_precompiled is Some ==> markers.len() == 1 && markers[0].0
    &&& task.output_precompiled is Some ==> markers.len() == 1 && !markers[0].0
    &&& !(task.input_precompiled is Some && task.output_precompiled is Some)
}

/// Every task that a command line gives is sound.
pub proof fn lemma_task_is_sound(args: Seq<ArgView>)
    ensures
        match task_for(args) {
            Ok(Some(task)) => task_is_sound(task),
            _ => true,
        },
{
    match task_for(args) {
        Ok(Some(task)) => {
            assert(input_files(args, InputKind::Source) =~= seq![task.input_source]);
        },
        _ => {},
    }
}

/// A command line without a source asks for no task and for no tasks, and
/// that is no error.
pub proof fn lemma_no_source_gives_no_task(args: Seq<ArgView>)
    requires
        input_files(args, InputKind::Source).len() == 0,
    ensures
        task_for(args) == Ok::<Option<TaskView>, Seq<char>>(None),
        tasks_for(args) == Ok::<Seq<TaskView>, Seq<char>>(Seq::empty()),
{
}

/// The arguments with every source but one left out name that one source,
/// where there is a source at that place, and none else.
proof fn lemma_one_source_is_kept(args: Seq<ArgView>, index: int)
    ensures
        input_files(with_one_source(args, index), InputKind::Source).len() == (if 0 <= index
            < input_files(args, InputKind::Source).len() {
            1int
        } else {
            0int
        }),
    decreases args.len(),
{
    if args.len() > 0 {
        let head = args.drop_last();
        let rest = with_one_source(head, index);
        lemma_one_source_is_kept(head, index);
        assert(rest.push(args.last()).drop_last() =~= rest);
    }
}

/// A command line gives one task for each of its sources, and each is sound.
pub proof fn lemma_tasks_are_sound(args: Seq<ArgView>, from: int, count: int)
    requires
        0 <= from,
        count <= input_files(args, InputKind::Source).len(),
    ensures
        match tasks_from(args, from, count) {
            Ok(tasks) => tasks.len() == (if from < count {
                count - from
            } else {
                0
            }) && forall|i: int| 0 <= i < tasks.len() ==> task_is_sound(#[trigger] tasks[i]),
            Err(_) => true,
        },
    decreases count - from,
{
    if from < count {
        lemma_task_is_sound(with_one_source(args, from));
        lemma_one_source_is_kept(args, from);
        lemma_tasks_are_sound(args, from + 1, count);
        match tasks_from(args, from, count) {
            Ok(tasks) => {
                let first = task_for(with_one_source(args, from))->Ok_0->Some_0;
                let rest = tasks_from(args, from + 1, count)->Ok_0;
                assert(tasks == seq![first] + rest);
                assert forall|i: int| 0 <= i < tasks.len() implies task_is_sound(
                    #[trigger] tasks[i],
                ) by {
                    if i > 0 {
                        assert(tasks[i] == rest[i - 1]);
                    }
                }
            },
            Err(_) => {},
        }
    }
}


/// Toolchains with different identifiers share no entry of the cache: their
/// keys differ, whatever the rest is.
pub proof fn lemma_toolchains_share_no_key(
    toolchain1: Seq<char>,
    toolchain2: Seq<char>,
    args1: Seq<Seq<char>>,
    args2: Seq<Seq<char>>,
    preprocessed1: Seq<u8>,
    preprocessed2: Seq<u8>,
    precompiled1: Option<Seq<u8>>,
    precompiled2: Option<Seq<u8>>,
)
    requires
        toolchain1 != toolchain2,
    ensures
        key_of(toolchain1, args1, preprocessed1, precompiled1) != key_of(
            toolchain2,
            args2,
            preprocessed2,
            precompiled2,
        ),
{
}

/// What is remembered under a path stays so when an entry is put behind the
/// others; under a path that had no entry, the new entry is what is
/// remembered.
proof fn lemma_remembered_with_one_more(
    entries: Seq<(String, Option<Rc<IncludeInfo>>)>,
    entry: (String, Option<Rc<IncludeInfo>>),
    path: Seq<char>,
)
    ensures
        remembered(entries.push(entry), path) == (if remembered(entries, path) is Some {
            remembered(entries, path)
        } else if entry.0@ == path {
            Some(entry.1)
        } else {
            None
        }),
    decreases entries.len(),
{
    let more = entries.push(entry);
    if entries.len() == 0 {
        assert(more.skip(1) =~= entries);
    } else {
        assert(more.skip(1) =~= entries.skip(1).push(entry));
        lemma_remembered_with_one_more(entries.skip(1), entry, path);
    }
}

/// A file is asked for once: where a cacher gave an answer that is no error,
/// it gives the same answer to every later question for a path with the same
/// canonical form, from memory, and nothing changes then. So the state within
/// is asked at most once for each canonical path that it knows an answer to.
pub proof fn lemma_answer_is_remembered<T: IncludeState>(
    before: IncludeCacher<T>,
    after: IncludeCacher<T>,
    source_file: Seq<char>,
    r: Answer,
    again: Seq<char>,
    later: IncludeCacher<T>,
    second: Answer,
)
    requires
        looked_up(before, after, source_file, r),
        r is Ok,
        normalized(again) == normalized(source_file),
        looked_up(after, later, again, second),
    ensures
        second == r,
        later == after,
{
    let path = normalized(source_file)->Some_0;
    if remembered(before.cache@, path) is None {
        assert(after.cache@ =~= after.cache@.drop_last().push(after.cache@.last()));
        lemma_remembered_with_one_more(before.cache@, after.cache@.last(), path);
    }
}

/// A search is decided by what the state says: the same answers to the same
/// candidates give the same result.
pub proof fn lemma_search_is_decided_by_the_answers<T: IncludeState>(
    first: T,
    candidates: Seq<Seq<char>>,
    answers: Seq<Answer>,
    states: Seq<T>,
    r1: Answer,
    r2: Answer,
)
    requires
        solved_with(first, candidates, r1, answers, states),
        solved_with(first, candidates, r2, answers, states),
    ensures
        r1 == r2,
{
}

} // verus!
