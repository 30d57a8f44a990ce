//! Command lines of the Microsoft compiler: their classification, and the
//! tasks they ask for.

use vstd::prelude::*;
use vstd::string::StrSliceExecFns;
use vstd::string::StringExecFns;
use crate::compiler::{
    Arg, ArgView, CommandInfo, CompilationTask, InputKind, OutputKind, Scope, TaskView, arg_views,
    opt_view, text_views,
};
use crate::paths::{extension, path_extension, path_with_extension, with_extension};
use crate::text::{
    eq_ignore_ascii_case, has_prefix, join2, same_ignoring_ascii_case, skip_chars, starts_with,
    tail, text_eq,
};

verus! {

/// The text that `{:?}` gives for a list of texts.
pub uninterp spec fn debug_list_text(items: Seq<Seq<char>>) -> Seq<char>;

/// The text that `{:?}` gives for one text.
pub uninterp spec fn debug_text(item: Seq<char>) -> Seq<char>;

/// Formats a list of texts with std's `format!("{:?}", ..)`. The contract only
/// gives that text a name: it is a function of the list alone.
#[verifier::external_body]
pub(crate) fn debug_list(items: &Vec<String>) -> (r: String)
    ensures
        r@ == debug_list_text(text_views(items@)),
{
    format!("{:?}", items)
}

/// Formats one text with std's `format!("{:?}", ..)`. The contract only gives
/// that text a name: it is a function of the argument alone.
#[verifier::external_body]
pub(crate) fn debug_str(item: &str) -> (r: String)
    ensures
        r@ == debug_text(item@),
{
    format!("{:?}", item)
}

/// An argument is a switch when it opens with `/` or `-`.
pub open spec fn is_switch(arg: Seq<char>) -> bool {
    arg.len() > 0 && (arg[0] == '/' || arg[0] == '-')
}

pub fn has_param_prefix(arg: &str) -> (r: bool)
    ensures
        r == is_switch(arg@),
{
    if arg.unicode_len() == 0 {
        return false;
    }
    let c = arg.get_char(0);
    c == '/' || c == '-'
}

/// The switches whose value may stand in the next argument, with the scope of
/// each: the first of `D`, `I`, `W`, `wd`, `we`, `wo`, `w` that opens `flag`.
pub open spec fn spaceable(flag: Seq<char>) -> Option<(Seq<char>, Scope)> {
    if has_prefix(flag, "D"@) {
        Some(("D"@, Scope::Shared))
    } else if has_prefix(flag, "I"@) {
        Some(("I"@, Scope::Preprocessor))
    } else if has_prefix(flag, "W"@) {
        Some(("W"@, Scope::Compiler))
    } else if has_prefix(flag, "wd"@) {
        Some(("wd"@, Scope::Compiler))
    } else if has_prefix(flag, "we"@) {
        Some(("we"@, Scope::Compiler))
    } else if has_prefix(flag, "wo"@) {
        Some(("wo"@, Scope::Compiler))
    } else if has_prefix(flag, "w"@) {
        Some(("w"@, Scope::Compiler))
    } else {
        None
    }
}

pub fn is_spaceable_param(flag: &str) -> (r: Option<(&'static str, Scope)>)
    ensures
        match r {
            Some((prefix, scope)) => spaceable(flag@) == Some((prefix@, scope)),
            None => spaceable(flag@) is None,
        },
{
    if starts_with(flag, "D") {
        Some(("D", Scope::Shared))
    } else if starts_with(flag, "I") {
        Some(("I", Scope::Preprocessor))
    } else if starts_with(flag, "W") {
        Some(("W", Scope::Compiler))
    } else if starts_with(flag, "wd") {
        Some(("wd", Scope::Compiler))
    } else if starts_with(flag, "we") {
        Some(("we", Scope::Compiler))
    } else if starts_with(flag, "wo") {
        Some(("wo", Scope::Compiler))
    } else if starts_with(flag, "w") {
        Some(("w", Scope::Compiler))
    } else {
        None
    }
}

/// A switch that stands for itself and reaches both steps: it opens with one
/// of `O`, `G`, `RTC`, `Z`, `d2Zi+`, `MD`, `MT`, `EH`, `fp:`, `arch:`,
/// `errorReport:`.
pub open spec fn is_shared_flag(flag: Seq<char>) -> bool {
    ||| has_prefix(flag, "O"@)
    ||| has_prefix(flag, "G"@)
    ||| has_prefix(flag, "RTC"@)
    ||| has_prefix(flag, "Z"@)
    ||| has_prefix(flag, "d2Zi+"@)
    ||| has_prefix(flag, "MD"@)
    ||| has_prefix(flag, "MT"@)
    ||| has_prefix(flag, "EH"@)
    ||| has_prefix(flag, "fp:"@)
    ||| has_prefix(flag, "arch:"@)
    ||| has_prefix(flag, "errorReport:"@)
}

fn shared_flag(flag: &str) -> (r: bool)
    ensures
        r == is_shared_flag(flag@),
{
    starts_with(flag, "O") || starts_with(flag, "G") || starts_with(flag, "RTC") || starts_with(
        flag,
        "Z",
    ) || starts_with(flag, "d2Zi+") || starts_with(flag, "MD") || starts_with(flag, "MT")
        || starts_with(flag, "EH") || starts_with(flag, "fp:") || starts_with(flag, "arch:")
        || starts_with(flag, "errorReport:")
}

/// What a switch that is not spaceable stands for, `flag` being the switch
/// without its first character; `None` for a switch that is not known.
pub open spec fn plain_switch(flag: Seq<char>) -> Option<ArgView> {
    if flag == "c"@ || flag == "nologo"@ {
        Some(ArgView::Flag { scope: Scope::Ignore, flag })
    } else if flag == "bigobj"@ {
        Some(ArgView::Flag { scope: Scope::Compiler, flag })
    } else if has_prefix(flag, "T"@) {
        Some(ArgView::Param { scope: Scope::Ignore, flag: "T"@, value: tail(flag, 1) })
    } else if is_shared_flag(flag) {
        Some(ArgView::Flag { scope: Scope::Shared, flag })
    } else if has_prefix(flag, "Fo"@) {
        Some(ArgView::Output { kind: OutputKind::Object, flag: "Fo"@, file: tail(flag, 2) })
    } else if has_prefix(flag, "Fp"@) {
        Some(ArgView::Input { kind: InputKind::Precompiled, flag: "Fp"@, file: tail(flag, 2) })
    } else if has_prefix(flag, "Yc"@) {
        Some(ArgView::Output { kind: OutputKind::Marker, flag: "Yc"@, file: tail(flag, 2) })
    } else if has_prefix(flag, "Yu"@) {
        Some(ArgView::Input { kind: InputKind::Marker, flag: "Yu"@, file: tail(flag, 2) })
    } else if has_prefix(flag, "Yl"@) {
        Some(ArgView::Flag { scope: Scope::Shared, flag })
    } else if has_prefix(flag, "FI"@) {
        Some(ArgView::Param { scope: Scope::Preprocessor, flag: "FI"@, value: tail(flag, 2) })
    } else {
        None
    }
}

fn parse_plain_switch(flag: &str) -> (r: Option<Arg>)
    ensures
        match r {
            Some(arg) => plain_switch(flag@) == Some(arg@),
            None => plain_switch(flag@) is None,
        },
{
    proof {
        reveal_strlit("T");
        reveal_strlit("Fo");
        reveal_strlit("Fp");
        reveal_strlit("Yc");
        reveal_strlit("Yu");
        reveal_strlit("FI");
    }
    if text_eq(flag, "c") || text_eq(flag, "nologo") {
        Some(Arg::Flag { scope: Scope::Ignore, flag: String::from_str(flag) })
    } else if text_eq(flag, "bigobj") {
        Some(Arg::Flag { scope: Scope::Compiler, flag: String::from_str(flag) })
    } else if starts_with(flag, "T") {
        Some(
            Arg::Param {
                scope: Scope::Ignore,
                flag: String::from_str("T"),
                value: skip_chars(flag, 1),
            },
        )
    } else if shared_flag(flag) {
        Some(Arg::Flag { scope: Scope::Shared, flag: String::from_str(flag) })
    } else if starts_with(flag, "Fo") {
        Some(
            Arg::Output {
                kind: OutputKind::Object,
                flag: String::from_str("Fo"),
                file: skip_chars(flag, 2),
            },
        )
    } else if starts_with(flag, "Fp") {
        Some(
            Arg::Input {
                kind: InputKind::Precompiled,
                flag: String::from_str("Fp"),
                file: skip_chars(flag, 2),
            },
        )
    } else if starts_with(flag, "Yc") {
        Some(
            Arg::Output {
                kind: OutputKind::Marker,
                flag: String::from_str("Yc"),
                file: skip_chars(flag, 2),
            },
        )
    } else if starts_with(flag, "Yu") {
        Some(
            Arg::Input {
                kind: InputKind::Marker,
                flag: String::from_str("Yu"),
                file: skip_chars(flag, 2),
            },
        )
    } else if starts_with(flag, "Yl") {
        Some(Arg::Flag { scope: Scope::Shared, flag: String::from_str(flag) })
    } else if starts_with(flag, "FI") {
        Some(
            Arg::Param {
                scope: Scope::Preprocessor,
                flag: String::from_str("FI"),
                value: skip_chars(flag, 2),
            },
        )
    } else {
        None
    }
}

/// What the argument at `pos` stands for, and where the next argument begins.
/// An argument that is no switch is a source file. A spaceable switch that
/// stands alone takes the next argument as its value, and is refused, with that
/// argument used up, where this one is a switch too or is missing. `Err` holds
/// the argument that was refused.
pub open spec fn classify(args: Seq<Seq<char>>, pos: int) -> (Result<ArgView, Seq<char>>, int)
    recommends
        0 <= pos < args.len(),
{
    let arg = args[pos];
    if !is_switch(arg) {
        (Ok(ArgView::Input { kind: InputKind::Source, flag: Seq::empty(), file: arg }), pos + 1)
    } else {
        let flag = tail(arg, 1);
        match spaceable(flag) {
            Some((prefix, scope)) => {
                if flag == prefix {
                    if pos + 1 < args.len() {
                        if !is_switch(args[pos + 1]) {
                            (
                                Ok(ArgView::Param { scope, flag: prefix, value: args[pos + 1] }),
                                pos + 2,
                            )
                        } else {
                            (Err(arg), pos + 2)
                        }
                    } else {
                        (Err(arg), pos + 1)
                    }
                } else {
                    (
                        Ok(
                            ArgView::Param {
                                scope,
                                flag: prefix,
                                value: tail(flag, prefix.len() as int),
                            },
                        ),
                        pos + 1,
                    )
                }
            },
            None => match plain_switch(flag) {
                Some(found) => (Ok(found), pos + 1),
                None => (Err(arg), pos + 1),
            },
        }
    }
}

/// Classifies the argument at `*pos` and moves `*pos` past what it used;
/// `None` once the arguments are used up.
pub fn parse_argument(args: &Vec<String>, pos: &mut usize) -> (r: Option<Result<Arg, String>>)
    requires
        *old(pos) <= args.len(),
    ensures
        *old(pos) == args.len() ==> r is None && *final(pos) == *old(pos),
        *old(pos) < args.len() ==> {
            let (expected, next) = classify(text_views(args@), *old(pos) as int);
            &&& *final(pos) == next
            &&& *final(pos) <= args.len()
            &&& match r {
                Some(Ok(arg)) => expected == Ok::<ArgView, Seq<char>>(arg@),
                Some(Err(bad)) => expected == Err::<ArgView, Seq<char>>(bad@),
                None => false,
            }
        },
{
    if *pos >= args.len() {
        return None;
    }
    let arg: &str = args[*pos].as_str();
    *pos = *pos + 1;
    if !has_param_prefix(arg) {
        return Some(
            Ok(Arg::Input { kind: InputKind::Source, flag: String::new(), file: String::from_str(arg) }),
        );
    }
    let flag_text = skip_chars(arg, 1);
    let flag: &str = flag_text.as_str();
    match is_spaceable_param(flag) {
        Some((prefix, scope)) => {
            if text_eq(flag, prefix) {
                if *pos < args.len() {
                    let value: &str = args[*pos].as_str();
                    *pos = *pos + 1;
                    if !has_param_prefix(value) {
                        Some(
                            Ok(
                                Arg::Param {
                                    scope,
                                    flag: String::from_str(prefix),
                                    value: String::from_str(value),
                                },
                            ),
                        )
                    } else {
                        Some(Err(String::from_str(arg)))
                    }
                } else {
                    Some(Err(String::from_str(arg)))
                }
            } else {
                let n = prefix.unicode_len();
                Some(
                    Ok(
                        Arg::Param {
                            scope,
                            flag: String::from_str(prefix),
                            value: skip_chars(flag, n),
                        },
                    ),
                )
            }
        },
        None => match parse_plain_switch(flag) {
            Some(found) => Some(Ok(found)),
            None => Some(Err(String::from_str(arg))),
        },
    }
}

/// The arguments from `pos` on that are understood, in order.
pub open spec fn accepted_from(args: Seq<Seq<char>>, pos: int) -> Seq<ArgView>
    decreases args.len() - pos,
{
    if 0 <= pos < args.len() {
        let (found, next) = classify(args, pos);
        match found {
            Ok(arg) => seq![arg] + accepted_from(args, next),
            Err(_) => accepted_from(args, next),
        }
    } else {
        Seq::empty()
    }
}

/// The arguments from `pos` on that are refused, in order.
pub open spec fn refused_from(args: Seq<Seq<char>>, pos: int) -> Seq<Seq<char>>
    decreases args.len() - pos,
{
    if 0 <= pos < args.len() {
        let (found, next) = classify(args, pos);
        match found {
            Ok(_) => refused_from(args, next),
            Err(bad) => seq![bad] + refused_from(args, next),
        }
    } else {
        Seq::empty()
    }
}

/// The classification of a whole command line: the list of its arguments, or
/// the message that names every argument that was refused.
pub open spec fn classified(args: Seq<Seq<char>>) -> Result<Seq<ArgView>, Seq<char>> {
    if refused_from(args, 0).len() == 0 {
        Ok(accepted_from(args, 0))
    } else {
        Err("Found unknown command line arguments: "@ + debug_list_text(refused_from(args, 0)))
    }
}

pub fn parse_arguments(args: &Vec<String>) -> (r: Result<Vec<Arg>, String>)
    ensures
        match r {
            Ok(found) => classified(text_views(args@)) == Ok::<Seq<ArgView>, Seq<char>>(
                arg_views(found@),
            ),
            Err(message) => classified(text_views(args@)) == Err::<Seq<ArgView>, Seq<char>>(
                message@,
            ),
        },
{
    let mut result: Vec<Arg> = Vec::new();
    let mut errors: Vec<String> = Vec::new();
    let mut pos: usize = 0;
    let ghost texts = text_views(args@);
    while pos < args.len()
        invariant
            pos <= args.len(),
            texts == text_views(args@),
            accepted_from(texts, 0) == arg_views(result@) + accepted_from(texts, pos as int),
            refused_from(texts, 0) == text_views(errors@) + refused_from(texts, pos as int),
        decreases args.len() - pos,
    {
        let ghost before = pos as int;
        let ghost old_result = arg_views(result@);
        let ghost old_errors = text_views(errors@);
        match parse_argument(args, &mut pos) {
            Some(Ok(arg)) => {
                result.push(arg);
                assert(arg_views(result@) =~= old_result + seq![arg@]);
            },
            Some(Err(bad)) => {
                errors.push(bad);
                assert(text_views(errors@) =~= old_errors + seq![bad@]);
            },
            None => {},
        }
        assert(accepted_from(texts, 0) =~= arg_views(result@) + accepted_from(texts, pos as int));
        assert(refused_from(texts, 0) =~= text_views(errors@) + refused_from(texts, pos as int));
    }
    if errors.len() > 0 {
        let listed = debug_list(&errors);
        return Err(String::from_str("Found unknown command line arguments: ").concat(listed.as_str()));
    }
    assert(arg_views(result@) =~= accepted_from(texts, 0));
    assert(text_views(errors@) =~= refused_from(texts, 0));
    Ok(result)
}


/// How often a kind of argument was found: never, once, or too often.
pub enum ParamValue<T> {
    Absent,
    Single(T),
    Many(Vec<T>),
}

/// Sorts what was found by its number.
pub fn find_param<T>(found: Vec<T>) -> (r: ParamValue<T>)
    ensures
        match r {
            ParamValue::Absent => found@.len() == 0,
            ParamValue::Single(only) => found@ == seq![only],
            ParamValue::Many(all) => all == found && found@.len() > 1,
        },
{
    let mut found = found;
    if found.len() == 0 {
        ParamValue::Absent
    } else if found.len() == 1 {
        let ghost before = found@;
        match found.pop() {
            Some(only) => {
                assert(before =~= seq![only]);
                ParamValue::Single(only)
            },
            None => ParamValue::Absent,
        }
    } else {
        ParamValue::Many(found)
    }
}

/// The files of the inputs of one kind, in order.
pub open spec fn input_files(args: Seq<ArgView>, kind: InputKind) -> Seq<Seq<char>>
    decreases args.len(),
{
    if args.len() == 0 {
        Seq::empty()
    } else {
        let rest = input_files(args.drop_last(), kind);
        match args.last() {
            ArgView::Input { kind: k, file, .. } => if k == kind {
                rest.push(file)
            } else {
                rest
            },
            _ => rest,
        }
    }
}

/// The files of the outputs of one kind, in order.
pub open spec fn output_files(args: Seq<ArgView>, kind: OutputKind) -> Seq<Seq<char>>
    decreases args.len(),
{
    if args.len() == 0 {
        Seq::empty()
    } else {
        let rest = output_files(args.drop_last(), kind);
        match args.last() {
            ArgView::Output { kind: k, file, .. } => if k == kind {
                rest.push(file)
            } else {
                rest
            },
            _ => rest,
        }
    }
}

/// The precompiled header markers, in order: the header's name, and whether
/// the header is consumed (`true`) or produced (`false`).
pub open spec fn marker_files(args: Seq<ArgView>) -> Seq<(bool, Seq<char>)>
    decreases args.len(),
{
    if args.len() == 0 {
        Seq::empty()
    } else {
        let rest = marker_files(args.drop_last());
        match args.last() {
            ArgView::Input { kind: InputKind::Marker, file, .. } => rest.push((true, file)),
            ArgView::Output { kind: OutputKind::Marker, file, .. } => rest.push((false, file)),
            _ => rest,
        }
    }
}

/// The values of the parameters named `T`, in order.
pub open spec fn language_values(args: Seq<ArgView>) -> Seq<Seq<char>>
    decreases args.len(),
{
    if args.len() == 0 {
        Seq::empty()
    } else {
        let rest = language_values(args.drop_last());
        match args.last() {
            ArgView::Param { flag, value, .. } => if flag == "T"@ {
                rest.push(value)
            } else {
                rest
            },
            _ => rest,
        }
    }
}

/// The names of a list of markers, one after the other.
pub open spec fn marker_names(markers: Seq<(bool, Seq<char>)>) -> Seq<char>
    decreases markers.len(),
{
    if markers.len() == 0 {
        Seq::empty()
    } else {
        marker_names(markers.drop_last()) + markers.last().1
    }
}

fn collect_inputs(args: &Vec<Arg>, kind: InputKind) -> (r: Vec<String>)
    ensures
        text_views(r@) == input_files(arg_views(args@), kind),
{
    let mut found: Vec<String> = Vec::new();
    let ghost views = arg_views(args@);
    let mut i: usize = 0;
    assert(views.take(0) =~= Seq::<ArgView>::empty());
    while i < args.len()
        invariant
            i <= args.len(),
            views == arg_views(args@),
            text_views(found@) == input_files(views.take(i as int), kind),
        decreases args.len() - i,
    {
        let ghost before = text_views(found@);
        proof {
            assert(views.take(i + 1).drop_last() =~= views.take(i as int));
            assert(views.take(i + 1).last() == args@[i as int]@);
        }
        match &args[i] {
            Arg::Input { kind: k, file, .. } => {
                if *k == kind {
                    found.push(file.clone());
                    assert(text_views(found@) =~= before.push(file@));
                }
            },
            _ => {},
        }
        i += 1;
    }
    assert(views.take(args.len() as int) =~= views);
    found
}

fn collect_outputs(args: &Vec<Arg>, kind: OutputKind) -> (r: Vec<String>)
    ensures
        text_views(r@) == output_files(arg_views(args@), kind),
{
    let mut found: Vec<String> = Vec::new();
    let ghost views = arg_views(args@);
    let mut i: usize = 0;
    assert(views.take(0) =~= Seq::<ArgView>::empty());
    while i < args.len()
        invariant
            i <= args.len(),
            views == arg_views(args@),
            text_views(found@) == output_files(views.take(i as int), kind),
        decreases args.len() - i,
    {
        let ghost before = text_views(found@);
        proof {
            assert(views.take(i + 1).drop_last() =~= views.take(i as int));
            assert(views.take(i + 1).last() == args@[i as int]@);
        }
        match &args[i] {
            Arg::Output { kind: k, file, .. } => {
                if *k == kind {
                    found.push(file.clone());
                    assert(text_views(found@) =~= before.push(file@));
                }
            },
            _ => {},
        }
        i += 1;
    }
    assert(views.take(args.len() as int) =~= views);
    found
}

/// The values of a list of markers, in order.
pub open spec fn marker_views(items: Seq<(bool, String)>) -> Seq<(bool, Seq<char>)> {
    Seq::new(items.len(), |i: int| (items[i].0, items[i].1@))
}

fn collect_markers(args: &Vec<Arg>) -> (r: Vec<(bool, String)>)
    ensures
        marker_views(r@) == marker_files(arg_views(args@)),
{
    let mut found: Vec<(bool, String)> = Vec::new();
    let ghost views = arg_views(args@);
    let mut i: usize = 0;
    assert(views.take(0) =~= Seq::<ArgView>::empty());
    while i < args.len()
        invariant
            i <= args.len(),
            views == arg_views(args@),
            marker_views(found@) == marker_files(views.take(i as int)),
        decreases args.len() - i,
    {
        let ghost before = marker_views(found@);
        proof {
            assert(views.take(i + 1).drop_last() =~= views.take(i as int));
            assert(views.take(i + 1).last() == args@[i as int]@);
        }
        match &args[i] {
            Arg::Input { kind: InputKind::Marker, file, .. } => {
                found.push((true, file.clone()));
                assert(marker_views(found@) =~= before.push((true, file@)));
            },
            Arg::Output { kind: OutputKind::Marker, file, .. } => {
                found.push((false, file.clone()));
                assert(marker_views(found@) =~= before.push((false, file@)));
            },
            _ => {},
        }
        i += 1;
    }
    assert(views.take(args.len() as int) =~= views);
    found
}

fn collect_languages(args: &Vec<Arg>) -> (r: Vec<String>)
    ensures
        text_views(r@) == language_values(arg_views(args@)),
{
    let mut found: Vec<String> = Vec::new();
    let ghost views = arg_views(args@);
    let mut i: usize = 0;
    assert(views.take(0) =~= Seq::<ArgView>::empty());
    while i < args.len()
        invariant
            i <= args.len(),
            views == arg_views(args@),
            text_views(found@) == language_values(views.take(i as int)),
        decreases args.len() - i,
    {
        let ghost before = text_views(found@);
        proof {
            assert(views.take(i + 1).drop_last() =~= views.take(i as int));
            assert(views.take(i + 1).last() == args@[i as int]@);
        }
        match &args[i] {
            Arg::Param { flag, value, .. } => {
                if text_eq(flag.as_str(), "T") {
                    found.push(value.clone());
                    assert(text_views(found@) =~= before.push(value@));
                }
            },
            _ => {},
        }
        i += 1;
    }
    assert(views.take(args.len() as int) =~= views);
    found
}

fn concat_markers(markers: &Vec<(bool, String)>) -> (r: String)
    ensures
        r@ == marker_names(marker_views(markers@)),
{
    let mut all = String::new();
    let ghost views = marker_views(markers@);
    let mut i: usize = 0;
    assert(views.take(0) =~= Seq::<(bool, Seq<char>)>::empty());
    while i < markers.len()
        invariant
            i <= markers.len(),
            views == marker_views(markers@),
            all@ == marker_names(views.take(i as int)),
        decreases markers.len() - i,
    {
        proof {
            assert(views.take(i + 1).drop_last() =~= views.take(i as int));
        }
        all.append(markers[i].1.as_str());
        i += 1;
    }
    assert(views.take(markers.len() as int) =~= views);
    all
}

/// The language of a source file by the extension of its name: `cpp`, `cxx`
/// and `cc` are C++ (`P`), `c` is C (`C`), letters in either case.
pub open spec fn language_by_extension(source: Seq<char>) -> Option<Seq<char>> {
    match extension(source) {
        Some(ext) => if same_ignoring_ascii_case(ext, "cpp"@) || same_ignoring_ascii_case(
            ext,
            "cxx"@,
        ) || same_ignoring_ascii_case(ext, "cc"@) {
            Some("P"@)
        } else if same_ignoring_ascii_case(ext, "c"@) {
            Some("C"@)
        } else {
            None
        },
        None => None,
    }
}

/// The language of a task: the one `T` parameter where there is one, which
/// has to be `P` or `C`; without one, the language by the source's extension.
pub open spec fn task_language(languages: Seq<Seq<char>>, source: Seq<char>) -> Result<
    Seq<char>,
    Seq<char>,
> {
    if languages.len() == 0 {
        match language_by_extension(source) {
            Some(language) => Ok(language),
            None => Err("Can't detect file language by extension: "@ + source),
        }
    } else if languages.len() == 1 {
        if languages[0] == "P"@ || languages[0] == "C"@ {
            Ok(languages[0])
        } else {
            Err("Unknown source language type: "@ + languages[0])
        }
    } else {
        Err("Found too many source language types: "@ + debug_list_text(languages))
    }
}

/// The task that a classified command line asks for; none where it names no
/// source; or the message that says why it is refused. A task has exactly one
/// source file, at most one
/// precompiled header file, at most one marker and at most one object file.
/// The marker is kept only where it has a name. Where no precompiled header
/// file is named, it is the marker's name followed by `.pch`; it is the task's
/// input where the marker is consumed and its output where it is produced.
/// Where no object file is named, it is the source with the extension `obj`.
pub open spec fn task_for(args: Seq<ArgView>) -> Result<Option<TaskView>, Seq<char>> {
    let sources = input_files(args, InputKind::Source);
    let precompiled = input_files(args, InputKind::Precompiled);
    let markers = marker_files(args);
    let objects = output_files(args, OutputKind::Object);
    if sources.len() == 0 {
        Ok(None)
    } else if sources.len() > 1 {
        Err("Found too many source files: "@ + debug_list_text(sources))
    } else if precompiled.len() > 1 {
        Err("Found too many precompiled header files: "@ + debug_list_text(precompiled))
    } else if markers.len() > 1 {
        Err("Found too many precompiled header markers: "@ + debug_text(marker_names(markers)))
    } else if objects.len() > 1 {
        Err("Found too many output object files: "@ + debug_list_text(objects))
    } else {
        match task_language(language_values(args), sources[0]) {
            Err(message) => Err(message),
            Ok(language) => {
                let header = if markers.len() == 0 {
                    None
                } else if precompiled.len() == 1 {
                    Some(precompiled[0])
                } else {
                    Some(markers[0].1 + ".pch"@)
                };
                Ok(Some(
                    TaskView {
                        args,
                        language,
                        input_source: sources[0],
                        input_precompiled: if markers.len() == 1 && markers[0].0 {
                            header
                        } else {
                            None
                        },
                        output_object: if objects.len() == 1 {
                            objects[0]
                        } else {
                            with_extension(sources[0], "obj"@)
                        },
                        output_precompiled: if markers.len() == 1 && !markers[0].0 {
                            header
                        } else {
                            None
                        },
                        marker_precompiled: if markers.len() == 1 && markers[0].1.len() > 0 {
                            Some(markers[0].1)
                        } else {
                            None
                        },
                    },
                ))
            },
        }
    }
}

/// The task that a command line asks for: its classification, then the task
/// for that.
pub open spec fn task_of(args: Seq<Seq<char>>) -> Result<Option<TaskView>, Seq<char>> {
    match classified(args) {
        Ok(found) => task_for(found),
        Err(message) => Err(message),
    }
}

fn detect_language(languages: Vec<String>, source: &str) -> (r: Result<String, String>)
    ensures
        match r {
            Ok(language) => task_language(text_views(languages@), source@) == Ok::<
                Seq<char>,
                Seq<char>,
            >(language@),
            Err(message) => task_language(text_views(languages@), source@) == Err::<
                Seq<char>,
                Seq<char>,
            >(message@),
        },
{
    let ghost all = text_views(languages@);
    match find_param(languages) {
        ParamValue::Absent => {
            let found = match path_extension(source) {
                Some(ext) => {
                    let e = ext.as_str();
                    if eq_ignore_ascii_case(e, "cpp") || eq_ignore_ascii_case(e, "cxx")
                        || eq_ignore_ascii_case(e, "cc") {
                        Some(String::from_str("P"))
                    } else if eq_ignore_ascii_case(e, "c") {
                        Some(String::from_str("C"))
                    } else {
                        None
                    }
                },
                None => None,
            };
            match found {
                Some(language) => Ok(language),
                None => Err(join2("Can't detect file language by extension: ", source)),
            }
        },
        ParamValue::Single(only) => {
            assert(all =~= seq![only@]);
            if text_eq(only.as_str(), "P") || text_eq(only.as_str(), "C") {
                Ok(only)
            } else {
                Err(join2("Unknown source language type: ", only.as_str()))
            }
        },
        ParamValue::Many(all_found) => {
            let listed = debug_list(&all_found);
            Err(join2("Found too many source language types: ", listed.as_str()))
        },
    }
}

/// Builds the task for a command line whose response files are already
/// expanded. A command line without a source asks for no task, which is no
/// error.
pub fn create_task(command: CommandInfo, args: &Vec<String>) -> (r: Result<
    Option<CompilationTask>,
    String,
>)
    ensures
        match r {
            Ok(Some(task)) => task.command == command && task_of(text_views(args@)) == Ok::<
                Option<TaskView>,
                Seq<char>,
            >(Some(task@)),
            Ok(None) => task_of(text_views(args@)) == Ok::<Option<TaskView>, Seq<char>>(None),
            Err(message) => task_of(text_views(args@)) == Err::<Option<TaskView>, Seq<char>>(
                message@,
            ),
        },
{
    let parsed_args = match parse_arguments(args) {
        Ok(found) => found,
        Err(message) => {
            return Err(message);
        },
    };
    build_task(command, parsed_args)
}

/// Builds the task that a classified command line asks for; none where it
/// names no source.
pub fn build_task(command: CommandInfo, parsed_args: Vec<Arg>) -> (r: Result<
    Option<CompilationTask>,
    String,
>)
    ensures
        match r {
            Ok(Some(task)) => task.command == command && task_for(arg_views(parsed_args@)) == Ok::<
                Option<TaskView>,
                Seq<char>,
            >(Some(task@)),
            Ok(None) => task_for(arg_views(parsed_args@)) == Ok::<Option<TaskView>, Seq<char>>(
                None,
            ),
            Err(message) => task_for(arg_views(parsed_args@)) == Err::<Option<TaskView>, Seq<char>>(
                message@,
            ),
        },
{
    let ghost views = arg_views(parsed_args@);
    let input_source = match find_param(collect_inputs(&parsed_args, InputKind::Source)) {
        ParamValue::Absent => {
            return Ok(None);
        },
        ParamValue::Single(only) => {
            assert(input_files(views, InputKind::Source) =~= seq![only@]);
            only
        },
        ParamValue::Many(all) => {
            let listed = debug_list(&all);
            return Err(join2("Found too many source files: ", listed.as_str()));
        },
    };
    let precompiled_file = match find_param(collect_inputs(&parsed_args, InputKind::Precompiled)) {
        ParamValue::Absent => None,
        ParamValue::Single(only) => {
            assert(input_files(views, InputKind::Precompiled) =~= seq![only@]);
            Some(only)
        },
        ParamValue::Many(all) => {
            let listed = debug_list(&all);
            return Err(join2("Found too many precompiled header files: ", listed.as_str()));
        },
    };
    let marker_precompiled: Option<String>;
    let input_precompiled: Option<String>;
    let output_precompiled: Option<String>;
    match find_param(collect_markers(&parsed_args)) {
        ParamValue::Absent => {
            marker_precompiled = None;
            input_precompiled = None;
            output_precompiled = None;
        },
        ParamValue::Single(only) => {
            assert(marker_files(views) =~= seq![(only.0, only.1@)]);
            let (input, path) = only;
            let precompiled_path = match precompiled_file {
                Some(named) => named,
                None => join2(path.as_str(), ".pch"),
            };
            if input {
                output_precompiled = None;
                input_precompiled = Some(precompiled_path);
            } else {
                input_precompiled = None;
                output_precompiled = Some(precompiled_path);
            }
            marker_precompiled = if path.as_str().unicode_len() > 0 {
                Some(path)
            } else {
                None
            };
        },
        ParamValue::Many(all) => {
            let names = concat_markers(&all);
            let listed = debug_str(names.as_str());
            return Err(join2("Found too many precompiled header markers: ", listed.as_str()));
        },
    }
    let output_object = match find_param(collect_outputs(&parsed_args, OutputKind::Object)) {
        ParamValue::Absent => path_with_extension(input_source.as_str(), "obj"),
        ParamValue::Single(only) => {
            assert(output_files(views, OutputKind::Object) =~= seq![only@]);
            only
        },
        ParamValue::Many(all) => {
            let listed = debug_list(&all);
            return Err(join2("Found too many output object files: ", listed.as_str()));
        },
    };
    let language = match detect_language(collect_languages(&parsed_args), input_source.as_str()) {
        Ok(language) => language,
        Err(message) => {
            return Err(message);
        },
    };
    Ok(
        Some(
            CompilationTask {
                command,
                args: parsed_args,
                language,
                input_source,
                input_precompiled,
                output_object,
                output_precompiled,
                marker_precompiled,
            },
        ),
    )
}

/// The arguments with every source but one left out: the source that is kept
/// is the one with `index` sources before it.
pub open spec fn with_one_source(args: Seq<ArgView>, index: int) -> Seq<ArgView>
    decreases args.len(),
{
    if args.len() == 0 {
        Seq::empty()
    } else {
        let rest = with_one_source(args.drop_last(), index);
        match args.last() {
            ArgView::Input { kind: InputKind::Source, .. } => if input_files(
                args.drop_last(),
                InputKind::Source,
            ).len() == index {
                rest.push(args.last())
            } else {
                rest
            },
            _ => rest.push(args.last()),
        }
    }
}

/// The tasks for the sources from the one with `from` sources before it on,
/// of `count` sources in all; or the message for the first source that gives
/// no task.
pub open spec fn tasks_from(args: Seq<ArgView>, from: int, count: int) -> Result<
    Seq<TaskView>,
    Seq<char>,
>
    decreases count - from,
{
    if from >= count {
        Ok(Seq::empty())
    } else {
        match task_for(with_one_source(args, from)) {
            Err(message) => Err(message),
            Ok(None) => tasks_from(args, from + 1, count),
            Ok(Some(task)) => match tasks_from(args, from + 1, count) {
                Err(message) => Err(message),
                Ok(rest) => Ok(seq![task] + rest),
            },
        }
    }
}

/// The tasks that a classified command line asks for: one for each of its
/// sources, in order, each made of the arguments without the other sources.
/// A command line without a source asks for none.
pub open spec fn tasks_for(args: Seq<ArgView>) -> Result<Seq<TaskView>, Seq<char>> {
    tasks_from(args, 0, input_files(args, InputKind::Source).len() as int)
}

/// The tasks that a command line asks for: its classification, then the
/// tasks for that.
pub open spec fn tasks_of(args: Seq<Seq<char>>) -> Result<Seq<TaskView>, Seq<char>> {
    match classified(args) {
        Ok(found) => tasks_for(found),
        Err(message) => Err(message),
    }
}

/// The values of a list of tasks, in order.
pub open spec fn task_views(tasks: Seq<CompilationTask>) -> Seq<TaskView> {
    Seq::new(tasks.len(), |i: int| tasks[i]@)
}

fn copy_arg(arg: &Arg) -> (r: Arg)
    ensures
        r@ == arg@,
{
    match arg {
        Arg::Flag { scope, flag } => Arg::Flag { scope: *scope, flag: flag.clone() },
        Arg::Param { scope, flag, value } => Arg::Param {
            scope: *scope,
            flag: flag.clone(),
            value: value.clone(),
        },
        Arg::Input { kind, flag, file } => Arg::Input {
            kind: *kind,
            flag: flag.clone(),
            file: file.clone(),
        },
        Arg::Output { kind, flag, file } => Arg::Output {
            kind: *kind,
            flag: flag.clone(),
            file: file.clone(),
        },
    }
}

fn select_source(args: &Vec<Arg>, index: usize) -> (r: Vec<Arg>)
    ensures
        arg_views(r@) == with_one_source(arg_views(args@), index as int),
{
    let mut kept: Vec<Arg> = Vec::new();
    let mut seen: usize = 0;
    let ghost views = arg_views(args@);
    let mut i: usize = 0;
    assert(views.take(0) =~= Seq::<ArgView>::empty());
    assert(arg_views(kept@) =~= Seq::<ArgView>::empty());
    while i < args.len()
        invariant
            i <= args.len(),
            seen <= i,
            views == arg_views(args@),
            seen == input_files(views.take(i as int), InputKind::Source).len(),
            arg_views(kept@) == with_one_source(views.take(i as int), index as int),
        decreases args.len() - i,
    {
        let ghost before = arg_views(kept@);
        proof {
            assert(views.take(i + 1).drop_last() =~= views.take(i as int));
            assert(views.take(i + 1).last() == args@[i as int]@);
        }
        let is_source = match &args[i] {
            Arg::Input { kind: InputKind::Source, .. } => true,
            _ => false,
        };
        if !is_source || seen == index {
            kept.push(copy_arg(&args[i]));
            assert(arg_views(kept@) =~= before.push(args@[i as int]@));
        }
        if is_source {
            seen += 1;
        }
        i += 1;
    }
    assert(views.take(args.len() as int) =~= views);
    kept
}

fn copy_command(command: &CommandInfo) -> (r: CommandInfo)
    ensures
        r.program@ == command.program@,
        opt_view(r.current_dir) == opt_view(command.current_dir),
{
    CommandInfo {
        program: command.program.clone(),
        current_dir: match &command.current_dir {
            Some(dir) => Some(dir.clone()),
            None => None,
        },
    }
}

/// Builds the tasks for a command line whose response files are already
/// expanded: one for each source.
pub fn create_tasks(command: &CommandInfo, args: &Vec<String>) -> (r: Result<
    Vec<CompilationTask>,
    String,
>)
    ensures
        match r {
            Ok(tasks) => {
                &&& tasks_of(text_views(args@)) == Ok::<Seq<TaskView>, Seq<char>>(
                    task_views(tasks@),
                )
                &&& forall|i: int|
                    0 <= i < tasks@.len() ==> (#[trigger] tasks@[i]).command.program@
                        == command.program@ && opt_view(tasks@[i].command.current_dir) == opt_view(
                        command.current_dir,
                    )
            },
            Err(message) => tasks_of(text_views(args@)) == Err::<Seq<TaskView>, Seq<char>>(
                message@,
            ),
        },
{
    let parsed = match parse_arguments(args) {
        Ok(found) => found,
        Err(message) => {
            return Err(message);
        },
    };
    let sources = collect_inputs(&parsed, InputKind::Source);
    let count = sources.len();
    let ghost views = arg_views(parsed@);
    assert(count == input_files(views, InputKind::Source).len()) by {
        assert(text_views(sources@).len() == sources@.len());
    }
    let mut tasks: Vec<CompilationTask> = Vec::new();
    let mut k: usize = 0;
    assert(task_views(tasks@) =~= Seq::<TaskView>::empty());
    while k < count
        invariant
            k <= count,
            views == arg_views(parsed@),
            classified(text_views(args@)) == Ok::<Seq<ArgView>, Seq<char>>(views),
            count == input_files(views, InputKind::Source).len(),
            tasks_from(views, 0, count as int) == (match tasks_from(views, k as int, count as int) {
                Ok(rest) => Ok::<Seq<TaskView>, Seq<char>>(task_views(tasks@) + rest),
                Err(message) => Err::<Seq<TaskView>, Seq<char>>(message),
            }),
            forall|i: int|
                0 <= i < tasks@.len() ==> (#[trigger] tasks@[i]).command.program@
                    == command.program@ && opt_view(tasks@[i].command.current_dir) == opt_view(
                    command.current_dir,
                ),
        decreases count - k,
    {
        let ghost before = task_views(tasks@);
        let selected = select_source(&parsed, k);
        match build_task(copy_command(command), selected) {
            Ok(None) => {},
            Ok(Some(task)) => {
                tasks.push(task);
                proof {
                    assert(task_views(tasks@) =~= before.push(task@));
                    match tasks_from(views, k + 1, count as int) {
                        Ok(rest) => {
                            assert(before + (seq![task@] + rest) =~= before.push(task@) + rest);
                        },
                        Err(_) => {},
                    }
                }
            },
            Err(message) => {
                return Err(message);
            },
        }
        k += 1;
    }
    assert(task_views(tasks@) + Seq::<TaskView>::empty() =~= task_views(tasks@));
    Ok(tasks)
}

} // verus!
