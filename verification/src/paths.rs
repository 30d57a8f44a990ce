//! Paths as texts: components, extensions, canonical form.

use vstd::prelude::*;
use vstd::string::StrSliceExecFns;
use vstd::string::StringExecFns;
use crate::compiler::text_views;
use crate::text::{join2, skip_chars, take_chars, text_eq};

verus! {

/// The characters that part one component of a path from the next.
pub open spec fn is_separator(c: char) -> bool {
    c == '/' || c == '\\'
}

/// Where the last component of `path` begins: one past its last separator, 0 without one.
pub open spec fn name_start(path: Seq<char>) -> int
    decreases path.len(),
{
    if path.len() == 0 {
        0
    } else if is_separator(path.last()) {
        path.len() as int
    } else {
        name_start(path.drop_last())
    }
}

/// The last component of `path`; empty where the path ends in a separator.
pub open spec fn last_component(path: Seq<char>) -> Seq<char> {
    path.subrange(name_start(path), path.len() as int)
}

/// The last component names a file: it is neither empty nor `.` nor `..`.
pub open spec fn has_file_name(path: Seq<char>) -> bool {
    let name = last_component(path);
    name.len() > 0 && name != seq!['.'] && name != seq!['.', '.']
}

/// The index of the last dot of `name`, or -1 without one.
pub open spec fn last_dot(name: Seq<char>) -> int
    decreases name.len(),
{
    if name.len() == 0 {
        -1
    } else if name.last() == '.' {
        name.len() - 1
    } else {
        last_dot(name.drop_last())
    }
}

/// Where the stem of `path` ends: at the last dot of its file name, unless that
/// dot opens the name or the path has no file name; then at the end of `path`.
pub open spec fn stem_end(path: Seq<char>) -> int {
    let dot = last_dot(last_component(path));
    if has_file_name(path) && dot > 0 {
        name_start(path) + dot
    } else {
        path.len() as int
    }
}

/// The extension of `path`: what follows the last dot of its file name.
pub open spec fn extension(path: Seq<char>) -> Option<Seq<char>> {
    if stem_end(path) < path.len() {
        Some(path.subrange(stem_end(path) + 1, path.len() as int))
    } else {
        None
    }
}

/// `path` with the extension of its file name replaced by `ext`; a path without
/// a file name is left as it is.
pub open spec fn with_extension(path: Seq<char>, ext: Seq<char>) -> Seq<char> {
    if !has_file_name(path) {
        path
    } else if ext.len() == 0 {
        path.subrange(0, stem_end(path))
    } else {
        path.subrange(0, stem_end(path)) + seq!['.'] + ext
    }
}

pub proof fn lemma_name_start_bounds(path: Seq<char>)
    ensures
        0 <= name_start(path) <= path.len(),
        forall|i: int| name_start(path) <= i < path.len() ==> !is_separator(path[i]),
        name_start(path) > 0 ==> is_separator(path[name_start(path) - 1]),
    decreases path.len(),
{
    if path.len() > 0 && !is_separator(path.last()) {
        let rest = path.drop_last();
        lemma_name_start_bounds(rest);
        assert forall|i: int| name_start(path) <= i < path.len() implies !is_separator(
            path[i],
        ) by {
            if i < rest.len() {
                assert(rest[i] == path[i]);
            }
        }
        if name_start(path) > 0 {
            assert(rest[name_start(path) - 1] == path[name_start(path) - 1]);
        }
    }
}

pub proof fn lemma_last_dot_bounds(name: Seq<char>)
    ensures
        -1 <= last_dot(name) < name.len(),
        last_dot(name) >= 0 ==> name[last_dot(name)] == '.',
        forall|i: int| last_dot(name) < i < name.len() ==> name[i] != '.',
    decreases name.len(),
{
    if name.len() > 0 && name.last() != '.' {
        let rest = name.drop_last();
        lemma_last_dot_bounds(rest);
        assert forall|i: int| last_dot(name) < i < name.len() implies name[i] != '.' by {
            if i < rest.len() {
                assert(rest[i] == name[i]);
            }
        }
        if last_dot(name) >= 0 {
            assert(rest[last_dot(name)] == name[last_dot(name)]);
        }
    }
}

pub fn is_separator_char(c: char) -> (r: bool)
    ensures
        r == is_separator(c),
{
    c == '/' || c == '\\'
}

/// Finds where the last component of `path` begins.
pub fn file_name_start(path: &str) -> (r: usize)
    ensures
        r == name_start(path@),
        r <= path@.len(),
{
    let n = path.unicode_len();
    let mut i: usize = n;
    proof {
        assert(path@.take(n as int) =~= path@);
        lemma_name_start_bounds(path@);
    }
    while i > 0
        invariant
            i <= n,
            n == path@.len(),
            name_start(path@) == name_start(path@.take(i as int)),
        decreases i,
    {
        if is_separator_char(path.get_char(i - 1)) {
            return i;
        }
        proof {
            assert(path@.take(i as int).drop_last() =~= path@.take(i - 1));
        }
        i -= 1;
    }
    0
}

/// Finds where the stem of `path` ends.
pub fn file_stem_end(path: &str) -> (r: usize)
    ensures
        r == stem_end(path@),
        r <= path@.len(),
{
    let n = path.unicode_len();
    let start = file_name_start(path);
    let name = path.substring_char(start, n);
    let named = n > start && !text_eq(name, ".") && !text_eq(name, "..");
    proof {
        reveal_strlit(".");
        reveal_strlit("..");
        assert("."@ =~= seq!['.']);
        assert(".."@ =~= seq!['.', '.']);
        assert(name@ == last_component(path@));
        assert(named == has_file_name(path@));
        lemma_last_dot_bounds(name@);
    }
    if !named {
        return n;
    }
    let m = n - start;
    let mut i: usize = m;
    proof {
        assert(name@.take(m as int) =~= name@);
    }
    while i > 1
        invariant
            i <= m,
            m == name@.len(),
            m == n - start,
            n == path@.len(),
            start == name_start(path@),
            name@ == last_component(path@),
            has_file_name(path@),
            last_dot(name@) == last_dot(name@.take(i as int)),
        decreases i,
    {
        if name.get_char(i - 1) == '.' {
            return start + (i - 1);
        }
        proof {
            assert(name@.take(i as int).drop_last() =~= name@.take(i - 1));
        }
        i -= 1;
    }
    proof {
        if i == 1 {
            assert(name@.take(1).drop_last() =~= name@.take(0));
            assert(last_dot(name@.take(0)) == -1);
            assert(last_dot(name@.take(1)) <= 0);
        } else {
            assert(last_dot(name@.take(0)) == -1);
        }
    }
    n
}

/// The extension of `path`, if its file name has one.
pub fn path_extension(path: &str) -> (r: Option<String>)
    ensures
        crate::compiler::opt_view(r) == extension(path@),
{
    let n = path.unicode_len();
    let end = file_stem_end(path);
    if end < n {
        Some(skip_chars(path, end + 1))
    } else {
        None
    }
}

/// `path` with the extension of its file name replaced by `ext`.
pub fn path_with_extension(path: &str, ext: &str) -> (r: String)
    ensures
        r@ == with_extension(path@, ext@),
{
    let n = path.unicode_len();
    let start = file_name_start(path);
    let name = path.substring_char(start, n);
    let named = n > start && !text_eq(name, ".") && !text_eq(name, "..");
    proof {
        reveal_strlit(".");
        reveal_strlit("..");
        assert("."@ =~= seq!['.']);
        assert(".."@ =~= seq!['.', '.']);
        assert(name@ == last_component(path@));
    }
    if !named {
        return take_chars(path, n);
    }
    let end = file_stem_end(path);
    let stem = take_chars(path, end);
    if ext.unicode_len() == 0 {
        stem
    } else {
        let dotted = join2(stem.as_str(), ".");
        join2(dotted.as_str(), ext)
    }
}


/// Where the component that begins at `pos` ends: at the next separator, or at
/// the end of `path`.
pub open spec fn component_end(path: Seq<char>, pos: int) -> int
    decreases path.len() - pos,
{
    if 0 <= pos < path.len() && !is_separator(path[pos]) {
        component_end(path, pos + 1)
    } else {
        pos
    }
}

/// The components of `path` from `pos` on: the stretches between separators
/// that are not empty.
pub open spec fn components_from(path: Seq<char>, pos: int) -> Seq<Seq<char>>
    decreases path.len() - pos,
{
    if 0 <= pos < path.len() {
        if is_separator(path[pos]) {
            components_from(path, pos + 1)
        } else {
            let end = component_end(path, pos);
            if pos < end <= path.len() {
                seq![path.subrange(pos, end)] + components_from(path, end)
            } else {
                Seq::empty()
            }
        }
    } else {
        Seq::empty()
    }
}

/// The components of `path`.
pub open spec fn components(path: Seq<char>) -> Seq<Seq<char>> {
    components_from(path, 0)
}

/// The components that are left of `parts` once each `.` is dropped and each
/// `..` has taken away the component before it, `kept` being what was left so
/// far; `None` where a `..` finds nothing to take away.
pub open spec fn resolved(parts: Seq<Seq<char>>, kept: Seq<Seq<char>>) -> Option<Seq<Seq<char>>>
    decreases parts.len(),
{
    if parts.len() == 0 {
        Some(kept)
    } else if parts[0] == seq!['.'] {
        resolved(parts.skip(1), kept)
    } else if parts[0] == seq!['.', '.'] {
        if kept.len() == 0 {
            None
        } else {
            resolved(parts.skip(1), kept.drop_last())
        }
    } else {
        resolved(parts.skip(1), kept.push(parts[0]))
    }
}

/// The components with a slash between each two.
pub open spec fn joined(parts: Seq<Seq<char>>) -> Seq<char>
    decreases parts.len(),
{
    if parts.len() == 0 {
        Seq::empty()
    } else if parts.len() == 1 {
        parts[0]
    } else {
        joined(parts.drop_last()) + seq!['/'] + parts.last()
    }
}

/// The path opens with a separator.
pub open spec fn is_rooted(path: Seq<char>) -> bool {
    path.len() > 0 && is_separator(path[0])
}

/// The canonical form of `path`: no `.`, no `..`, no separator twice and none
/// at the end, a slash as separator; `None` where a `..` leads above the start
/// of the path.
pub open spec fn normalized(path: Seq<char>) -> Option<Seq<char>> {
    match resolved(components(path), Seq::empty()) {
        None => None,
        Some(parts) => Some(
            if is_rooted(path) {
                seq!['/'] + joined(parts)
            } else {
                joined(parts)
            },
        ),
    }
}

/// The path names a place by itself: it opens with a separator, or with a
/// drive letter, a colon and a separator.
pub open spec fn is_absolute(path: Seq<char>) -> bool {
    is_rooted(path) || (path.len() >= 3 && path[1] == ':' && is_separator(path[2]))
}

/// The directory that holds the last component of `path`: what stands before
/// that component, without the separator between them unless it is the root;
/// `None` for a path that is empty or ends in a separator.
pub open spec fn parent(path: Seq<char>) -> Option<Seq<char>> {
    let start = name_start(path);
    if path.len() == 0 || start == path.len() {
        None
    } else if start <= 1 {
        Some(path.subrange(0, start))
    } else {
        Some(path.subrange(0, start - 1))
    }
}

/// The path `name` as seen from the directory `dir`: `name` itself where it
/// is absolute or `dir` is empty, else `dir`, a slash unless `dir` ends in a
/// separator, and `name`.
pub open spec fn joined_path(dir: Seq<char>, name: Seq<char>) -> Seq<char> {
    if is_absolute(name) || dir.len() == 0 {
        name
    } else if is_separator(dir.last()) {
        dir + name
    } else {
        dir + seq!['/'] + name
    }
}

pub proof fn lemma_component_end(path: Seq<char>, pos: int)
    requires
        0 <= pos <= path.len(),
    ensures
        pos <= component_end(path, pos) <= path.len(),
    decreases path.len() - pos,
{
    if pos < path.len() && !is_separator(path[pos]) {
        lemma_component_end(path, pos + 1);
    }
}

/// Splits a path into its components.
pub fn path_components(path: &str) -> (r: Vec<String>)
    ensures
        text_views(r@) == components(path@),
{
    let n = path.unicode_len();
    let mut parts: Vec<String> = Vec::new();
    let mut i: usize = 0;
    assert(text_views(parts@) =~= Seq::<Seq<char>>::empty());
    while i < n
        invariant
            i <= n,
            n == path@.len(),
            components(path@) == text_views(parts@) + components_from(path@, i as int),
        decreases n - i,
    {
        if is_separator_char(path.get_char(i)) {
            i += 1;
        } else {
            let mut end = i + 1;
            while end < n && !is_separator_char(path.get_char(end))
                invariant
                    i < end <= n,
                    n == path@.len(),
                    component_end(path@, i as int) == component_end(path@, end as int),
                    !is_separator(path@[i as int]),
                decreases n - end,
            {
                end += 1;
            }
            let ghost before = text_views(parts@);
            parts.push(String::from_str(path.substring_char(i, end)));
            assert(text_views(parts@) =~= before + seq![path@.subrange(i as int, end as int)]);
            assert(components(path@) =~= text_views(parts@) + components_from(path@, end as int));
            i = end;
        }
    }
    assert(components(path@) =~= text_views(parts@));
    parts
}

/// Joins components with a slash between each two.
pub fn join_components(parts: &Vec<String>) -> (r: String)
    ensures
        r@ == joined(text_views(parts@)),
{
    let mut result = String::new();
    let ghost views = text_views(parts@);
    let mut i: usize = 0;
    proof {
        reveal_strlit("/");
        assert(views.take(0) =~= Seq::<Seq<char>>::empty());
    }
    while i < parts.len()
        invariant
            i <= parts.len(),
            views == text_views(parts@),
            result@ == joined(views.take(i as int)),
            "/"@ == seq!['/'],
        decreases parts.len() - i,
    {
        proof {
            assert(views.take(i + 1).drop_last() =~= views.take(i as int));
            assert(views.take(i + 1).last() == parts@[i as int]@);
        }
        if i > 0 {
            result.append("/");
        }
        result.append(parts[i].as_str());
        proof {
            if i == 0 {
                assert(result@ =~= parts@[0]@);
            }
        }
        i += 1;
    }
    assert(views.take(parts.len() as int) =~= views);
    result
}

/// Brings a path into its canonical form; `None` where a `..` leads above the
/// start of the path.
pub fn normalize_path(path: &str) -> (r: Option<String>)
    ensures
        crate::compiler::opt_view(r) == normalized(path@),
{
    let parts = path_components(path);
    let mut kept: Vec<String> = Vec::new();
    let ghost all = text_views(parts@);
    let mut i: usize = 0;
    proof {
        reveal_strlit(".");
        reveal_strlit("..");
        assert("."@ =~= seq!['.']);
        assert(".."@ =~= seq!['.', '.']);
        assert(all.skip(0) =~= all);
        assert(text_views(kept@) =~= Seq::<Seq<char>>::empty());
    }
    while i < parts.len()
        invariant
            i <= parts.len(),
            all == text_views(parts@),
            all == components(path@),
            resolved(all, Seq::empty()) == resolved(all.skip(i as int), text_views(kept@)),
            "."@ == seq!['.'],
            ".."@ == seq!['.', '.'],
        decreases parts.len() - i,
    {
        let ghost before = text_views(kept@);
        proof {
            assert(all.skip(i as int).skip(1) =~= all.skip(i + 1));
            assert(all.skip(i as int)[0] == parts@[i as int]@);
        }
        let part = parts[i].as_str();
        if text_eq(part, ".") {
        } else if text_eq(part, "..") {
            if kept.len() == 0 {
                return None;
            }
            kept.pop();
            assert(text_views(kept@) =~= before.drop_last());
        } else {
            kept.push(String::from_str(part));
            assert(text_views(kept@) =~= before.push(part@));
        }
        i += 1;
    }
    assert(all.skip(parts.len() as int) =~= Seq::<Seq<char>>::empty());
    let body = join_components(&kept);
    let rooted = path.unicode_len() > 0 && is_separator_char(path.get_char(0));
    proof {
        reveal_strlit("/");
    }
    if rooted {
        Some(join2("/", body.as_str()))
    } else {
        Some(body)
    }
}

/// Tells whether a path names a place by itself.
pub fn path_is_absolute(path: &str) -> (r: bool)
    ensures
        r == is_absolute(path@),
{
    let n = path.unicode_len();
    if n > 0 && is_separator_char(path.get_char(0)) {
        return true;
    }
    n >= 3 && path.get_char(1) == ':' && is_separator_char(path.get_char(2))
}

/// The directory that holds the last component of a path.
pub fn path_parent(path: &str) -> (r: Option<String>)
    ensures
        crate::compiler::opt_view(r) == parent(path@),
{
    let n = path.unicode_len();
    let start = file_name_start(path);
    if n == 0 || start == n {
        None
    } else if start <= 1 {
        Some(take_chars(path, start))
    } else {
        Some(take_chars(path, start - 1))
    }
}

/// The path `name` as seen from the directory `dir`.
pub fn path_join(dir: &str, name: &str) -> (r: String)
    ensures
        r@ == joined_path(dir@, name@),
{
    let n = dir.unicode_len();
    proof {
        reveal_strlit("/");
    }
    if path_is_absolute(name) || n == 0 {
        String::from_str(name)
    } else if is_separator_char(dir.get_char(n - 1)) {
        join2(dir, name)
    } else {
        let with_slash = join2(dir, "/");
        join2(with_slash.as_str(), name)
    }
}

} // verus!
