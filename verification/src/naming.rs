//! Files named after one another: the same name, with another extension.
use crate::chars::{chars_of, put_chars, put_text, string_of};
use vstd::prelude::*;
use vstd::slice::slice_subrange;

verus! {

/// Whether a character stands between the names in a path. A backslash is
/// part of a name.
pub open spec fn separator(c: char) -> bool {
    c == '/'
}

/// Where the last name in the first `n` characters of a path ends. What stays
/// where it is, behind a separator, is no name.
pub open spec fn name_end(path: Seq<char>, n: int) -> int
    decreases n,
{
    if 0 < n <= path.len() && separator(path[n - 1]) {
        name_end(path, n - 1)
    } else if 1 < n <= path.len() && path[n - 1] == '.' && separator(path[n - 2]) {
        name_end(path, n - 1)
    } else {
        n
    }
}

/// Where the name that ends at `n` starts.
pub open spec fn name_start(path: Seq<char>, n: int) -> int
    decreases n,
{
    if 0 < n <= path.len() && !separator(path[n - 1]) {
        name_start(path, n - 1)
    } else {
        n
    }
}

/// Where the last dot between two places in a path stands; `to` where there is
/// none.
pub open spec fn last_dot(path: Seq<char>, from: int, to: int, n: int) -> int
    decreases n - from,
{
    if n <= from || n > path.len() {
        to
    } else if path[n - 1] == '.' {
        n - 1
    } else {
        last_dot(path, from, to, n - 1)
    }
}

/// Where the name of the file a path names ends, less its extension: the last
/// dot of the name and what is behind it, unless that is the whole name.
/// `None` where the path names no file: it is empty, stays where it is, or goes
/// up.
pub open spec fn stem_end(path: Seq<char>) -> Option<int> {
    let end = name_end(path, path.len() as int);
    let start = name_start(path, end);
    let dot = last_dot(path, start, end, end);
    if end == 0 || (end - start == 1 && path[start] == '.') || (end - start == 2 && path[start]
        == '.' && path[start + 1] == '.') {
        None
    } else if dot == start {
        Some(end)
    } else {
        Some(dot)
    }
}

/// A path with the extension of its file replaced, or dropped where the new one
/// is empty. One that names no file stays as it is.
pub open spec fn with_extension(path: Seq<char>, extension: Seq<char>) -> Seq<char> {
    match stem_end(path) {
        Some(end) => if extension.len() == 0 {
            path.take(end)
        } else {
            path.take(end) + seq!['.'] + extension
        },
        None => path,
    }
}

fn find_stem(path: &[char]) -> (r: Option<usize>)
    ensures
        match r {
            Some(end) => stem_end(path@) == Some(end as int) && end <= path@.len(),
            None => stem_end(path@) is None,
        },
{
    let mut end: usize = path.len();
    while end > 0 && (path[end - 1] == '/' || (end > 1 && path[end - 1] == '.' && path[end - 2]
        == '/'))
        invariant
            end <= path@.len(),
            name_end(path@, path@.len() as int) == name_end(path@, end as int),
        decreases end,
    {
        end -= 1;
    }
    let mut start: usize = end;
    while start > 0 && path[start - 1] != '/'
        invariant
            start <= end <= path@.len(),
            name_start(path@, end as int) == name_start(path@, start as int),
        decreases start,
    {
        start -= 1;
    }
    if end == 0 || (end - start == 1 && path[start] == '.') || (end - start == 2 && path[start]
        == '.' && path[start + 1] == '.') {
        return None;
    }
    let mut dot: usize = end;
    while dot > start && path[dot - 1] != '.'
        invariant
            start <= dot <= end <= path@.len(),
            last_dot(path@, start as int, end as int, end as int) == last_dot(
                path@,
                start as int,
                end as int,
                dot as int,
            ),
        decreases dot,
    {
        dot -= 1;
    }
    if dot == start || dot - 1 == start {
        Some(end)
    } else {
        Some(dot - 1)
    }
}

/// A path with the extension of its file replaced. The name itself may have
/// dots in it: only the last one and what is behind it go.
pub fn retitled(path: &str, extension: &str) -> (r: String)
    ensures
        r@ == with_extension(path@, extension@),
{
    let chars: Vec<char> = chars_of(path);
    match find_stem(chars.as_slice()) {
        Some(end) => {
            let mut out: Vec<char> = Vec::new();
            put_chars(&mut out, slice_subrange(chars.as_slice(), 0, end));
            assert(out@ =~= path@.take(end as int));
            if chars_of(extension).len() > 0 {
                out.push('.');
                put_text(&mut out, extension);
                assert(out@ =~= path@.take(end as int) + seq!['.'] + extension@);
            }
            string_of(out.as_slice())
        },
        None => string_of(chars.as_slice()),
    }
}

/// Only the last extension of a file's name is replaced: the directory and
/// whatever else of the name has a dot in it stay.
pub proof fn law_only_the_last_extension_is_replaced(
    stem: Seq<char>,
    old_extension: Seq<char>,
    extension: Seq<char>,
)
    requires
        stem.len() > 0,
        !separator(stem.last()),
        old_extension.len() > 0,
        extension.len() > 0,
        forall|i: int|
            0 <= i < old_extension.len() ==> !separator(#[trigger] old_extension[i])
                && old_extension[i] != '.',
    ensures
        with_extension(stem + seq!['.'] + old_extension, extension) == stem + seq!['.'] + extension,
{
    let path = stem + seq!['.'] + old_extension;
    let n = path.len() as int;
    let dot = stem.len() as int;
    assert(path[n - 1] == old_extension.last());
    assert(name_end(path, n) == n);
    lemma_name_reaches(path, dot, n);
    lemma_start_is_before(path, dot - 1);
    assert(path[dot - 1] == stem.last());
    assert forall|k: int| dot < k < n implies #[trigger] path[k] != '.' by {
        assert(path[k] == old_extension[k - dot - 1]);
    }
    lemma_dot_is_last(path, name_start(path, n), dot, n);
    assert(path.take(dot) =~= stem);
    assert(path[n - 1] != '.');
}

/// A name starts no later than where it has no separator behind.
proof fn lemma_name_reaches(path: Seq<char>, from: int, n: int)
    requires
        0 < from <= n <= path.len(),
        !separator(path[from - 1]),
        forall|k: int| from <= k < n ==> !separator(#[trigger] path[k]),
    ensures
        name_start(path, n) == name_start(path, from - 1),
    decreases n,
{
    if n > from {
        assert(!separator(path[n - 1]));
        lemma_name_reaches(path, from, n - 1);
    }
}

/// A name starts no later than it ends.
proof fn lemma_start_is_before(path: Seq<char>, n: int)
    requires
        0 <= n <= path.len(),
    ensures
        0 <= name_start(path, n) <= n,
    decreases n,
{
    if n > 0 && !separator(path[n - 1]) {
        lemma_start_is_before(path, n - 1);
    }
}

/// A dot with none behind it is the last.
proof fn lemma_dot_is_last(path: Seq<char>, from: int, dot: int, n: int)
    requires
        0 <= from <= dot < n <= path.len(),
        path[dot] == '.',
        forall|k: int| dot < k < n ==> #[trigger] path[k] != '.',
    ensures
        forall|to: int| #[trigger] last_dot(path, from, to, n) == dot,
    decreases n - from,
{
    if n - 1 > dot {
        assert(path[n - 1] != '.');
        lemma_dot_is_last(path, from, dot, n - 1);
        assert forall|to: int| #[trigger] last_dot(path, from, to, n) == dot by {
            assert(last_dot(path, from, to, n - 1) == dot);
        }
    }
}

} // verus!
