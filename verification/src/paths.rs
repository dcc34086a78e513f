//! File names and extensions.

use crate::text;
use vstd::prelude::*;

pub mod laws;

verus! {

/// The index after the last character of the file name: trailing separators and
/// trailing components that stand for the directory itself do not belong to it.
pub open spec fn name_end(path: Seq<char>, end: int) -> int
    decreases end,
{
    if end <= 0 {
        0
    } else if path[end - 1] == '/' {
        name_end(path, end - 1)
    } else if path[end - 1] == '.' && (end == 1 || path[end - 2] == '/') {
        name_end(path, end - 1)
    } else {
        end
    }
}

/// The index of the first character of the component that ends at `end`.
pub open spec fn name_start(path: Seq<char>, end: int) -> int
    decreases end,
{
    if end <= 0 || path[end - 1] == '/' {
        end
    } else {
        name_start(path, end - 1)
    }
}

/// The last component of a path, empty where there is none.
pub open spec fn file_name(path: Seq<char>) -> Seq<char> {
    let end = name_end(path, path.len() as int);
    path.subrange(name_start(path, end), end)
}

/// The index of the last dot before `end`, or -1.
pub open spec fn last_dot(name: Seq<char>, end: int) -> int
    decreases end,
{
    if end <= 0 {
        -1
    } else if name[end - 1] == '.' {
        end - 1
    } else {
        last_dot(name, end - 1)
    }
}

/// The extension of the file name of a path: what follows its last dot, where
/// something comes before that dot and the name does not stand for the parent
/// directory.
pub open spec fn spec_extension(path: Seq<char>) -> Option<Seq<char>> {
    let name = file_name(path);
    let dot = last_dot(name, name.len() as int);
    if name == seq!['.', '.'] || dot <= 0 {
        None
    } else {
        Some(name.skip(dot + 1))
    }
}

/// A character, or its lower case where it is an ASCII letter.
pub open spec fn lower(c: char) -> char {
    if 'A' <= c && c <= 'Z' {
        (c as u32 + 32) as char
    } else {
        c
    }
}

/// A sequence with its ASCII letters in lower case.
pub open spec fn lowered(s: Seq<char>) -> Seq<char> {
    s.map_values(|c: char| lower(c))
}

/// A character, or its lower case where it is an ASCII letter.
fn to_lower(c: char) -> (r: char)
    ensures
        r == lower(c),
{
    if 'A' <= c && c <= 'Z' {
        let code = c as u32 as u8 + 32;
        code as char
    } else {
        c
    }
}

/// The extension of the file name of a path, with its ASCII letters in lower
/// case.
pub fn extension(path: &str) -> (r: Option<Vec<char>>)
    ensures
        match (r, spec_extension(path@)) {
            (Some(v), Some(s)) => v@ == lowered(s),
            (None, None) => true,
            _ => false,
        },
{
    let chars = text::chars_of(path);
    let mut end = chars.len();
    while end > 0 && (chars[end - 1] == '/' || (chars[end - 1] == '.' && (end == 1 || chars[end - 2]
        == '/')))
        invariant
            chars@ == path@,
            end <= chars@.len(),
            name_end(chars@, chars@.len() as int) == name_end(chars@, end as int),
        decreases end,
    {
        end = end - 1;
    }
    let mut start = end;
    while start > 0 && chars[start - 1] != '/'
        invariant
            chars@ == path@,
            start <= end <= chars@.len(),
            name_start(chars@, end as int) == name_start(chars@, start as int),
        decreases start,
    {
        start = start - 1;
    }
    let ghost name = file_name(path@);
    assert(name =~= chars@.subrange(start as int, end as int));
    let mut dot = end;
    while dot > start && chars[dot - 1] != '.'
        invariant
            chars@ == path@,
            start <= dot <= end <= chars@.len(),
            name == chars@.subrange(start as int, end as int),
            last_dot(name, name.len() as int) == last_dot(name, dot - start),
        decreases dot,
    {
        assert(name[dot - start - 1] == chars@[dot - 1]);
        dot = dot - 1;
    }
    if dot > start {
        assert(name[dot - start - 1] == chars@[dot - 1]);
    }
    // Now the last dot, if there is one, stands just before index `dot`.
    if dot <= start + 1 {
        return None;
    }
    if end - start == 2 && chars[start] == '.' && chars[start + 1] == '.' {
        assert(name =~= seq!['.', '.']);
        return None;
    }
    proof {
        if name == seq!['.', '.'] {
            assert(name[0] == '.' && name[1] == '.');
            assert(chars@[start as int] == name[0]);
            assert(chars@[start + 1] == name[1]);
        }
    }
    let mut out: Vec<char> = Vec::new();
    let mut i = dot;
    let ghost ext = name.skip(dot - start);
    while i < end
        invariant
            chars@ == path@,
            start <= dot <= i <= end <= chars@.len(),
            name == chars@.subrange(start as int, end as int),
            ext == name.skip(dot - start),
            out@ =~= lowered(ext).take(i - dot),
        decreases end - i,
    {
        out.push(to_lower(chars[i]));
        i = i + 1;
    }
    assert(out@ =~= lowered(ext));
    Some(out)
}

/// Whether the extension of a path, in any case, is the given one.
pub open spec fn has_extension(path: Seq<char>, wanted: Seq<char>) -> bool {
    spec_extension(path) matches Some(ext) && lowered(ext) == wanted
}

/// Whether an extension is the given one.
pub fn is_extension(ext: &Option<Vec<char>>, wanted: &str) -> (r: bool)
    ensures
        r == (ext matches Some(v) && v@ == wanted@),
{
    match ext {
        None => false,
        Some(v) => text::same_chars(v, &text::chars_of(wanted)),
    }
}

} // verus!
