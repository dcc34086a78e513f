//! What holds of the extensions of paths.

use crate::paths;
use vstd::prelude::*;

verus! {

/// Whether a text holds a character nowhere.
pub open spec fn free_of(s: Seq<char>, c: char) -> bool {
    forall|i: int| 0 <= i < s.len() ==> #[trigger] s[i] != c
}

/// Where a name starts.
proof fn lemma_start(path: Seq<char>, start: int, end: int)
    requires
        0 <= start <= end <= path.len(),
        start == 0 || path[start - 1] == '/',
        forall|i: int| start <= i < end ==> #[trigger] path[i] != '/',
    ensures
        paths::name_start(path, end) == start,
    decreases end,
{
    if end > start {
        lemma_start(path, start, end - 1);
    }
}

/// Where the last dot of a name is.
proof fn lemma_dot(name: Seq<char>, dot: int, end: int)
    requires
        -1 <= dot < end <= name.len(),
        dot >= 0 ==> name[dot] == '.',
        forall|i: int| dot < i < end ==> #[trigger] name[i] != '.',
    ensures
        paths::last_dot(name, end) == dot,
    decreases end,
{
    if end - 1 > dot {
        lemma_dot(name, dot, end - 1);
    }
}

/// Separators at the end do not belong to a name.
proof fn lemma_end(path: Seq<char>, end: int, n: int)
    requires
        0 < end <= n <= path.len(),
        forall|i: int| end <= i < n ==> #[trigger] path[i] == '/',
        path[end - 1] != '/',
        path[end - 1] == '.' ==> end >= 2 && path[end - 2] != '/',
    ensures
        paths::name_end(path, n) == end,
    decreases n,
{
    if n > end {
        assert(path[n - 1] == '/');
        lemma_end(path, end, n - 1);
    }
}

/// The name at the end of a path, behind a directory and before separators.
proof fn lemma_name(dir: Seq<char>, name: Seq<char>, rest: Seq<char>)
    requires
        dir.len() == 0 || dir.last() == '/',
        name.len() > 0,
        free_of(name, '/'),
        name != seq!['.'],
        forall|i: int| 0 <= i < rest.len() ==> #[trigger] rest[i] == '/',
    ensures
        paths::file_name(dir + name + rest) == name,
{
    let path = dir + name + rest;
    let end = dir.len() + name.len();
    assert(path[end - 1] == name[name.len() - 1]);
    if name[name.len() - 1] == '.' {
        if name.len() == 1 {
            assert(name =~= seq!['.']);
        }
        assert(path[end - 2] == name[name.len() - 2]);
    }
    assert forall|i: int| end <= i < path.len() implies #[trigger] path[i] == '/' by {
        assert(path[i] == rest[i - end]);
    }
    lemma_end(path, end as int, path.len() as int);
    assert forall|i: int| dir.len() <= i < end implies #[trigger] path[i] != '/' by {
        assert(path[i] == name[i - dir.len()]);
    }
    if dir.len() > 0 {
        assert(path[dir.len() - 1] == dir.last());
    }
    lemma_start(path, dir.len() as int, end as int);
    assert(path.subrange(dir.len() as int, end as int) =~= name);
}

/// The extension of a file is what stands behind the last dot of its name, wherever the file
/// is: directories and separators behind the name do not matter, nor does the case of letters
/// when it is compared.
pub proof fn law_extensions_follow_the_last_dot(
    dir: Seq<char>,
    stem: Seq<char>,
    ext: Seq<char>,
    rest: Seq<char>,
)
    requires
        dir.len() == 0 || dir.last() == '/',
        stem.len() > 0,
        free_of(stem, '/'),
        free_of(ext, '/'),
        free_of(ext, '.'),
        forall|i: int| 0 <= i < rest.len() ==> #[trigger] rest[i] == '/',
        stem != seq!['.'] || ext.len() > 0,
    ensures
        paths::spec_extension(dir + (stem + seq!['.'] + ext) + rest) == Some(ext),
        paths::has_extension(dir + (stem + seq!['.'] + ext) + rest, paths::lowered(ext)),
{
    let name = stem + seq!['.'] + ext;
    assert(name[stem.len() as int] == '.');
    assert forall|i: int| 0 <= i < name.len() implies #[trigger] name[i] != '/' by {
        if i < stem.len() {
            assert(name[i] == stem[i]);
        } else if i > stem.len() {
            assert(name[i] == ext[i - stem.len() - 1]);
        }
    }
    assert(name.len() >= 2);
    lemma_name(dir, name, rest);
    assert forall|i: int| stem.len() < i < name.len() implies #[trigger] name[i] != '.' by {
        assert(name[i] == ext[i - stem.len() - 1]);
    }
    lemma_dot(name, stem.len() as int, name.len() as int);
    assert(name.skip((stem.len() + 1) as int) =~= ext);
    if name == seq!['.', '.'] {
        assert(stem.len() == 1 && ext.len() == 0);
        assert(stem[0] == name[0]);
        assert(stem =~= seq!['.']);
    }
}

/// A name without a dot, or with none but its first character, has no extension.
pub proof fn law_names_without_a_dot_have_no_extension(
    dir: Seq<char>,
    name: Seq<char>,
    rest: Seq<char>,
)
    requires
        dir.len() == 0 || dir.last() == '/',
        name.len() > 0,
        free_of(name, '/'),
        name != seq!['.'],
        free_of(name.skip(1), '.') || name == seq!['.', '.'],
        forall|i: int| 0 <= i < rest.len() ==> #[trigger] rest[i] == '/',
    ensures
        paths::spec_extension(dir + name + rest) is None,
{
    lemma_name(dir, name, rest);
    if free_of(name.skip(1), '.') {
        assert forall|i: int| 0 < i < name.len() implies #[trigger] name[i] != '.' by {
            assert(name.skip(1)[i - 1] == name[i]);
        }
        if name[0] == '.' {
            lemma_dot(name, 0, name.len() as int);
        } else {
            lemma_dot(name, -1, name.len() as int);
        }
    }
}

/// Lower case touches nothing but the letters from A to Z.
pub proof fn law_lower_case_of_letters(c: char)
    ensures
        'A' <= c && c <= 'Z' ==> paths::lower(c) as int == c as int + ('a' as int - 'A' as int),
        !('A' <= c && c <= 'Z') ==> paths::lower(c) == c,
{
    if 'A' <= c && c <= 'Z' {
        assert((c as u32 + 32) as char as u32 == c as u32 + 32);
        assert('a' as int == 0x61 && 'A' as int == 0x41);
    }
}

} // verus!
