//! JSON text.

use crate::text;
use vstd::prelude::*;

pub mod reading;

verus! {

/// A character as it stands inside a JSON string.
pub open spec fn escaped(c: char) -> Seq<char> {
    if c == '"' {
        seq!['\\', '"']
    } else if c == '\\' {
        seq!['\\', '\\']
    } else if c as u32 == 0x08 {
        seq!['\\', 'b']
    } else if c as u32 == 0x09 {
        seq!['\\', 't']
    } else if c as u32 == 0x0a {
        seq!['\\', 'n']
    } else if c as u32 == 0x0c {
        seq!['\\', 'f']
    } else if c as u32 == 0x0d {
        seq!['\\', 'r']
    } else if (c as u32) < 0x20 {
        seq!['\\', 'u', '0', '0'] + text::hex_byte(c as u8)
    } else {
        seq![c]
    }
}

/// The characters of a JSON string between its quotes.
pub open spec fn escaped_all(s: Seq<char>) -> Seq<char>
    decreases s.len(),
{
    if s.len() == 0 {
        Seq::empty()
    } else {
        escaped_all(s.drop_last()) + escaped(s.last())
    }
}

/// A string as JSON.
pub open spec fn json_string(s: Seq<char>) -> Seq<char> {
    seq!['"'] + escaped_all(s) + seq!['"']
}

/// Whether a text has no line break.
pub open spec fn one_line(s: Seq<char>) -> bool {
    forall|i: int| 0 <= i < s.len() ==> s[i] != '\n'
}

/// A text made of parts without line breaks has none.
pub proof fn lemma_joined(a: Seq<char>, b: Seq<char>)
    requires
        one_line(a),
        one_line(b),
    ensures
        one_line(a + b),
{
    assert forall|i: int| 0 <= i < (a + b).len() implies (a + b)[i] != '\n' by {
        if i < a.len() {
            assert((a + b)[i] == a[i]);
        } else {
            assert((a + b)[i] == b[i - a.len()]);
        }
    }
}

/// The characters of a JSON string have no line break.
proof fn lemma_escaped(s: Seq<char>)
    ensures
        one_line(escaped_all(s)),
    decreases s.len(),
{
    if s.len() > 0 {
        lemma_escaped(s.drop_last());
        let c = s.last();
        assert(one_line(escaped(c))) by {
            if (c as u32) < 0x20 {
                lemma_joined(seq!['\\', 'u', '0', '0'], text::hex_byte(c as u8));
            }
        }
        lemma_joined(escaped_all(s.drop_last()), escaped(c));
    }
}

/// A JSON string has no line break, whatever it stands for.
pub proof fn law_strings_are_one_line(s: Seq<char>)
    ensures
        one_line(json_string(s)),
{
    lemma_escaped(s);
    lemma_joined(seq!['"'], escaped_all(s));
    lemma_joined(seq!['"'] + escaped_all(s), seq!['"']);
}

/// `serde_json::to_string` of a string.
///
/// Trusted: the string comes out between quotes, with quotes, backslashes and
/// control characters escaped and everything else as it is. Writing a string to
/// memory does not fail.
#[verifier::external_body]
pub(crate) fn quote(s: &str) -> (r: String)
    ensures
        r@ == json_string(s@),
{
    serde_json::to_string(s).unwrap_or_default()
}

} // verus!
