//! What holds of texts that are taken apart.

use crate::text;
use vstd::prelude::*;

verus! {

/// The first place of a character: nothing before it is that character, and the end of the text
/// stands for none.
pub proof fn law_first_places(s: Seq<char>, c: char, from: int)
    requires
        0 <= from <= s.len(),
    ensures
        from <= text::index_from(s, c, from) <= s.len(),
        forall|i: int| from <= i < text::index_from(s, c, from) ==> #[trigger] s[i] != c,
        text::index_from(s, c, from) < s.len() ==> s[text::index_from(s, c, from)] == c,
    decreases s.len() - from,
{
    if from < s.len() && s[from] != c {
        law_first_places(s, c, from + 1);
    }
}

/// The place of a character that a text has not before it.
pub proof fn lemma_place(s: Seq<char>, c: char, from: int, at: int)
    requires
        0 <= from <= at < s.len(),
        s[at] == c,
        forall|i: int| from <= i < at ==> #[trigger] s[i] != c,
    ensures
        text::index_from(s, c, from) == at,
{
    law_first_places(s, c, from);
}

/// The end stands for a character that a text has not.
pub proof fn lemma_no_place(s: Seq<char>, c: char, from: int)
    requires
        0 <= from <= s.len(),
        forall|i: int| from <= i < s.len() ==> #[trigger] s[i] != c,
    ensures
        text::index_from(s, c, from) == s.len(),
{
    law_first_places(s, c, from);
}

/// Whether a text is white space.
pub open spec fn blank(s: Seq<char>) -> bool {
    forall|i: int| 0 <= i < s.len() ==> text::is_space(#[trigger] s[i])
}

/// Whether a text has no white space at its ends.
pub open spec fn bare(s: Seq<char>) -> bool {
    s.len() > 0 ==> !text::is_space(s[0]) && !text::is_space(s.last())
}

proof fn lemma_start(a: Seq<char>, s: Seq<char>)
    requires
        blank(a),
        s.len() > 0 ==> !text::is_space(s[0]),
    ensures
        text::trim_start(a + s) == s,
    decreases a.len(),
{
    if a.len() > 0 {
        assert((a + s)[0] == a[0]);
        assert((a + s).skip(1) =~= a.skip(1) + s);
        assert forall|i: int| 0 <= i < a.skip(1).len() implies text::is_space(
            #[trigger] a.skip(1)[i],
        ) by {
            assert(a.skip(1)[i] == a[i + 1]);
        }
        lemma_start(a.skip(1), s);
    } else {
        assert(a + s =~= s);
    }
}

proof fn lemma_end(s: Seq<char>, b: Seq<char>)
    requires
        blank(b),
        s.len() > 0 ==> !text::is_space(s.last()),
    ensures
        text::trim_end(s + b) == s,
    decreases b.len(),
{
    if b.len() > 0 {
        assert((s + b).last() == b.last());
        assert(text::is_space(b[b.len() - 1]));
        assert((s + b).drop_last() =~= s + b.drop_last());
        lemma_end(s, b.drop_last());
    } else {
        assert(s + b =~= s);
    }
}

/// Trimming takes all white space away from both ends, and nothing else.
pub proof fn law_trimming_bares_a_text(a: Seq<char>, s: Seq<char>, b: Seq<char>)
    requires
        blank(a),
        blank(b),
        bare(s),
    ensures
        text::trimmed(a + s + b) == s,
{
    if s.len() > 0 {
        assert((s + b)[0] == s[0]);
        assert(a + s + b =~= a + (s + b));
        lemma_start(a, s + b);
        lemma_end(s, b);
    } else {
        let all = a + s + b;
        assert(all + Seq::<char>::empty() =~= all);
        lemma_start(all, Seq::empty());
        assert(s =~= Seq::empty());
    }
}

/// White space is what takes up room without ink: tabs and line ends, and the blanks of every
/// width.
pub proof fn law_letters_are_no_white_space(c: char)
    ensures
        0x21 <= c as u32 <= 0x7e ==> !text::is_space(c),
        c == ' ' || c == '\t' || c == '\n' || c == '\r' ==> text::is_space(c),
{
}

/// Whether a character is a decimal digit.
pub open spec fn is_digit(c: char) -> bool {
    0x30 <= c as u32 <= 0x39
}

/// Digits have a value, and only digits have.
pub proof fn lemma_digits(s: Seq<char>)
    ensures
        (text::digits_value(s) is Some) == (forall|i: int| 0 <= i < s.len() ==> is_digit(#[trigger] s[i])),
    decreases s.len(),
{
    if s.len() > 0 {
        let t = s.drop_last();
        lemma_digits(t);
        if text::digits_value(s) is Some {
            assert(text::digits_value(t) is Some);
            assert forall|i: int| 0 <= i < s.len() implies is_digit(#[trigger] s[i]) by {
                if i < t.len() {
                    assert(is_digit(t[i]));
                    assert(t[i] == s[i]);
                } else {
                    let c = s.last() as u32;
                    assert(i == s.len() - 1);
                    assert(s[i] == s.last());
                    assert(0x30 <= c <= 0x39);
                }
            }
        } else if forall|i: int| 0 <= i < s.len() ==> is_digit(#[trigger] s[i]) {
            assert forall|i: int| 0 <= i < t.len() implies is_digit(#[trigger] t[i]) by {
                assert(t[i] == s[i]);
            }
            assert(is_digit(s[s.len() - 1]));
        }
    }
}

/// The value of a number in decimal notation.
pub proof fn lemma_decimal(n: nat)
    ensures
        text::digits_value(text::decimal(n)) == Some(n),
        text::decimal(n).len() > 0,
        forall|i: int|
            0 <= i < text::decimal(n).len() ==> is_digit(#[trigger] text::decimal(n)[i]),
    decreases n,
{
    let s = text::decimal(n);
    let d = (n % 10) as int;
    assert((0x30 + d) as char as u32 == 0x30 + d);
    if n < 10 {
        assert(s.drop_last() =~= Seq::empty());
        assert((0x30 + n) as char as u32 == 0x30 + n);
        assert(s.last() == text::digit(n as int));
        assert(text::digits_value(Seq::<char>::empty()) == Some(0nat));
    } else {
        lemma_decimal(n / 10);
        assert(s.drop_last() =~= text::decimal(n / 10));
        assert(s.last() == text::digit(d));
    }
    lemma_digits(s);
}

/// Numbers parse back: a number in decimal notation, with or without a plus sign, is read as
/// itself as long as it fits; and a text that holds anything but digits behind such a sign, or
/// nothing, is no number.
pub proof fn law_numbers_parse_back(n: nat, s: Seq<char>)
    ensures
        text::spec_parse_u32(text::decimal(n)) == if n <= u32::MAX {
            Some(n as u32)
        } else {
            None
        },
        text::spec_parse_u32(seq!['+'] + text::decimal(n)) == if n <= u32::MAX {
            Some(n as u32)
        } else {
            None
        },
        text::spec_parse_u32(s) is Some ==> s.len() > 0 && (is_digit(s[0]) || (s[0] == '+' && s.len()
            > 1)) && forall|i: int| 1 <= i < s.len() ==> is_digit(#[trigger] s[i]),
{
    let d = text::decimal(n);
    lemma_decimal(n);
    assert(is_digit(d[0]));
    assert((seq!['+'] + d).skip(1) =~= d);
    let t = if s.len() > 0 && s[0] == '+' {
        s.skip(1)
    } else {
        s
    };
    lemma_digits(t);
    if text::spec_parse_u32(s) is Some {
        assert(is_digit(t[0]));
        assert forall|i: int| 1 <= i < s.len() implies is_digit(#[trigger] s[i]) by {
            if s[0] == '+' {
                assert(t[i - 1] == s[i]);
            } else {
                assert(t[i] == s[i]);
            }
        }
    }
}

} // verus!
