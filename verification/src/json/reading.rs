//! How JSON text is read.

use crate::json;
use crate::text;
use vstd::arithmetic::div_mod::*;
use vstd::prelude::*;

verus! {

/// The value of a hexadecimal digit.
pub open spec fn hex_value(c: char) -> Option<int> {
    if '0' <= c && c <= '9' {
        Some(c as int - '0' as int)
    } else if 'a' <= c && c <= 'f' {
        Some(c as int - 'a' as int + 10)
    } else {
        None
    }
}

/// The value of two hexadecimal digits.
pub open spec fn hex_pair(a: char, b: char) -> Option<int> {
    match (hex_value(a), hex_value(b)) {
        (Some(x), Some(y)) => Some(16 * x + y),
        _ => None,
    }
}

/// What a character stands for behind a backslash.
pub open spec fn meant(c: char) -> Option<char> {
    if c == '"' || c == '\\' || c == '/' {
        Some(c)
    } else if c == 'b' {
        Some('\x08')
    } else if c == 't' {
        Some('\t')
    } else if c == 'n' {
        Some('\n')
    } else if c == 'f' {
        Some('\x0c')
    } else if c == 'r' {
        Some('\r')
    } else {
        None
    }
}

/// A character in front of what else was read.
pub open spec fn before(c: char, rest: Option<Seq<char>>) -> Option<Seq<char>> {
    match rest {
        Some(s) => Some(seq![c] + s),
        None => None,
    }
}

/// What the characters between the quotes of a string stand for.
pub open spec fn unescaped(s: Seq<char>) -> Option<Seq<char>>
    decreases s.len(),
{
    if s.len() == 0 {
        Some(Seq::empty())
    } else if s[0] == '"' || (s[0] as int) < 0x20 {
        None
    } else if s[0] != '\\' {
        before(s[0], unescaped(s.skip(1)))
    } else if s.len() >= 2 && meant(s[1]) is Some {
        before(meant(s[1])->0, unescaped(s.skip(2)))
    } else if s.len() >= 6 && s[1] == 'u' {
        match (hex_pair(s[2], s[3]), hex_pair(s[4], s[5])) {
            (Some(a), Some(b)) => before((256 * a + b) as char, unescaped(s.skip(6))),
            _ => None,
        }
    } else {
        None
    }
}

/// What a string stands for.
pub open spec fn read_string(s: Seq<char>) -> Option<Seq<char>> {
    if s.len() >= 2 && s[0] == '"' && s.last() == '"' {
        unescaped(s.subrange(1, s.len() - 1))
    } else {
        None
    }
}

/// The number that decimal digits stand for.
pub open spec fn read_number(s: Seq<char>) -> Option<int>
    decreases s.len(),
{
    if s.len() == 0 || !('0' <= s.last() && s.last() <= '9') {
        None
    } else if s.len() == 1 {
        Some(s[0] as int - '0' as int)
    } else {
        match read_number(s.drop_last()) {
            Some(n) if n > 0 => Some(10 * n + (s.last() as int - '0' as int)),
            _ => None,
        }
    }
}

/// Items with commas between them.
pub open spec fn joined(items: Seq<Seq<char>>) -> Seq<char>
    decreases items.len(),
{
    if items.len() == 0 {
        Seq::empty()
    } else if items.len() == 1 {
        items[0]
    } else {
        joined(items.drop_last()) + seq![','] + items.last()
    }
}

/// A list of items.
pub open spec fn listed(items: Seq<Seq<char>>) -> Seq<char> {
    seq!['['] + joined(items) + seq![']']
}

/// One more item.
pub proof fn lemma_joined_more(items: Seq<Seq<char>>, n: int)
    requires
        0 <= n < items.len(),
    ensures
        joined(items.take(n + 1)) == joined(items.take(n)) + (if n == 0 {
            Seq::empty()
        } else {
            seq![',']
        }) + items[n],
{
    let more = items.take(n + 1);
    assert(more.drop_last() =~= items.take(n));
    assert(more.last() == items[n]);
    if n == 0 {
        assert(joined(more) =~= joined(items.take(n)) + Seq::<char>::empty() + items[n]);
    }
}

/// Digits have their values.
pub proof fn lemma_digit(d: int)
    requires
        0 <= d < 16,
    ensures
        hex_value(text::digit(d)) == Some(d),
        d < 10 ==> text::digit(d) as int == '0' as int + d && '0' <= text::digit(d) && text::digit(d)
            <= '9',
{
    assert('0' as int == 0x30 && 'a' as int == 0x61 && '9' as int == 0x39 && 'f' as int == 0x66);
    if d < 10 {
        assert((0x30 + d) as char as int == 0x30 + d);
    } else {
        assert((0x61 + (d - 10)) as char as int == 0x61 + (d - 10));
    }
}

/// Two digits stand for their byte.
pub proof fn law_hex_bytes_read_back(n: u8)
    ensures
        text::hex_byte(n).len() == 2,
        hex_pair(text::hex_byte(n)[0], text::hex_byte(n)[1]) == Some(n as int),
{
    lemma_digit(n as int / 16);
    lemma_digit(n as int % 16);
}

/// A number in decimal notation reads back as the number, without zeros in front.
pub proof fn law_numbers_read_back(n: nat)
    ensures
        read_number(text::decimal(n)) == Some(n as int),
    decreases n,
{
    let s = text::decimal(n);
    if n < 10 {
        lemma_digit(n as int);
    } else {
        law_numbers_read_back(n / 10);
        lemma_digit((n % 10) as int);
        lemma_decimal_len(n / 10);
        assert(s.drop_last() =~= text::decimal(n / 10));
        lemma_fundamental_div_mod(n as int, 10);
    }
}

/// Numbers have digits.
proof fn lemma_decimal_len(n: nat)
    ensures
        text::decimal(n).len() >= 1,
    decreases n,
{
    if n >= 10 {
        lemma_decimal_len(n / 10);
    }
}

/// One escaped character is read as what it was.
proof fn lemma_one(c: char, rest: Seq<char>)
    ensures
        unescaped(json::escaped(c) + rest) == before(c, unescaped(rest)),
{
    let s = json::escaped(c) + rest;
    let n = c as int;
    if json::escaped(c).len() == 1 {
        assert(s.skip(1) =~= rest);
    } else if json::escaped(c).len() == 2 {
        assert(s.skip(2) =~= rest);
        assert('\x08' as int == 8 && '\t' as int == 9 && '\n' as int == 10 && '\x0c' as int == 12
            && '\r' as int == 13);
    } else {
        law_hex_bytes_read_back(c as u8);
        assert(s.skip(6) =~= rest);
        assert(hex_pair('0', '0') == Some(0int)) by {
            assert('0' as int == 0x30);
        }
        assert(s[2] == '0' && s[3] == '0');
        assert(s[4] == text::hex_byte(c as u8)[0] && s[5] == text::hex_byte(c as u8)[1]);
        assert((n as u8) as int == n);
        assert(n as char == c);
    }
}

/// Escaped characters start with the first one.
proof fn lemma_first(s: Seq<char>)
    requires
        s.len() > 0,
    ensures
        json::escaped_all(s) == json::escaped(s[0]) + json::escaped_all(s.skip(1)),
    decreases s.len(),
{
    if s.len() == 1 {
        assert(s.drop_last() =~= Seq::<char>::empty());
        assert(s.skip(1) =~= Seq::<char>::empty());
        assert(json::escaped_all(s) =~= json::escaped(s[0]) + json::escaped_all(s.skip(1)));
    } else {
        lemma_first(s.drop_last());
        assert(s.drop_last().skip(1) =~= s.skip(1).drop_last());
        assert(json::escaped_all(s) =~= json::escaped(s[0]) + json::escaped_all(s.skip(1)));
    }
}

/// Escaped characters are read as what they were.
proof fn lemma_unescaped(s: Seq<char>)
    ensures
        unescaped(json::escaped_all(s)) == Some(s),
    decreases s.len(),
{
    if s.len() > 0 {
        lemma_first(s);
        lemma_unescaped(s.skip(1));
        lemma_one(s[0], json::escaped_all(s.skip(1)));
        assert(seq![s[0]] + s.skip(1) =~= s);
    } else {
        assert(s =~= Seq::<char>::empty());
    }
}

/// A JSON string reads back as what it was made of.
pub proof fn law_strings_read_back(s: Seq<char>)
    ensures
        read_string(json::json_string(s)) == Some(s),
{
    let t = json::json_string(s);
    lemma_unescaped(s);
    assert(t.subrange(1, t.len() - 1) =~= json::escaped_all(s));
}

} // verus!
