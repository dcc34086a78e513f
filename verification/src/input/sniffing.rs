//! What bytes are taken for.

use crate::input;
use vstd::prelude::*;

verus! {

/// Whether a byte is a blank or a line end.
pub open spec fn is_blank(b: u8) -> bool {
    b == 0x20 || 0x09 <= b <= 0x0d
}

/// Blanks are skipped.
proof fn lemma_skip(s: Seq<u8>, at: int, end: int)
    requires
        0 <= at <= end < s.len(),
        forall|i: int| at <= i < end ==> is_blank(#[trigger] s[i]),
        s[end] == 0x3c,
    ensures
        input::after_space(s, at) == end,
    decreases end - at,
{
    if at < end {
        assert(is_blank(s[at]));
        assert(input::space_len(s, at) == 1);
        lemma_skip(s, at + 1, end);
    }
}

/// There is no byte order mark before anything else.
proof fn lemma_no_mark(s: Seq<u8>)
    requires
        s.len() > 0,
        s[0] != 0xef,
    ensures
        input::after_marks(s, 0) == 0,
{
    if input::stands_at(s, 0, input::byte_order_mark()) {
        assert(s.subrange(0, 3)[0] == input::byte_order_mark()[0]);
    }
}

/// A part stands where it was put.
proof fn lemma_stands(s: Seq<u8>, at: int, part: Seq<u8>)
    requires
        0 <= at,
        at + part.len() <= s.len(),
        forall|i: int| 0 <= i < part.len() ==> s[at + i] == #[trigger] part[i],
    ensures
        input::stands_at(s, at, part),
{
    assert(s.subrange(at, at + part.len()) =~= part);
}

/// An SVG element is known as one, behind blanks and line ends, as long as it opens in the
/// first 1024 bytes.
pub proof fn law_svg_elements_are_known(blanks: Seq<u8>, rest: Seq<u8>)
    requires
        forall|i: int| 0 <= i < blanks.len() ==> is_blank(#[trigger] blanks[i]),
        blanks.len() + 4 <= 1024,
    ensures
        input::spec_is_svg(blanks + seq![0x3cu8, 0x73u8, 0x76u8, 0x67u8] + rest),
{
    let tag = seq![0x3cu8, 0x73u8, 0x76u8, 0x67u8];
    let all = blanks + tag + rest;
    let start = input::head(all, 1024);
    let n = blanks.len() as int;
    assert forall|i: int| 0 <= i < n implies is_blank(#[trigger] start[i]) by {
        assert(start[i] == blanks[i]);
    }
    assert forall|i: int| 0 <= i < 4 implies start[n + i] == #[trigger] tag[i] by {}
    assert(start[n + 0] == tag[0]);
    if n > 0 {
        assert(is_blank(start[0]));
    }
    lemma_no_mark(start);
    lemma_skip(start, 0, n);
    lemma_stands(start, n, input::svg_tag());
}

/// A document that opens with a declaration or a comment is known by an SVG element in its
/// first 8192 bytes.
pub proof fn law_svg_documents_are_known(
    blanks: Seq<u8>,
    comment: bool,
    between: Seq<u8>,
    rest: Seq<u8>,
)
    requires
        forall|i: int| 0 <= i < blanks.len() ==> is_blank(#[trigger] blanks[i]),
        blanks.len() + 5 <= 1024,
        blanks.len() + between.len() + 9 <= 8192,
    ensures
        input::spec_is_svg(
            blanks + (if comment {
                seq![0x3cu8, 0x21u8, 0x2du8, 0x2du8]
            } else {
                seq![0x3cu8, 0x3fu8, 0x78u8, 0x6du8, 0x6cu8]
            }) + between + seq![0x3cu8, 0x73u8, 0x76u8, 0x67u8] + rest,
        ),
{
    let open = if comment {
        seq![0x3cu8, 0x21u8, 0x2du8, 0x2du8]
    } else {
        seq![0x3cu8, 0x3fu8, 0x78u8, 0x6du8, 0x6cu8]
    };
    let tag = seq![0x3cu8, 0x73u8, 0x76u8, 0x67u8];
    let all = blanks + open + between + tag + rest;
    let (start, more) = (input::head(all, 1024), input::head(all, 8192));
    let n = blanks.len() as int;
    assert forall|i: int| 0 <= i < n implies is_blank(#[trigger] start[i]) by {
        assert(start[i] == blanks[i]);
    }
    assert forall|i: int| 0 <= i < open.len() implies start[n + i] == #[trigger] open[i] by {}
    assert(start[n + 0] == open[0]);
    if n > 0 {
        assert(is_blank(start[0]));
    }
    lemma_no_mark(start);
    lemma_skip(start, 0, n);
    lemma_stands(start, n, open);
    let at = n + open.len() + between.len();
    assert forall|i: int| 0 <= i < 4 implies more[at + i] == #[trigger] tag[i] by {}
    lemma_stands(more, at, input::svg_tag());
    if comment {
        assert(open =~= input::comment_tag());
    } else {
        assert(open =~= input::xml_tag());
    }
    assert(input::occurs(more, input::svg_tag()));
}

/// What starts with anything else than a tag, white space or a byte order mark is no SVG
/// document, whatever follows.
pub proof fn law_rasters_are_no_documents(bytes: Seq<u8>)
    requires
        bytes.len() > 0,
        !is_blank(bytes[0]),
        bytes[0] != 0x3c,
        bytes[0] != 0xc2,
        !(0xe1 <= bytes[0] <= 0xe3),
        bytes[0] != 0xef,
    ensures
        !input::spec_is_svg(bytes),
{
    let start = input::head(bytes, 1024);
    assert(start[0] == bytes[0]);
    lemma_no_mark(start);
    assert(input::space_len(start, 0) == 0);
    assert(input::after_space(start, 0) == 0);
    if input::stands_at(start, 0, input::svg_tag()) {
        assert(start.subrange(0, 4)[0] == 0x3c);
    }
    if input::stands_at(start, 0, input::xml_tag()) {
        assert(start.subrange(0, 5)[0] == 0x3c);
    }
    if input::stands_at(start, 0, input::comment_tag()) {
        assert(start.subrange(0, 4)[0] == 0x3c);
    }
}

/// A GIF is known by its first six bytes, for either version, and by nothing else.
pub proof fn law_gifs_are_known_by_their_start(bytes: Seq<u8>)
    ensures
        input::spec_is_gif(bytes) == (bytes.len() >= 6 && bytes[0] == 0x47 && bytes[1] == 0x49
            && bytes[2] == 0x46 && bytes[3] == 0x38 && (bytes[4] == 0x37 || bytes[4] == 0x39)
            && bytes[5] == 0x61),
{
    let (a, b) = (
        seq![0x47u8, 0x49u8, 0x46u8, 0x38u8, 0x37u8, 0x61u8],
        seq![0x47u8, 0x49u8, 0x46u8, 0x38u8, 0x39u8, 0x61u8],
    );
    if bytes.len() >= 6 {
        let s = bytes.subrange(0, 6);
        assert(s[0] == bytes[0] && s[1] == bytes[1] && s[2] == bytes[2] && s[3] == bytes[3] && s[4]
            == bytes[4] && s[5] == bytes[5]);
        if bytes[0] == 0x47 && bytes[1] == 0x49 && bytes[2] == 0x46 && bytes[3] == 0x38 && bytes[5]
            == 0x61 {
            if bytes[4] == 0x37 {
                assert(s =~= a);
            }
            if bytes[4] == 0x39 {
                assert(s =~= b);
            }
        }
    }
}

} // verus!
