//! What terminals make of colored output.

use crate::json::reading;
use crate::render;
use crate::text;
use vstd::prelude::*;

verus! {

/// The escape sequence that sets a color names it: red, green and blue in decimal notation,
/// apart by semicolons, after the selection of a true color for the foreground.
pub proof fn law_escapes_name_their_color(
    color: [u8; 3],
) -> (parts: (Seq<char>, Seq<char>, Seq<char>))
    ensures
        render::color_escape(color) == seq!['\x1b', '[', '3', '8', ';', '2', ';'] + parts.0 + seq![
            ';',
        ] + parts.1 + seq![';'] + parts.2 + seq!['m'],
        reading::read_number(parts.0) == Some(color[0] as int),
        reading::read_number(parts.1) == Some(color[1] as int),
        reading::read_number(parts.2) == Some(color[2] as int),
{
    reveal_strlit("\x1b[38;2;");
    reveal_strlit(";");
    reveal_strlit("m");
    reading::law_numbers_read_back(color[0] as nat);
    reading::law_numbers_read_back(color[1] as nat);
    reading::law_numbers_read_back(color[2] as nat);
    assert("\x1b[38;2;"@ =~= seq!['\x1b', '[', '3', '8', ';', '2', ';']);
    assert(";"@ =~= seq![';']);
    assert("m"@ =~= seq!['m']);
    (
        text::decimal(color[0] as nat),
        text::decimal(color[1] as nat),
        text::decimal(color[2] as nat),
    )
}

} // verus!
