//! What is read from the JSON document of a grid.

use crate::charset::Charset;
use crate::engine::AsciiGrid;
use crate::json;
use crate::json::reading;
use crate::render;
use crate::text;
use vstd::prelude::*;

verus! {

/// The texts that a document is made of.
pub struct Document {
    pub cols: Seq<char>,
    pub rows: Seq<char>,
    pub charset: Seq<char>,
    pub mode: Seq<char>,
    pub lines: Seq<Seq<char>>,
    pub colors: Option<Seq<Seq<Seq<char>>>>,
    pub alpha: Option<Seq<Seq<Seq<char>>>>,
}

/// A list of lists.
pub open spec fn nested(rows: Seq<Seq<Seq<char>>>) -> Seq<char> {
    reading::listed(Seq::new(rows.len(), |row: int| reading::listed(rows[row])))
}

/// The text of a document.
pub open spec fn written(d: Document) -> Seq<char> {
    "{\"cols\":"@ + d.cols + ",\"rows\":"@ + d.rows + ",\"charset\":"@ + d.charset + ",\"mode\":"@
        + d.mode + ",\"lines\":"@ + reading::listed(d.lines) + (match d.colors {
        Some(rows) => ",\"colors\":"@ + nested(rows),
        None => Seq::empty(),
    }) + (match d.alpha {
        Some(rows) => ",\"alpha\":"@ + nested(rows),
        None => Seq::empty(),
    }) + "}"@
}

/// Whether a text is a string with a color in hexadecimal notation.
pub open spec fn is_color(t: Seq<char>, color: [u8; 3]) -> bool {
    &&& reading::read_string(t) matches Some(s)
    &&& s.len() == 7
    &&& s[0] == '#'
    &&& reading::hex_pair(s[1], s[2]) == Some(color[0] as int)
    &&& reading::hex_pair(s[3], s[4]) == Some(color[1] as int)
    &&& reading::hex_pair(s[5], s[6]) == Some(color[2] as int)
}

/// Whether a document says what a grid holds: its size, the charset with the character of the
/// darkest cells first, one line per row with the character of every cell, one color per
/// cell where colors are wanted, and one alpha per cell where any is not full.
pub open spec fn says(
    d: Document,
    grid: &AsciiGrid,
    charset: &Charset,
    invert: bool,
    colors: bool,
) -> bool {
    &&& reading::read_number(d.cols) == Some(grid.cols as int)
    &&& reading::read_number(d.rows) == Some(grid.rows as int)
    &&& reading::read_string(d.charset) == Some(
        match charset {
            Charset::Ramp(ramp) => Seq::new(
                ramp@.len(),
                |i: int|
                    ramp@[if invert {
                        ramp@.len() - 1 - i
                    } else {
                        i
                    }],
            ),
            Charset::Braille => seq!['b', 'r', 'a', 'i', 'l', 'l', 'e'],
        },
    )
    &&& reading::read_string(d.mode) == Some(
        match charset {
            Charset::Ramp(_) => seq!['r', 'a', 'm', 'p'],
            Charset::Braille => seq!['b', 'r', 'a', 'i', 'l', 'l', 'e'],
        },
    )
    &&& d.lines.len() == grid.rows
    &&& forall|row: int|
        0 <= row < grid.rows ==> reading::read_string(#[trigger] d.lines[row]) == Some(
            Seq::new(grid.cols as nat, |col: int| grid.chars@[row * grid.cols + col]),
        )
    &&& d.colors is Some <==> colors
    &&& d.colors matches Some(rows) ==> rows.len() == grid.rows && forall|row: int|
        0 <= row < grid.rows ==> (#[trigger] rows[row]).len() == grid.cols && forall|col: int|
            0 <= col < grid.cols ==> is_color(
                #[trigger] rows[row][col],
                grid.colors@[row * grid.cols + col],
            )
    &&& d.alpha is Some <==> exists|i: int|
        0 <= i < grid.alphas@.len() && #[trigger] grid.alphas@[i] < 255
    &&& d.alpha matches Some(rows) ==> rows.len() == grid.rows && forall|row: int|
        0 <= row < grid.rows ==> (#[trigger] rows[row]).len() == grid.cols && forall|col: int|
            0 <= col < grid.cols ==> reading::read_number(#[trigger] rows[row][col]) == Some(
                grid.alphas@[row * grid.cols + col] as int,
            )
}

/// The strings of all rows.
spec fn line_texts(grid: &AsciiGrid) -> Seq<Seq<char>> {
    Seq::new(grid.rows as nat, |row: int| json::json_string(render::line(grid, row)))
}

/// The colors of a row.
spec fn color_texts(grid: &AsciiGrid, row: int) -> Seq<Seq<char>> {
    Seq::new(grid.cols as nat, |col: int| render::json_color(grid.cell(row, col).color))
}

/// The alphas of a row.
spec fn alpha_texts(grid: &AsciiGrid, row: int) -> Seq<Seq<char>> {
    Seq::new(grid.cols as nat, |col: int| text::decimal(grid.cell(row, col).alpha as nat))
}

proof fn lemma_lines(grid: &AsciiGrid, n: nat)
    requires
        n <= grid.rows,
    ensures
        render::json_lines(grid, n) == reading::joined(line_texts(grid).take(n as int)),
    decreases n,
{
    let all = line_texts(grid);
    if n == 0 {
        assert(all.take(0) =~= Seq::empty());
    } else {
        lemma_lines(grid, (n - 1) as nat);
        reading::lemma_joined_more(all, n - 1);
    }
}

proof fn lemma_color_cells(grid: &AsciiGrid, row: int, n: nat)
    requires
        n <= grid.cols,
    ensures
        render::json_color_cells(grid, row, n) == reading::joined(
            color_texts(grid, row).take(n as int),
        ),
    decreases n,
{
    let all = color_texts(grid, row);
    if n == 0 {
        assert(all.take(0) =~= Seq::empty());
    } else {
        lemma_color_cells(grid, row, (n - 1) as nat);
        reading::lemma_joined_more(all, n - 1);
    }
}

proof fn lemma_color_rows(grid: &AsciiGrid, all: Seq<Seq<char>>, n: nat)
    requires
        n <= grid.rows,
        all == Seq::new(
            grid.rows as nat,
            |row: int| reading::listed(color_texts(grid, row)),
        ),
    ensures
        render::json_color_rows(grid, n) == reading::joined(all.take(n as int)),
    decreases n,
{
    if n == 0 {
        assert(all.take(0) =~= Seq::empty());
    } else {
        lemma_color_rows(grid, all, (n - 1) as nat);
        reading::lemma_joined_more(all, n - 1);
        lemma_color_cells(grid, n - 1, grid.cols as nat);
        let texts = color_texts(grid, n - 1);
        assert(texts.take(grid.cols as int) =~= texts);
        assert(render::json_color_rows(grid, n) =~= reading::joined(all.take(n as int)));
    }
}

proof fn lemma_alpha_cells(grid: &AsciiGrid, row: int, n: nat)
    requires
        n <= grid.cols,
    ensures
        render::json_alpha_cells(grid, row, n) == reading::joined(
            alpha_texts(grid, row).take(n as int),
        ),
    decreases n,
{
    let all = alpha_texts(grid, row);
    if n == 0 {
        assert(all.take(0) =~= Seq::empty());
    } else {
        lemma_alpha_cells(grid, row, (n - 1) as nat);
        reading::lemma_joined_more(all, n - 1);
    }
}

proof fn lemma_alpha_rows(grid: &AsciiGrid, all: Seq<Seq<char>>, n: nat)
    requires
        n <= grid.rows,
        all == Seq::new(
            grid.rows as nat,
            |row: int| reading::listed(alpha_texts(grid, row)),
        ),
    ensures
        render::json_alpha_rows(grid, n) == reading::joined(all.take(n as int)),
    decreases n,
{
    if n == 0 {
        assert(all.take(0) =~= Seq::empty());
    } else {
        lemma_alpha_rows(grid, all, (n - 1) as nat);
        reading::lemma_joined_more(all, n - 1);
        lemma_alpha_cells(grid, n - 1, grid.cols as nat);
        let texts = alpha_texts(grid, n - 1);
        assert(texts.take(grid.cols as int) =~= texts);
        assert(render::json_alpha_rows(grid, n) =~= reading::joined(all.take(n as int)));
    }
}

/// A color reads back.
proof fn lemma_color(color: [u8; 3])
    ensures
        is_color(render::json_color(color), color),
{
    let t = render::json_color(color);
    let s = seq!['#'] + text::hex_byte(color[0]) + text::hex_byte(color[1]) + text::hex_byte(
        color[2],
    );
    reading::law_hex_bytes_read_back(color[0]);
    reading::law_hex_bytes_read_back(color[1]);
    reading::law_hex_bytes_read_back(color[2]);
    assert forall|d: int| 0 <= d < 16 implies json::escaped(#[trigger] text::digit(d)) == seq![
        text::digit(d),
    ] by {
        reading::lemma_digit(d);
        assert('0' as int == 0x30 && 'a' as int == 0x61 && '9' as int == 0x39 && 'f' as int == 0x66
            && '"' as int == 0x22 && '\\' as int == 0x5c);
    }
    assert(json::escaped_all(s) == s) by {
        lemma_plain(s, 7);
    }
    assert(t =~= json::json_string(s));
    reading::law_strings_read_back(s);
}

/// Characters that need no escape stay as they are.
proof fn lemma_plain(s: Seq<char>, n: nat)
    requires
        n <= s.len(),
        forall|i: int| 0 <= i < s.len() ==> json::escaped(#[trigger] s[i]) == seq![s[i]],
    ensures
        json::escaped_all(s.take(n as int)) == s.take(n as int),
        s.take(s.len() as int) == s,
    decreases n,
{
    assert(s.take(s.len() as int) =~= s);
    let t = s.take(n as int);
    if n == 0 {
        assert(t =~= Seq::empty());
    } else {
        lemma_plain(s, (n - 1) as nat);
        assert(t.drop_last() =~= s.take(n - 1));
        assert(t.last() == s[n - 1]);
        assert(json::escaped_all(t) =~= t);
    }
}

/// The texts of the document of a grid.
spec fn texts_of(grid: &AsciiGrid, charset: &Charset, invert: bool, colors: bool) -> Document {
    Document {
        cols: text::decimal(grid.cols as nat),
        rows: text::decimal(grid.rows as nat),
        charset: json::json_string(render::json_charset(charset, invert)),
        mode: json::json_string(charset.spec_mode()),
        lines: line_texts(grid),
        colors: if colors {
            Some(Seq::new(grid.rows as nat, |row: int| color_texts(grid, row)))
        } else {
            None
        },
        alpha: if grid.has_alpha() {
            Some(Seq::new(grid.rows as nat, |row: int| alpha_texts(grid, row)))
        } else {
            None
        },
    }
}

/// The brackets of a list may be counted to what stands before it.
proof fn lemma_brackets(a: Seq<char>, b: Seq<char>, l: Seq<char>)
    ensures
        a + (b + seq!['[']) + l + seq![']'] == a + b + (seq!['['] + l + seq![']']),
        (b + seq!['[']) + l + seq![']'] == b + (seq!['['] + l + seq![']']),
{
    assert(a + (b + seq!['[']) + l + seq![']'] =~= a + b + (seq!['['] + l + seq![']']));
    assert((b + seq!['[']) + l + seq![']'] =~= b + (seq!['['] + l + seq![']']));
}

proof fn lemma_written_colors(grid: &AsciiGrid, colors: bool)
    ensures
        render::json_colors(grid, colors) == if colors {
            ",\"colors\":"@ + nested(Seq::new(grid.rows as nat, |row: int| color_texts(grid, row)))
        } else {
            Seq::empty()
        },
{
    let n = grid.rows as nat;
    let rows = Seq::new(n, |row: int| color_texts(grid, row));
    let all = Seq::new(n, |row: int| reading::listed(color_texts(grid, row)));
    lemma_color_rows(grid, all, n);
    assert(all.take(n as int) =~= all);
    assert(Seq::new(rows.len(), |row: int| reading::listed(rows[row])) =~= all);
    reveal_strlit(",\"colors\":[");
    reveal_strlit(",\"colors\":");
    reveal_strlit("]");
    assert(",\"colors\":["@ =~= ",\"colors\":"@ + seq!['[']);
    assert("]"@ =~= seq![']']);
    lemma_brackets(Seq::empty(), ",\"colors\":"@, reading::joined(all));
}

proof fn lemma_written_alphas(grid: &AsciiGrid)
    ensures
        render::json_alpha(grid) == if grid.has_alpha() {
            ",\"alpha\":"@ + nested(Seq::new(grid.rows as nat, |row: int| alpha_texts(grid, row)))
        } else {
            Seq::empty()
        },
{
    let n = grid.rows as nat;
    let rows = Seq::new(n, |row: int| alpha_texts(grid, row));
    let all = Seq::new(n, |row: int| reading::listed(alpha_texts(grid, row)));
    lemma_alpha_rows(grid, all, n);
    assert(all.take(n as int) =~= all);
    assert(Seq::new(rows.len(), |row: int| reading::listed(rows[row])) =~= all);
    reveal_strlit(",\"alpha\":[");
    reveal_strlit(",\"alpha\":");
    reveal_strlit("]");
    assert(",\"alpha\":["@ =~= ",\"alpha\":"@ + seq!['[']);
    assert("]"@ =~= seq![']']);
    lemma_brackets(Seq::empty(), ",\"alpha\":"@, reading::joined(all));
}

proof fn lemma_written(grid: &AsciiGrid, charset: &Charset, invert: bool, colors: bool)
    ensures
        render::json_document(grid, charset, invert, colors) == written(
            texts_of(grid, charset, invert, colors),
        ),
{
    let d = texts_of(grid, charset, invert, colors);
    let n = grid.rows as nat;
    lemma_lines(grid, n);
    assert(d.lines.take(n as int) =~= d.lines);
    lemma_written_colors(grid, colors);
    lemma_written_alphas(grid);
    reveal_strlit(",\"lines\":[");
    reveal_strlit(",\"lines\":");
    reveal_strlit("]");
    assert(",\"lines\":["@ =~= ",\"lines\":"@ + seq!['[']);
    assert("]"@ =~= seq![']']);
    let head = "{\"cols\":"@ + d.cols + ",\"rows\":"@ + d.rows + ",\"charset\":"@ + d.charset
        + ",\"mode\":"@ + d.mode;
    lemma_brackets(head, ",\"lines\":"@, reading::joined(d.lines));
}

proof fn lemma_says_names(grid: &AsciiGrid, charset: &Charset, invert: bool)
    ensures
        reading::read_string(json::json_string(render::json_charset(charset, invert))) == Some(
            match charset {
                Charset::Ramp(ramp) => Seq::new(
                    ramp@.len(),
                    |i: int|
                        ramp@[if invert {
                            ramp@.len() - 1 - i
                        } else {
                            i
                        }],
                ),
                Charset::Braille => seq!['b', 'r', 'a', 'i', 'l', 'l', 'e'],
            },
        ),
        reading::read_string(json::json_string(charset.spec_mode())) == Some(
            match charset {
                Charset::Ramp(_) => seq!['r', 'a', 'm', 'p'],
                Charset::Braille => seq!['b', 'r', 'a', 'i', 'l', 'l', 'e'],
            },
        ),
{
    let name = render::json_charset(charset, invert);
    reading::law_strings_read_back(name);
    reading::law_strings_read_back(charset.spec_mode());
    reveal_strlit("braille");
    reveal_strlit("ramp");
    assert("braille"@ =~= seq!['b', 'r', 'a', 'i', 'l', 'l', 'e']);
    assert("ramp"@ =~= seq!['r', 'a', 'm', 'p']);
    if let Charset::Ramp(ramp) = charset {
        assert(name =~= Seq::new(
            ramp@.len(),
            |i: int|
                ramp@[if invert {
                    ramp@.len() - 1 - i
                } else {
                    i
                }],
        ));
    }
}

/// The document of a grid says what the grid holds, cell by cell and row by row from the
/// top, for whoever reads it as JSON.
pub proof fn law_documents_say_what_the_grid_holds(
    grid: &AsciiGrid,
    charset: &Charset,
    invert: bool,
    colors: bool,
) -> (d: Document)
    requires
        grid.wf(),
    ensures
        render::json_document(grid, charset, invert, colors) == written(d),
        says(d, grid, charset, invert, colors),
{
    let d = texts_of(grid, charset, invert, colors);
    lemma_written(grid, charset, invert, colors);
    lemma_says_names(grid, charset, invert);
    reading::law_numbers_read_back(grid.cols as nat);
    reading::law_numbers_read_back(grid.rows as nat);
    assert forall|row: int| 0 <= row < grid.rows implies reading::read_string(
        #[trigger] d.lines[row],
    ) == Some(
        Seq::new(grid.cols as nat, |col: int| grid.chars@[row * grid.cols + col]),
    ) by {
        render::lemma_row(grid, row);
        reading::law_strings_read_back(render::line(grid, row));
        assert(render::line(grid, row) =~= Seq::new(
            grid.cols as nat,
            |col: int| grid.chars@[row * grid.cols + col],
        ));
    }
    let color_rows = Seq::new(grid.rows as nat, |row: int| color_texts(grid, row));
    assert forall|row: int, col: int| 0 <= row < grid.rows && 0 <= col < grid.cols implies is_color(
        #[trigger] color_rows[row][col],
        grid.colors@[row * grid.cols + col],
    ) by {
        lemma_color(grid.cell(row, col).color);
    }
    let alpha_rows = Seq::new(grid.rows as nat, |row: int| alpha_texts(grid, row));
    assert forall|row: int, col: int|
        0 <= row < grid.rows && 0 <= col < grid.cols implies reading::read_number(
        #[trigger] alpha_rows[row][col],
    ) == Some(grid.alphas@[row * grid.cols + col] as int) by {
        reading::law_numbers_read_back(grid.cell(row, col).alpha as nat);
    }
    d
}

} // verus!
