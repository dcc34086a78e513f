//! Text-based renderers: plain text, ANSI true color, and JSON.

use crate::charset::Charset;
use crate::engine::AsciiGrid;
use crate::json;
use crate::paint;
use crate::text;
use vstd::prelude::*;

pub mod document;
pub mod laws;
pub mod terminal;

verus! {

/// The characters of one row.
pub open spec fn line(grid: &AsciiGrid, row: int) -> Seq<char> {
    grid.chars@.subrange(row * grid.cols, row * grid.cols + grid.cols)
}

/// The first `rows` rows as text, one line per row.
pub open spec fn text_rows(grid: &AsciiGrid, rows: nat) -> Seq<char>
    decreases rows,
{
    if rows == 0 {
        Seq::empty()
    } else {
        text_rows(grid, (rows - 1) as nat) + line(grid, rows - 1).push('\n')
    }
}

/// The escape sequence that sets the color of the foreground.
pub open spec fn color_escape(color: [u8; 3]) -> Seq<char> {
    "\x1b[38;2;"@ + text::decimal(color[0] as nat) + ";"@ + text::decimal(color[1] as nat) + ";"@
        + text::decimal(color[2] as nat) + "m"@
}

/// The first `n` cells of a row with colors, and the color that is set after
/// them.
///
/// Blank cells show the terminal background; a color is set only where it differs
/// from the one before.
pub open spec fn ansi_cells(grid: &AsciiGrid, row: int, n: nat) -> (Seq<char>, Option<[u8; 3]>)
    decreases n,
{
    if n == 0 {
        (Seq::empty(), None)
    } else {
        let (out, last) = ansi_cells(grid, row, (n - 1) as nat);
        let cell = grid.cell(row, n - 1);
        if cell.ch != ' ' && last != Some(cell.color) {
            (out + color_escape(cell.color) + seq![cell.ch], Some(cell.color))
        } else {
            (out + seq![cell.ch], last)
        }
    }
}

/// The first `rows` rows with colors.
pub open spec fn ansi_rows(grid: &AsciiGrid, rows: nat) -> Seq<char>
    decreases rows,
{
    if rows == 0 {
        Seq::empty()
    } else {
        ansi_rows(grid, (rows - 1) as nat) + ansi_cells(grid, rows - 1, grid.cols as nat).0
            + "\x1b[0m\n"@
    }
}

/// The ramp as it was actually applied.
pub open spec fn spec_effective_ramp(charset: Seq<char>, invert: bool) -> Seq<char> {
    if invert {
        charset.reverse()
    } else {
        charset
    }
}

/// What stands between the items of a list.
pub open spec fn comma(i: int) -> Seq<char> {
    if i == 0 {
        Seq::empty()
    } else {
        seq![',']
    }
}

/// The first `n` rows as JSON strings.
pub open spec fn json_lines(grid: &AsciiGrid, n: nat) -> Seq<char>
    decreases n,
{
    if n == 0 {
        Seq::empty()
    } else {
        json_lines(grid, (n - 1) as nat) + comma(n - 1) + json::json_string(line(grid, n - 1))
    }
}

/// A color in hexadecimal notation, as a JSON string.
pub open spec fn json_color(color: [u8; 3]) -> Seq<char> {
    seq!['"', '#'] + text::hex_byte(color[0]) + text::hex_byte(color[1]) + text::hex_byte(color[2])
        + seq!['"']
}

/// The colors of the first `n` cells of a row.
pub open spec fn json_color_cells(grid: &AsciiGrid, row: int, n: nat) -> Seq<char>
    decreases n,
{
    if n == 0 {
        Seq::empty()
    } else {
        json_color_cells(grid, row, (n - 1) as nat) + comma(n - 1) + json_color(
            grid.cell(row, n - 1).color,
        )
    }
}

/// The colors of the first `n` rows.
pub open spec fn json_color_rows(grid: &AsciiGrid, n: nat) -> Seq<char>
    decreases n,
{
    if n == 0 {
        Seq::empty()
    } else {
        json_color_rows(grid, (n - 1) as nat) + comma(n - 1) + seq!['['] + json_color_cells(
            grid,
            n - 1,
            grid.cols as nat,
        ) + seq![']']
    }
}

/// The alphas of the first `n` cells of a row.
pub open spec fn json_alpha_cells(grid: &AsciiGrid, row: int, n: nat) -> Seq<char>
    decreases n,
{
    if n == 0 {
        Seq::empty()
    } else {
        json_alpha_cells(grid, row, (n - 1) as nat) + comma(n - 1) + text::decimal(
            grid.cell(row, n - 1).alpha as nat,
        )
    }
}

/// The alphas of the first `n` rows.
pub open spec fn json_alpha_rows(grid: &AsciiGrid, n: nat) -> Seq<char>
    decreases n,
{
    if n == 0 {
        Seq::empty()
    } else {
        json_alpha_rows(grid, (n - 1) as nat) + comma(n - 1) + seq!['['] + json_alpha_cells(
            grid,
            n - 1,
            grid.cols as nat,
        ) + seq![']']
    }
}

/// The `charset` field: the ramp as applied, or the name of the braille mode.
pub open spec fn json_charset(charset: &Charset, invert: bool) -> Seq<char> {
    match charset {
        Charset::Ramp(ramp) => spec_effective_ramp(ramp@, invert),
        Charset::Braille => "braille"@,
    }
}

/// The `colors` field, where it is asked for.
pub open spec fn json_colors(grid: &AsciiGrid, wanted: bool) -> Seq<char> {
    if wanted {
        ",\"colors\":["@ + json_color_rows(grid, grid.rows as nat) + "]"@
    } else {
        Seq::empty()
    }
}

/// The `alpha` field, where the source carried transparency.
pub open spec fn json_alpha(grid: &AsciiGrid) -> Seq<char> {
    if grid.has_alpha() {
        ",\"alpha\":["@ + json_alpha_rows(grid, grid.rows as nat) + "]"@
    } else {
        Seq::empty()
    }
}

/// The whole document.
pub open spec fn json_document(
    grid: &AsciiGrid,
    charset: &Charset,
    invert: bool,
    include_colors: bool,
) -> Seq<char> {
    "{\"cols\":"@ + text::decimal(grid.cols as nat) + ",\"rows\":"@ + text::decimal(
        grid.rows as nat,
    ) + ",\"charset\":"@ + json::json_string(json_charset(charset, invert)) + ",\"mode\":"@
        + json::json_string(charset.spec_mode()) + ",\"lines\":["@ + json_lines(
        grid,
        grid.rows as nat,
    ) + "]"@ + json_colors(grid, include_colors) + json_alpha(grid) + "}"@
}

/// Rows lie inside the grid.
pub proof fn lemma_row(grid: &AsciiGrid, row: int)
    requires
        grid.wf(),
        0 <= row < grid.rows,
    ensures
        0 <= row * grid.cols,
        row * grid.cols + grid.cols <= grid.rows * grid.cols,
        grid.rows * grid.cols == grid.chars@.len(),
{
    assert(0 <= row * grid.cols && row * grid.cols + grid.cols <= grid.rows * grid.cols)
        by (nonlinear_arith)
        requires
            0 <= row,
            row + 1 <= grid.rows,
            grid.cols >= 0,
    ;
}

/// Appends the characters of one row.
fn push_line(out: &mut String, grid: &AsciiGrid, row: u32)
    requires
        grid.wf(),
        row < grid.rows,
    ensures
        final(out)@ == old(out)@ + line(grid, row as int),
{
    let ghost start = out@;
    proof {
        lemma_row(grid, row as int);
    }
    let mut col: u32 = 0;
    while col < grid.cols
        invariant
            grid.wf(),
            row < grid.rows,
            col <= grid.cols,
            0 <= row * grid.cols,
            row * grid.cols + grid.cols <= grid.chars@.len(),
            out@ =~= start + line(grid, row as int).take(col as int),
        decreases grid.cols - col,
    {
        out.push(grid.char_at(row, col));
        col = col + 1;
    }
    assert(line(grid, row as int).take(grid.cols as int) =~= line(grid, row as int));
}

/// Renders the grid as plain text, one line per row.
pub fn to_text(grid: &AsciiGrid) -> (r: String)
    requires
        grid.wf(),
    ensures
        r@ == text_rows(grid, grid.rows as nat),
{
    let mut out = String::new();
    let mut row: u32 = 0;
    while row < grid.rows
        invariant
            grid.wf(),
            row <= grid.rows,
            out@ == text_rows(grid, row as nat),
        decreases grid.rows - row,
    {
        push_line(&mut out, grid, row);
        out.push('\n');
        assert(out@ =~= text_rows(grid, (row + 1) as nat));
        row = row + 1;
    }
    out
}

/// Appends the escape sequence that sets the color of the foreground.
fn push_color_escape(out: &mut String, color: [u8; 3])
    ensures
        final(out)@ == old(out)@ + color_escape(color),
{
    out.append("\x1b[38;2;");
    text::push_decimal(out, color[0] as u64);
    out.append(";");
    text::push_decimal(out, color[1] as u64);
    out.append(";");
    text::push_decimal(out, color[2] as u64);
    out.append("m");
    assert(out@ =~= old(out)@ + color_escape(color));
}

/// Whether a color is the one that is set.
fn is_set(last: Option<[u8; 3]>, color: [u8; 3]) -> (r: bool)
    ensures
        r == (last == Some(color)),
{
    match last {
        None => false,
        Some(c) => {
            let r = c[0] == color[0] && c[1] == color[1] && c[2] == color[2];
            proof {
                if r {
                    assert(c =~= color);
                }
            }
            r
        },
    }
}

/// Renders the grid with 24-bit ANSI foreground colors for terminals.
pub fn to_ansi(grid: &AsciiGrid) -> (r: String)
    requires
        grid.wf(),
    ensures
        r@ == ansi_rows(grid, grid.rows as nat),
{
    let mut out = String::new();
    let mut row: u32 = 0;
    while row < grid.rows
        invariant
            grid.wf(),
            row <= grid.rows,
            out@ == ansi_rows(grid, row as nat),
        decreases grid.rows - row,
    {
        let ghost start = out@;
        let mut last: Option<[u8; 3]> = None;
        let mut col: u32 = 0;
        while col < grid.cols
            invariant
                grid.wf(),
                row < grid.rows,
                col <= grid.cols,
                out@ =~= start + ansi_cells(grid, row as int, col as nat).0,
                last == ansi_cells(grid, row as int, col as nat).1,
            decreases grid.cols - col,
        {
            proof {
                paint::lemma_cell(grid, row as int, col as int);
            }
            let ch = grid.char_at(row, col);
            if ch != ' ' {
                let color = grid.color_at(row, col);
                if !is_set(last, color) {
                    push_color_escape(&mut out, color);
                    last = Some(color);
                }
            }
            out.push(ch);
            col = col + 1;
        }
        out.append("\x1b[0m\n");
        assert(out@ =~= ansi_rows(grid, (row + 1) as nat));
        row = row + 1;
    }
    out
}

/// The ramp as it was actually applied: reversed when `invert` was set.
///
/// The `charset` field of [`to_json`] is made of it, so that index 0 is the
/// character used for the darkest cells even for inverted conversions.
pub fn effective_ramp(charset: &[char], invert: bool) -> (r: Vec<char>)
    ensures
        r@ == spec_effective_ramp(charset@, invert),
{
    let n = charset.len();
    let mut out: Vec<char> = Vec::new();
    let mut i: usize = 0;
    while i < n
        invariant
            n == charset@.len(),
            i <= n,
            out@ =~= spec_effective_ramp(charset@, invert).take(i as int),
        decreases n - i,
    {
        out.push(
            if invert {
                charset[n - 1 - i]
            } else {
                charset[i]
            },
        );
        i = i + 1;
    }
    out
}

/// Appends a comma unless it is the first item.
fn push_comma(out: &mut String, i: u32)
    ensures
        final(out)@ == old(out)@ + comma(i as int),
{
    if i > 0 {
        out.push(',');
    }
    assert(out@ =~= old(out)@ + comma(i as int));
}

/// Appends a color as a JSON string.
fn push_json_color(out: &mut String, color: [u8; 3])
    ensures
        final(out)@ == old(out)@ + json_color(color),
{
    out.push('"');
    out.push('#');
    text::push_hex_byte(out, color[0]);
    text::push_hex_byte(out, color[1]);
    text::push_hex_byte(out, color[2]);
    out.push('"');
    assert(out@ =~= old(out)@ + json_color(color));
}

/// Appends the rows as JSON strings.
fn push_json_lines(out: &mut String, grid: &AsciiGrid)
    requires
        grid.wf(),
    ensures
        final(out)@ == old(out)@ + json_lines(grid, grid.rows as nat),
{
    let ghost start = out@;
    let mut row: u32 = 0;
    while row < grid.rows
        invariant
            grid.wf(),
            row <= grid.rows,
            out@ =~= start + json_lines(grid, row as nat),
        decreases grid.rows - row,
    {
        push_comma(out, row);
        let mut one = String::new();
        push_line(&mut one, grid, row);
        assert(one@ =~= line(grid, row as int));
        out.append(json::quote(one.as_str()).as_str());
        row = row + 1;
    }
}

/// Appends the colors of all rows.
fn push_json_colors(out: &mut String, grid: &AsciiGrid)
    requires
        grid.wf(),
    ensures
        final(out)@ == old(out)@ + json_color_rows(grid, grid.rows as nat),
{
    let ghost start = out@;
    let mut row: u32 = 0;
    while row < grid.rows
        invariant
            grid.wf(),
            row <= grid.rows,
            out@ =~= start + json_color_rows(grid, row as nat),
        decreases grid.rows - row,
    {
        push_comma(out, row);
        out.push('[');
        let ghost head = out@;
        let mut col: u32 = 0;
        while col < grid.cols
            invariant
                grid.wf(),
                row < grid.rows,
                col <= grid.cols,
                out@ =~= head + json_color_cells(grid, row as int, col as nat),
            decreases grid.cols - col,
        {
            proof {
                paint::lemma_cell(grid, row as int, col as int);
            }
            push_comma(out, col);
            push_json_color(out, grid.color_at(row, col));
            col = col + 1;
        }
        out.push(']');
        row = row + 1;
    }
}

/// Appends the alphas of all rows.
fn push_json_alphas(out: &mut String, grid: &AsciiGrid)
    requires
        grid.wf(),
    ensures
        final(out)@ == old(out)@ + json_alpha_rows(grid, grid.rows as nat),
{
    let ghost start = out@;
    let mut row: u32 = 0;
    while row < grid.rows
        invariant
            grid.wf(),
            row <= grid.rows,
            out@ =~= start + json_alpha_rows(grid, row as nat),
        decreases grid.rows - row,
    {
        push_comma(out, row);
        out.push('[');
        let ghost head = out@;
        let mut col: u32 = 0;
        while col < grid.cols
            invariant
                grid.wf(),
                row < grid.rows,
                col <= grid.cols,
                out@ =~= head + json_alpha_cells(grid, row as int, col as nat),
            decreases grid.cols - col,
        {
            proof {
                paint::lemma_cell(grid, row as int, col as int);
            }
            push_comma(out, col);
            text::push_decimal(out, grid.alpha_at(row, col) as u64);
            col = col + 1;
        }
        out.push(']');
        row = row + 1;
    }
}

/// Renders the grid as machine-readable JSON.
///
/// `charset` and `invert` must be the ones applied to this grid. Fields:
///
/// - `cols`, `rows`: grid size
/// - `charset`: for `"ramp"`, the ramp as applied (index 0 is the darkest cell);
///   for `"braille"` the literal `"braille"`, since dots are composed, not
///   indexed
/// - `mode`: `"ramp"` or `"braille"`
/// - `lines`: one string per row
/// - `colors`: per row, one `#rrggbb` per cell (when `include_colors`)
/// - `alpha`: per row, one mean alpha per cell; present only when the source
///   actually carried transparency
pub fn to_json(grid: &AsciiGrid, charset: &Charset, invert: bool, include_colors: bool) -> (r: String)
    requires
        grid.wf(),
    ensures
        r@ == json_document(grid, charset, invert, include_colors),
{
    let mut out = "{\"cols\":".to_owned();
    text::push_decimal(&mut out, grid.cols as u64);
    out.append(",\"rows\":");
    text::push_decimal(&mut out, grid.rows as u64);
    out.append(",\"charset\":");
    let name = match charset {
        Charset::Ramp(ramp) => {
            let applied = effective_ramp(ramp.as_slice(), invert);
            let all = text::string_of(&applied, 0, applied.len());
            assert(all@ =~= applied@);
            all
        },
        Charset::Braille => "braille".to_owned(),
    };
    out.append(json::quote(name.as_str()).as_str());
    out.append(",\"mode\":");
    out.append(json::quote(charset.mode()).as_str());
    out.append(",\"lines\":[");
    push_json_lines(&mut out, grid);
    out.append("]");
    let ghost head = out@;
    if include_colors {
        out.append(",\"colors\":[");
        push_json_colors(&mut out, grid);
        out.append("]");
    }
    assert(out@ =~= head + json_colors(grid, include_colors));
    let ghost head = out@;
    if grid.has_alpha() {
        out.append(",\"alpha\":[");
        push_json_alphas(&mut out, grid);
        out.append("]");
    }
    assert(out@ =~= head + json_alpha(grid));
    out.append("}");
    out
}

} // verus!
