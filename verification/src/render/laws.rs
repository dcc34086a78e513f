//! What holds of everything that is rendered.

use crate::engine;
use crate::engine::AsciiGrid;
use crate::float::Double;
use crate::render;
use crate::text;
use vstd::prelude::*;

verus! {

/// Reversing the applied ramp gives the ramp back.
pub proof fn law_effective_ramp_undoes_itself(ramp: Seq<char>, invert: bool)
    ensures
        render::spec_effective_ramp(render::spec_effective_ramp(ramp, invert), invert) == ramp,
        render::spec_effective_ramp(ramp, invert).len() == ramp.len(),
{
    assert(render::spec_effective_ramp(render::spec_effective_ramp(ramp, invert), invert) =~= ramp);
}

/// The applied ramp is what cells are looked up in: the character of a luma
/// stands in it at the index that the luma has without inversion, so index 0 is
/// the character of the darkest cells.
pub proof fn law_effective_ramp_is_what_was_applied(
    ramp: Seq<char>,
    luma: Double,
    invert: bool,
)
    requires
        0 < ramp.len() <= usize::MAX,
    ensures
        ({
            let n = ramp.len() as usize;
            ramp[engine::ramp_index(luma, n, invert) as int] == render::spec_effective_ramp(
                ramp,
                invert,
            )[engine::ramp_index(luma, n, false) as int]
        }),
{
}

/// Text holds every cell and one line end per row.
pub proof fn law_text_length(grid: &AsciiGrid, rows: nat)
    requires
        grid.wf(),
        rows <= grid.rows,
    ensures
        render::text_rows(grid, rows).len() == rows * (grid.cols + 1),
    decreases rows,
{
    if rows > 0 {
        law_text_length(grid, (rows - 1) as nat);
        assert(0 <= (rows - 1) * grid.cols && rows * grid.cols <= grid.rows * grid.cols)
            by (nonlinear_arith)
            requires
                1 <= rows <= grid.rows,
                grid.cols >= 0,
        ;
        assert(rows * grid.cols == (rows - 1) * grid.cols + grid.cols) by (nonlinear_arith);
        assert((rows - 1) * (grid.cols + 1) + (grid.cols + 1) == rows * (grid.cols + 1))
            by (nonlinear_arith);
    } else {
        assert(0 * (grid.cols + 1) == 0) by (nonlinear_arith);
    }
}

/// The character of a cell stands in the text at its row and column.
pub proof fn law_text_holds_the_cells(grid: &AsciiGrid, rows: nat, row: int, col: int)
    requires
        grid.wf(),
        rows <= grid.rows,
        0 <= row < rows,
        0 <= col < grid.cols,
    ensures
        0 <= row * (grid.cols + 1) + col < render::text_rows(grid, rows).len(),
        render::text_rows(grid, rows)[row * (grid.cols + 1) + col] == grid.cell(row, col).ch,
    decreases rows,
{
    let w = grid.cols + 1;
    let last = rows - 1;
    law_text_length(grid, last as nat);
    law_text_length(grid, rows);
    assert(0 <= last * grid.cols && last * grid.cols + grid.cols <= grid.rows * grid.cols)
        by (nonlinear_arith)
        requires
            0 <= last,
            last + 1 <= grid.rows,
            grid.cols >= 0,
    ;
    if row < last {
        law_text_holds_the_cells(grid, last as nat, row, col);
    }
    assert(row * w >= 0 && row * w + col < rows * w) by (nonlinear_arith)
        requires
            0 <= row,
            row + 1 <= rows,
            0 <= col < w,
    ;
}

/// What a terminal shows of a text: everything but escape sequences, which run from an
/// escape character to the next `m`.
pub open spec fn shown(s: Seq<char>, inside: bool) -> Seq<char>
    decreases s.len(),
{
    if s.len() == 0 {
        Seq::empty()
    } else if inside {
        shown(s.skip(1), s[0] != 'm')
    } else if s[0] == '\x1b' {
        shown(s.skip(1), true)
    } else {
        seq![s[0]] + shown(s.skip(1), false)
    }
}

/// Escape sequences show nothing of themselves.
proof fn lemma_inside(body: Seq<char>, rest: Seq<char>)
    requires
        !body.contains('m'),
    ensures
        shown(body + seq!['m'] + rest, true) == shown(rest, false),
    decreases body.len(),
{
    let all = body + seq!['m'] + rest;
    if body.len() == 0 {
        assert(all.skip(1) =~= rest);
    } else {
        let tail = body.skip(1);
        assert(body.contains(body[0]));
        assert(!tail.contains('m')) by {
            if tail.contains('m') {
                let j = tail.index_of('m');
                assert(body[j + 1] == 'm');
            }
        }
        lemma_inside(tail, rest);
        assert(all.skip(1) =~= tail + seq!['m'] + rest);
    }
}

/// Digits are not the end of an escape sequence.
proof fn lemma_decimal(n: nat)
    ensures
        !text::decimal(n).contains('m'),
    decreases n,
{
    if n >= 10 {
        lemma_decimal(n / 10);
        let head = text::decimal(n / 10);
        let d = text::digit((n % 10) as int);
        assert(text::decimal(n) == head.push(d));
        if text::decimal(n).contains('m') {
            let j = text::decimal(n).index_of('m');
            if j < head.len() {
                assert(head[j] == 'm');
            }
        }
    }
}

/// A sequence without a character, made up of two.
proof fn lemma_joined(a: Seq<char>, b: Seq<char>)
    requires
        !a.contains('m'),
        !b.contains('m'),
    ensures
        !(a + b).contains('m'),
{
    if (a + b).contains('m') {
        let j = (a + b).index_of('m');
        if j < a.len() {
            assert(a[j] == 'm');
        } else {
            assert(b[j - a.len()] == 'm');
        }
    }
}

/// The escape sequence of a color shows nothing.
proof fn lemma_color_escape(color: [u8; 3], rest: Seq<char>)
    ensures
        shown(render::color_escape(color) + rest, false) == shown(rest, false),
{
    reveal_strlit("\x1b[38;2;");
    reveal_strlit(";");
    reveal_strlit("m");
    let (r, g, b) = (
        text::decimal(color[0] as nat),
        text::decimal(color[1] as nat),
        text::decimal(color[2] as nat),
    );
    lemma_decimal(color[0] as nat);
    lemma_decimal(color[1] as nat);
    lemma_decimal(color[2] as nat);
    let lead = "\x1b[38;2;"@.skip(1);
    assert(!lead.contains('m'));
    assert(!";"@.contains('m'));
    lemma_joined(lead, r);
    lemma_joined(lead + r, ";"@);
    lemma_joined(lead + r + ";"@, g);
    lemma_joined(lead + r + ";"@ + g, ";"@);
    lemma_joined(lead + r + ";"@ + g + ";"@, b);
    let body = lead + r + ";"@ + g + ";"@ + b;
    lemma_inside(body, rest);
    let all = render::color_escape(color) + rest;
    assert(all[0] == '\x1b');
    assert(all.skip(1) =~= body + seq!['m'] + rest);
}

/// What is shown of the first `n` cells of a row, and of what follows.
proof fn lemma_cells_shown(grid: &AsciiGrid, row: int, n: nat, rest: Seq<char>)
    requires
        grid.wf(),
        0 <= row < grid.rows,
        n <= grid.cols,
        forall|i: int| 0 <= i < grid.chars@.len() ==> #[trigger] grid.chars@[i] != '\x1b',
    ensures
        shown(render::ansi_cells(grid, row, n).0 + rest, false) == render::line(grid, row).take(
            n as int,
        ) + shown(rest, false),
    decreases n,
{
    let line = render::line(grid, row);
    assert(0 <= row * grid.cols && row * grid.cols + grid.cols <= grid.rows * grid.cols)
        by (nonlinear_arith)
        requires
            0 <= row,
            row + 1 <= grid.rows,
            grid.cols >= 0,
    ;
    if n == 0 {
        assert(render::ansi_cells(grid, row, n).0 + rest =~= rest);
        assert(line.take(0) + shown(rest, false) =~= shown(rest, false));
    } else {
        let (out, last) = render::ansi_cells(grid, row, (n - 1) as nat);
        let cell = grid.cell(row, n - 1);
        let next = seq![cell.ch] + rest;
        assert(cell.ch == line[n - 1]);
        assert(next.skip(1) =~= rest);
        assert(cell.ch != '\x1b');
        assert(shown(next, false) == seq![cell.ch] + shown(rest, false));
        if cell.ch != ' ' && last != Some(cell.color) {
            let escape = render::color_escape(cell.color);
            lemma_color_escape(cell.color, next);
            lemma_cells_shown(grid, row, (n - 1) as nat, escape + next);
            assert(render::ansi_cells(grid, row, n).0 + rest =~= out + (escape + next));
        } else {
            lemma_cells_shown(grid, row, (n - 1) as nat, next);
            assert(render::ansi_cells(grid, row, n).0 + rest =~= out + next);
        }
        assert(line.take(n - 1) + (seq![cell.ch] + shown(rest, false)) =~= line.take(n as int)
            + shown(rest, false));
    }
}

/// What is shown of the first `rows` rows, and of what follows.
proof fn lemma_rows_shown(grid: &AsciiGrid, rows: nat, rest: Seq<char>)
    requires
        grid.wf(),
        rows <= grid.rows,
        forall|i: int| 0 <= i < grid.chars@.len() ==> #[trigger] grid.chars@[i] != '\x1b',
    ensures
        shown(render::ansi_rows(grid, rows) + rest, false) == render::text_rows(grid, rows) + shown(
            rest,
            false,
        ),
    decreases rows,
{
    if rows == 0 {
        assert(render::ansi_rows(grid, rows) + rest =~= rest);
        assert(render::text_rows(grid, rows) + shown(rest, false) =~= shown(rest, false));
    } else {
        let row = rows - 1;
        let cells = render::ansi_cells(grid, row, grid.cols as nat).0;
        let reset = "\x1b[0m\n"@;
        let line = render::line(grid, row);
        assert(0 <= row * grid.cols && row * grid.cols + grid.cols <= grid.rows * grid.cols)
            by (nonlinear_arith)
            requires
                0 <= row,
                row + 1 <= grid.rows,
                grid.cols >= 0,
        ;
        reveal_strlit("\x1b[0m\n");
        let end = seq!['\n'] + rest;
        assert(end.skip(1) =~= rest);
        assert(shown(end, false) == seq!['\n'] + shown(rest, false));
        lemma_inside(seq!['[', '0'], end);
        assert((reset + rest).skip(1) =~= seq!['[', '0'] + seq!['m'] + end);
        assert(shown(reset + rest, false) == shown(end, false));
        lemma_cells_shown(grid, row, grid.cols as nat, reset + rest);
        lemma_rows_shown(grid, row as nat, cells + (reset + rest));
        assert(render::ansi_rows(grid, rows) + rest =~= render::ansi_rows(grid, row as nat) + (cells
            + (reset + rest)));
        assert(line.take(grid.cols as int) =~= line);
        assert(render::text_rows(grid, row as nat) + (line + (seq!['\n'] + shown(rest, false)))
            =~= render::text_rows(grid, rows) + shown(rest, false));
    }
}

/// Without its escape sequences, colored output is the plain text, for every grid whose
/// characters hold no escape.
pub proof fn law_colors_do_not_change_the_text(grid: &AsciiGrid)
    requires
        grid.wf(),
        forall|i: int| 0 <= i < grid.chars@.len() ==> #[trigger] grid.chars@[i] != '\x1b',
    ensures
        shown(render::ansi_rows(grid, grid.rows as nat), false) == render::text_rows(
            grid,
            grid.rows as nat,
        ),
{
    let all = render::ansi_rows(grid, grid.rows as nat);
    lemma_rows_shown(grid, grid.rows as nat, Seq::empty());
    assert(all + Seq::<char>::empty() =~= all);
    assert(render::text_rows(grid, grid.rows as nat) + Seq::<char>::empty() =~= render::text_rows(
        grid,
        grid.rows as nat,
    ));
}

/// The color of the last cell among the first `n` of a row that is not blank.
pub open spec fn last_color(grid: &AsciiGrid, row: int, n: nat) -> Option<[u8; 3]>
    decreases n,
{
    if n == 0 {
        None
    } else if grid.cell(row, n - 1).ch != ' ' {
        Some(grid.cell(row, n - 1).color)
    } else {
        last_color(grid, row, (n - 1) as nat)
    }
}

/// A color is set right before a cell if and only if the cell is not blank and differs
/// in color from the last cell of its row that is not, so the color in force at
/// every such cell is its own.
pub proof fn law_colors_are_set_where_they_change(grid: &AsciiGrid, row: int, n: nat)
    ensures
        render::ansi_cells(grid, row, n).1 == last_color(grid, row, n),
        render::ansi_cells(grid, row, n + 1).0 == render::ansi_cells(grid, row, n).0 + if grid.cell(
            row,
            n as int,
        ).ch != ' ' && last_color(grid, row, n) != Some(grid.cell(row, n as int).color) {
            render::color_escape(grid.cell(row, n as int).color)
        } else {
            Seq::empty()
        } + seq![grid.cell(row, n as int).ch],
        grid.cell(row, n as int).ch != ' ' ==> render::ansi_cells(grid, row, n + 1).1 == Some(
            grid.cell(row, n as int).color,
        ),
    decreases n,
{
    if n > 0 {
        law_colors_are_set_where_they_change(grid, row, (n - 1) as nat);
    }
    let (out, last) = render::ansi_cells(grid, row, n);
    let ch = grid.cell(row, n as int).ch;
    assert(out + seq![ch] =~= out + Seq::<char>::empty() + seq![ch]);
}

/// Every row ends in a reset of the color and a line end.
pub proof fn law_rows_reset_the_color(grid: &AsciiGrid, rows: nat)
    requires
        rows > 0,
    ensures
        "\x1b[0m\n"@.is_suffix_of(render::ansi_rows(grid, rows)),
{
    let all = render::ansi_rows(grid, rows);
    let reset = "\x1b[0m\n"@;
    assert(all.subrange(all.len() - reset.len(), all.len() as int) =~= reset);
}

/// A row of blank cells carries no color.
pub proof fn law_blank_rows_carry_no_color(grid: &AsciiGrid, row: int, n: nat)
    requires
        forall|col: int| 0 <= col < n ==> (#[trigger] grid.cell(row, col)).ch == ' ',
    ensures
        render::ansi_cells(grid, row, n).1 is None,
        render::ansi_cells(grid, row, n).0 == Seq::new(n, |i: int| ' '),
    decreases n,
{
    if n > 0 {
        law_blank_rows_carry_no_color(grid, row, (n - 1) as nat);
        assert(grid.cell(row, n - 1).ch == ' ');
    }
    assert(render::ansi_cells(grid, row, n).0 =~= Seq::new(n, |i: int| ' '));
}

} // verus!
