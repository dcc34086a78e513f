//! What inverting a conversion does to its result.

use crate::charset::Charset;
use crate::engine;
use crate::engine::braille;
use crate::engine::geometry;
use crate::engine::laws;
use crate::engine::sampling;
use crate::engine::sampling::Sample;
use crate::engine::{AsciiGrid, Options};
use crate::float;
use crate::float::Double;
use crate::pixels::RgbaImage;
use vstd::arithmetic::div_mod::*;
use vstd::prelude::*;

verus! {

/// Whether two sets of options ask for the same conversion, but for the charset and
/// the direction.
pub open spec fn alike_but_direction(a: &Options, b: &Options) -> bool {
    &&& a.width == b.width
    &&& a.aspect == b.aspect
    &&& a.alpha_threshold == b.alpha_threshold
    &&& a.matte == b.matte
    &&& a.braille_threshold == b.braille_threshold
}

/// Whether an index into the cells of a grid is that of a row and a column.
proof fn lemma_cell_at(cols: u32, rows: u32, i: int)
    requires
        0 <= i < rows * cols,
    ensures
        0 <= i / cols as int,
        i / (cols as int) < rows,
        0 <= i % cols as int,
        i % (cols as int) < cols,
        engine::cell_index(cols, i / cols as int, i % cols as int) == i,
{
    let w = cols as int;
    assert(w > 0) by (nonlinear_arith)
        requires
            0 <= i < rows * w,
            w >= 0,
    ;
    lemma_fundamental_div_mod(i, w);
    let (row, col) = (i / w, i % w);
    assert(0 <= row < rows && row * w + col == i) by (nonlinear_arith)
        requires
            i == w * row + col,
            0 <= col < w,
            0 <= i < rows * w,
    ;
}

/// Inverting a ramp is the same as reversing it: the two conversions give equal
/// grids.
pub proof fn law_inverting_reverses_the_ramp(
    p: &AsciiGrid,
    q: &AsciiGrid,
    image: &RgbaImage,
    a: &Options,
    b: &Options,
    ramp: Vec<char>,
    back: Vec<char>,
)
    requires
        a.charset == Charset::Ramp(ramp),
        b.charset == Charset::Ramp(back),
        back@ == ramp@.reverse(),
        a.invert != b.invert,
        alike_but_direction(a, b),
        engine::convert_error(image, a) is None,
        engine::is_conversion(p, image, a),
        engine::is_conversion(q, image, b),
    ensures
        p.cols == q.cols,
        p.rows == q.rows,
        p.chars@ == q.chars@,
        p.colors@ == q.colors@,
        p.alphas@ == q.alphas@,
{
    let g = engine::grid_geometry(image, a);
    let n = ramp.len();
    assert(n == ramp@.len());
    assert forall|i: int| 0 <= i < g.rows * g.cols implies p.chars@[i] == q.chars@[i]
        && p.colors@[i] == q.colors@[i] && p.alphas@[i] == q.alphas@[i] by {
        lemma_cell_at(g.cols, g.rows, i);
        let (row, col) = (i / g.cols as int, i % g.cols as int);
        let s = sampling::spec_sample(image, g.span(row as u32, col as u32), a.matte);
        laws::law_invert_mirrors_the_ramp(s.luma, n);
        assert(p.cell(row, col) == q.cell(row, col));
    }
    assert(p.chars@ =~= q.chars@);
    assert(p.colors@ =~= q.colors@);
    assert(p.alphas@ =~= q.alphas@);
}

/// The dots of the character of a braille cell: none where it is blank.
pub open spec fn cell_pattern(ch: char) -> u8 {
    if ch == ' ' {
        0
    } else {
        (ch as u32 - 0x2800) as u8
    }
}

/// One more dot, which is ink on one side only.
proof fn lemma_one_more(a: u8, b: u8, seen: u8, dot: u8)
    requires
        a & b == 0,
        a | b == seen,
        seen & dot == 0,
    ensures
        (a | dot) & b == 0,
        a & (b | dot) == 0,
        (a | dot) | b == seen | dot,
        a | (b | dot) == seen | dot,
{
    assert((a | dot) & b == 0 && a & (b | dot) == 0 && (a | dot) | b == seen | dot && a | (b | dot)
        == seen | dot) by (bit_vector)
        requires
            a & b == 0,
            a | b == seen,
            seen & dot == 0,
    ;
}

/// Where every dot of a cell is ink on exactly one of two sides, the patterns make up
/// a full one.
proof fn lemma_complement(lit: Seq<bool>, other: Seq<bool>, cols: u32, row: int, col: int)
    requires
        forall|k: int|
            0 <= k < 8 ==> lit[#[trigger] braille::dot_index(cols, row, col, k)]
                != other[braille::dot_index(cols, row, col, k)],
    ensures
        braille::cell_bits(lit, cols, row, col, 8) ^ braille::cell_bits(other, cols, row, col, 8)
            == 0xff,
{
    reveal_with_fuel(braille::cell_bits, 9);
    let a = |k: nat| braille::cell_bits(lit, cols, row, col, k);
    let b = |k: nat| braille::cell_bits(other, cols, row, col, k);
    assert(0u8 & 0 == 0 && 0u8 | 0 == 0 && 0u8 | 0x01 == 0x01 && 0x01u8 | 0x08 == 0x09 && 0x09u8
        | 0x02 == 0x0b && 0x0bu8 | 0x10 == 0x1b && 0x1bu8 | 0x04 == 0x1f && 0x1fu8 | 0x20 == 0x3f
        && 0x3fu8 | 0x40 == 0x7f && 0x7fu8 | 0x80 == 0xff) by (bit_vector);
    assert(0u8 & 0x01 == 0 && 0x01u8 & 0x08 == 0 && 0x09u8 & 0x02 == 0 && 0x0bu8 & 0x10 == 0
        && 0x1bu8 & 0x04 == 0 && 0x1fu8 & 0x20 == 0 && 0x3fu8 & 0x40 == 0 && 0x7fu8 & 0x80 == 0)
        by (bit_vector);
    assert(lit[braille::dot_index(cols, row, col, 0)] != other[braille::dot_index(
        cols,
        row,
        col,
        0,
    )]);
    lemma_one_more(a(0), b(0), 0, 0x01);
    lemma_step(lit, other, cols, row, col, 0x01, 0x08, 1);
    lemma_step(lit, other, cols, row, col, 0x09, 0x02, 2);
    lemma_step(lit, other, cols, row, col, 0x0b, 0x10, 3);
    lemma_step(lit, other, cols, row, col, 0x1b, 0x04, 4);
    lemma_step(lit, other, cols, row, col, 0x1f, 0x20, 5);
    lemma_step(lit, other, cols, row, col, 0x3f, 0x40, 6);
    lemma_step(lit, other, cols, row, col, 0x7f, 0x80, 7);
    let (x, y) = (a(8), b(8));
    assert(x ^ y == 0xff) by (bit_vector)
        requires
            x & y == 0,
            x | y == 0xffu8,
    ;
}

/// Dot `k` of a cell, after those before it made up `seen`.
proof fn lemma_step(
    lit: Seq<bool>,
    other: Seq<bool>,
    cols: u32,
    row: int,
    col: int,
    seen: u8,
    dot: u8,
    k: nat,
)
    requires
        k < 8,
        dot == braille::spec_dot_bit((k % 2) as u32, (k / 2) as u32),
        lit[braille::dot_index(cols, row, col, k as int)] != other[braille::dot_index(
            cols,
            row,
            col,
            k as int,
        )],
        seen & dot == 0,
        braille::cell_bits(lit, cols, row, col, k) & braille::cell_bits(other, cols, row, col, k)
            == 0,
        braille::cell_bits(lit, cols, row, col, k) | braille::cell_bits(other, cols, row, col, k)
            == seen,
    ensures
        braille::cell_bits(lit, cols, row, col, k + 1) & braille::cell_bits(
            other,
            cols,
            row,
            col,
            k + 1,
        ) == 0,
        braille::cell_bits(lit, cols, row, col, k + 1) | braille::cell_bits(
            other,
            cols,
            row,
            col,
            k + 1,
        ) == seen | dot,
{
    lemma_one_more(
        braille::cell_bits(lit, cols, row, col, k),
        braille::cell_bits(other, cols, row, col, k),
        seen,
        dot,
    );
}

/// Of two numbers that are not the same and not below zero, one is less.
proof fn lemma_apart(luma: Double, limit: Double)
    requires
        luma.bits <= float::double().inf(),
        limit.bits <= float::double().inf(),
        luma != limit,
    ensures
        luma.less(limit) != limit.less(luma),
{
    reveal(Double::spec_less);
}

/// The character of a braille cell of opaque dots stands for its dots.
proof fn lemma_pattern(dots: Seq<Sample>, lit: Seq<bool>, threshold: u8, cols: u32, row: int, col: int)
    requires
        forall|k: int|
            0 <= k < 8 ==> dots[#[trigger] braille::dot_index(cols, row, col, k)].alpha == 255,
    ensures
        cell_pattern(braille::spec_braille_cell(dots, lit, threshold, cols, row, col).ch)
            == braille::cell_bits(lit, cols, row, col, 8),
{
    laws::lemma_opaque_dots(dots, cols, row, col, 8);
    let bits = braille::cell_bits(lit, cols, row, col, 8);
    assert((0x2800 + bits) as char as u32 == 0x2800 + bits);
}

/// Inverting a conversion of an opaque image into braille with a hard cutoff turns
/// every dot over, where no dot has exactly the luma of the cutoff, and changes
/// nothing else.
pub proof fn law_inverting_complements_hard_patterns(
    p: &AsciiGrid,
    q: &AsciiGrid,
    image: &RgbaImage,
    a: &Options,
    b: &Options,
    t: u8,
)
    requires
        image.wf(),
        laws::opaque(image),
        a.charset is Braille,
        b.charset is Braille,
        a.braille_threshold == Some(t),
        a.invert != b.invert,
        alike_but_direction(a, b),
        engine::convert_error(image, a) is None,
        engine::is_conversion(p, image, a),
        engine::is_conversion(q, image, b),
        ({
            let dots = braille::spec_dots(image, engine::grid_geometry(image, a), a.matte);
            forall|i: int|
                0 <= i < dots.len() ==> (#[trigger] dots[i]).luma != Double::from_u64(t as u64)
        }),
    ensures
        p.cols == q.cols,
        p.rows == q.rows,
        p.colors@ == q.colors@,
        p.alphas@ == q.alphas@,
        p.chars@.len() == q.chars@.len(),
        forall|i: int|
            0 <= i < p.chars@.len() ==> cell_pattern(#[trigger] p.chars@[i]) ^ cell_pattern(
                q.chars@[i],
            ) == 0xff,
{
    let g = engine::grid_geometry(image, a);
    let dots = braille::spec_dots(image, g, a.matte);
    let (x, y) = (braille::spec_lit(dots, g, a), braille::spec_lit(dots, g, b));
    let limit = Double::from_u64(t as u64);
    geometry::lemma_fits(image.width(), image.height(), a.width, a.aspect);
    assert forall|i: int| 0 <= i < dots.len() implies #[trigger] dots[i].alpha == 255 && x[i]
        != y[i] by {
        let span = braille::lemma_dot_span(g, i);
        laws::law_opaque_sample(image, span, a.matte, a.matte);
        laws::lemma_luma_mono(dots[i].color, dots[i].color);
        laws::lemma_from_mono(t as u64, t as u64);
        lemma_apart(dots[i].luma, limit);
    }
    assert forall|i: int|
        #![trigger p.chars@[i]]
        #![trigger p.colors@[i]]
        #![trigger p.alphas@[i]]
        0 <= i < g.rows * g.cols implies cell_pattern(p.chars@[i]) ^ cell_pattern(q.chars@[i])
        == 0xff && p.colors@[i] == q.colors@[i] && p.alphas@[i] == q.alphas@[i] by {
        lemma_cell_at(g.cols, g.rows, i);
        let (row, col) = (i / g.cols as int, i % g.cols as int);
        assert forall|k: int| 0 <= k < 8 implies x[#[trigger] braille::dot_index(
            g.cols,
            row,
            col,
            k,
        )] != y[braille::dot_index(g.cols, row, col, k)] && dots[braille::dot_index(
            g.cols,
            row,
            col,
            k,
        )].alpha == 255 by {
            braille::lemma_dot_index(g.cols, g.rows, row, col, k);
            assert(dots[braille::dot_index(g.cols, row, col, k)].alpha == 255);
        }
        lemma_complement(x, y, g.cols, row, col);
        lemma_pattern(dots, x, a.alpha_threshold, g.cols, row, col);
        lemma_pattern(dots, y, a.alpha_threshold, g.cols, row, col);
        assert(p.cell(row, col) == engine::spec_cell(image, a, row, col));
        assert(q.cell(row, col) == engine::spec_cell(image, b, row, col));
    }
    assert(p.colors@ =~= q.colors@);
    assert(p.alphas@ =~= q.alphas@);
}

} // verus!
