//! What braille makes of plain black and plain white pictures.

use crate::engine;
use crate::engine::braille;
use crate::engine::geometry;
use crate::engine::laws;
use crate::engine::sampling;
use crate::engine::sampling::Sample;
use crate::engine::{Options, FULL};
use crate::float;
use crate::float::order;
use crate::float::ratio;
use crate::float::{Double, Single};
use crate::pixels::RgbaImage;
use vstd::arithmetic::div_mod::*;
use vstd::arithmetic::power2::*;
use vstd::prelude::*;

verus! {

/// Whether a level is one of the two output levels.
pub open spec fn settled(level: Single) -> bool {
    level.bits == 0 || level.bits == braille::LIGHT
}

/// Nothing has no magnitude.
proof fn lemma_nothing()
    ensures
        float::single().units(0) == 0,
        float::double().units(0) == 0,
{
    assert(0 * pow2(0) == 0);
}

/// Nothing rounds to nothing.
proof fn lemma_round_nothing(den: nat)
    requires
        den > 0,
    ensures
        float::single().round(0, den) == 0,
{
    let f = float::single();
    lemma2_to64();
    lemma_fundamental_div_mod_converse(0, den as int, 0, 0);
    assert(den * 1 == den);
    assert(0 * f.hidden() == 0);
}

/// Shares of no error are nothing.
proof fn lemma_no_share(bits: u32)
    requires
        0 < bits < 0x7f80_0000,
    ensures
        (Single { bits: 0 }).times((Single { bits })).bits == 0,
{
    let f = float::single();
    lemma_nothing();
    reveal(Single::spec_times);
    lemma_pow2_pos(149);
    let x = f.units(bits as nat);
    assert(0 * x == 0) by (nonlinear_arith);
    lemma_round_nothing(pow2(149));
}

/// An output level stays as it is when nothing is added, and leaves no error when
/// it is taken for itself.
proof fn lemma_settled(level: Single)
    requires
        settled(level),
    ensures
        level.plus((Single { bits: 0 })) == level,
        level.minus(level) == (Single { bits: 0 }),
        level.less((Single { bits: braille::PIVOT })) == (level.bits == 0),
        (Single { bits: braille::LIGHT }).minus((Single { bits: 0 })).bits == braille::LIGHT,
{
    let f = float::single();
    lemma_nothing();
    reveal(Single::spec_plus);
    reveal(Single::spec_minus);
    reveal(Single::spec_less);
    order::lemma_round_exact(f, braille::LIGHT as nat);
    order::lemma_units_positive(f, braille::LIGHT as nat);
}

/// Adding nothing to any dot changes nothing.
proof fn lemma_nudged(levels: Seq<Single>, w: int, h: int, x: int, y: int)
    requires
        w > 0,
        levels.len() == w * h,
        forall|i: int| 0 <= i < levels.len() ==> settled(#[trigger] levels[i]),
    ensures
        braille::nudged(levels, w, h, x, y, (Single { bits: 0 })) == levels,
{
    if 0 <= x < w && 0 <= y < h {
        let at = y * w + x;
        assert(0 <= at < w * h) by (nonlinear_arith)
            requires
                at == y * w + x,
                0 <= x < w,
                0 <= y,
                y + 1 <= h,
        ;
        lemma_settled(levels[at]);
        assert(levels.update(at, levels[at]) =~= levels);
    }
}

/// Where every dot starts at an output level, dithering decides each by itself.
proof fn lemma_dithered(dots: Seq<Sample>, w: int, h: int, invert: bool, threshold: u8, n: nat)
    requires
        w > 0,
        dots.len() == w * h,
        n <= dots.len(),
        forall|i: int|
            0 <= i < dots.len() ==> (#[trigger] dots[i]).alpha == 255 && settled(
                braille::start_level(dots[i], invert),
            ),
    ensures
        ({
            let (levels, lit) = braille::dithered(dots, w, h, invert, threshold, n);
            &&& levels == Seq::new(dots.len(), |i: int| braille::start_level(dots[i], invert))
            &&& lit.len() == dots.len()
            &&& forall|i: int|
                0 <= i < n ==> #[trigger] lit[i] == (braille::start_level(dots[i], invert).bits
                    == 0)
        }),
    decreases n,
{
    if n > 0 {
        let i = n - 1;
        lemma_dithered(dots, w, h, invert, threshold, i as nat);
        let (levels, lit) = braille::dithered(dots, w, h, invert, threshold, i as nat);
        let level = levels[i];
        assert(dots[i].alpha == 255);
        lemma_settled(level);
        lemma_no_share(braille::RIGHT);
        lemma_no_share(braille::DOWN_LEFT);
        lemma_no_share(braille::DOWN);
        lemma_no_share(braille::DOWN_RIGHT);
        let (x, y) = (i % w, i / w);
        assert forall|j: int| 0 <= j < levels.len() implies settled(#[trigger] levels[j]) by {
            assert(dots[j].alpha == 255);
        }
        lemma_nudged(levels, w, h, x + 1, y);
        lemma_nudged(levels, w, h, x - 1, y + 1);
        lemma_nudged(levels, w, h, x, y + 1);
        lemma_nudged(levels, w, h, x + 1, y + 1);
    }
}

/// The luma of black, and the levels of black and white.
proof fn lemma_levels()
    ensures
        sampling::spec_luma([0u8, 0u8, 0u8]).bits == 0,
        (Double { bits: 0 }).to_single().bits == 0,
        (Double { bits: FULL }).to_single().bits == braille::LIGHT,
{
    laws::lemma_luma_black();
    let (f, s) = (float::double(), float::single());
    let (small, one) = (pow2(149), pow2(1074));
    reveal(Double::spec_to_single);
    lemma_nothing();
    lemma2_to64();
    lemma2_to64_rest();
    lemma_pow2_pos(1074);
    assert(0 * small == 0) by (nonlinear_arith);
    lemma_round_nothing(one);
    // 255 is held by both formats.
    assert(f.mant(FULL as nat) == 0x1f_e000_0000_0000 && f.expo(FULL as nat) == 1029);
    lemma_pow2_adds(45, 1029);
    assert(f.units(FULL as nat) == 255 * one) by (nonlinear_arith)
        requires
            f.units(FULL as nat) == 0x1f_e000_0000_0000 * pow2(1029),
            one == 0x2000_0000_0000 * pow2(1029),
    ;
    let light = braille::LIGHT as nat;
    assert(s.mant(light) == 0xff_0000 && s.expo(light) == 133);
    lemma_pow2_adds(16, 133);
    assert(s.units(light) == 255 * small) by (nonlinear_arith)
        requires
            s.units(light) == 0xff_0000 * pow2(133),
            small == 0x1_0000 * pow2(133),
    ;
    assert((255 * one) * small == (255 * small) * one) by (nonlinear_arith);
    assert(1 * one == one);
    ratio::lemma_round_scale(s, 255 * small, 1, one);
    order::lemma_round_exact(s, light);
}

/// The bits of a cell whose dots are all on, or all off.
pub proof fn lemma_all_bits(lit: Seq<bool>, cols: u32, row: int, col: int, on: bool)
    requires
        forall|k: int|
            0 <= k < 8 ==> lit[#[trigger] braille::dot_index(cols, row, col, k)] == on,
    ensures
        braille::cell_bits(lit, cols, row, col, 8) == if on {
            0xffu8
        } else {
            0u8
        },
{
    reveal_with_fuel(braille::cell_bits, 9);
    assert(lit[braille::dot_index(cols, row, col, 0)] == on);
    assert(lit[braille::dot_index(cols, row, col, 1)] == on);
    assert(lit[braille::dot_index(cols, row, col, 2)] == on);
    assert(lit[braille::dot_index(cols, row, col, 3)] == on);
    assert(lit[braille::dot_index(cols, row, col, 4)] == on);
    assert(lit[braille::dot_index(cols, row, col, 5)] == on);
    assert(lit[braille::dot_index(cols, row, col, 6)] == on);
    assert(lit[braille::dot_index(cols, row, col, 7)] == on);
    assert(((((((0u8 | 0x01 | 0x08) | 0x02) | 0x10) | 0x04) | 0x20) | 0x40) | 0x80 == 0xff)
        by (bit_vector);
}

/// Whether a picture of one color leaves every dot at an output level, and at
/// which one.
proof fn lemma_start(color: [u8; 3], invert: bool)
    requires
        color == [0u8, 0u8, 0u8] || color == [255u8, 255u8, 255u8],
    ensures
        ({
            let s = Sample { color, alpha: 255, luma: sampling::spec_luma(color) };
            let level = braille::start_level(s, invert);
            &&& settled(level)
            &&& (level.bits == 0) == ((color == [0u8, 0u8, 0u8]) != invert)
        }),
{
    lemma_levels();
    laws::lemma_luma_white();
    lemma_settled((Single { bits: 0 }));
    lemma_settled((Single { bits: braille::LIGHT }));
    assert([0u8, 0u8, 0u8][0] != [255u8, 255u8, 255u8][0]);
}

/// Black fills every dot of a braille cell and white leaves it blank, or the other
/// way round where brightness is inverted.
pub proof fn law_braille_black_is_full_and_white_is_blank(
    image: &RgbaImage,
    color: [u8; 3],
    opts: &Options,
    row: int,
    col: int,
)
    requires
        color == [0u8, 0u8, 0u8] || color == [255u8, 255u8, 255u8],
        laws::flat(image, color),
        opts.charset is Braille,
        opts.braille_threshold is None,
        engine::convert_error(image, opts) is None,
        0 <= row < engine::grid_geometry(image, opts).rows,
        0 <= col < engine::grid_geometry(image, opts).cols,
    ensures
        engine::spec_cell(image, opts, row, col).ch == if (color == [0u8, 0u8, 0u8])
            != opts.invert {
            '\u{28FF}'
        } else {
            ' '
        },
{
    let g = engine::grid_geometry(image, opts);
    let dots = braille::spec_dots(image, g, opts.matte);
    let (w, h) = (2 * g.cols, 4 * g.rows);
    let on = (color == [0u8, 0u8, 0u8]) != opts.invert;
    geometry::lemma_fits(image.width(), image.height(), opts.width, opts.aspect);
    assert(dots.len() == w * h) by (nonlinear_arith)
        requires
            dots.len() == g.rows * (8 * g.cols),
            w == 2 * g.cols,
            h == 4 * g.rows,
    ;
    lemma_start(color, opts.invert);
    assert forall|i: int| 0 <= i < dots.len() implies #[trigger] dots[i] == (Sample {
        color,
        alpha: 255,
        luma: sampling::spec_luma(color),
    }) by {
        let span = braille::lemma_dot_span(g, i);
        laws::lemma_flat_sample(image, color, span, opts.matte);
    }
    lemma_dithered(dots, w, h, opts.invert, opts.alpha_threshold, dots.len());
    let lit = braille::spec_lit(dots, g, opts);
    assert forall|k: int| 0 <= k < 8 implies lit[#[trigger] braille::dot_index(
        g.cols,
        row,
        col,
        k,
    )] == on by {
        braille::lemma_dot_index(g.cols, g.rows, row, col, k);
        let i = braille::dot_index(g.cols, row, col, k);
        assert(dots[i].alpha == 255);
    }
    lemma_all_bits(lit, g.cols, row, col, on);
    laws::law_flat_images_keep_their_color(image, color, opts, row, col);
}

} // verus!
