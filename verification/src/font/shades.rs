//! How dark glyphs are, in exact numbers.

use crate::float;
use crate::float::code;
use crate::float::near;
use crate::float::Single;
use crate::font;
use crate::font::measures;
use crate::paint::discs;
use crate::paint::exact;
use vstd::arithmetic::power2::*;
use vstd::prelude::*;

verus! {

/// Whether the coverages of pixels are shares: none below zero, and none above one.
pub open spec fn shares(ink: Seq<(u32, u32, u32)>) -> bool {
    forall|i: int|
        0 <= i < ink.len() ==> {
            &&& (#[trigger] ink[i]).2 < float::single().inf()
            &&& near::single_value((Single { bits: ink[i].2 })) <= exact::one()
        }
}

/// The sum of the coverages of the first `n` pixels, in units of 2^-149.
pub open spec fn all_ink(ink: Seq<(u32, u32, u32)>, n: nat) -> int
    decreases n,
{
    if n == 0 {
        0
    } else {
        near::single_value((Single { bits: ink[n - 1].2 })) + all_ink(ink, (n - 1) as nat)
    }
}

/// Ink adds up: the sum is off by less than a part in 2^23 for each pixel, for glyphs of up to
/// 2^20 pixels.
pub proof fn law_ink_adds_up(ink: Seq<(u32, u32, u32)>, n: nat)
    requires
        shares(ink),
        n <= ink.len(),
        n <= 0x10_0000,
    ensures
        ({
            let (s, t) = (near::single_value(font::ink_sum(ink, n)), all_ink(ink, n));
            &&& font::ink_sum(ink, n).bits < float::single().inf()
            &&& 0 <= t <= n * exact::one()
            &&& 0x80_0000 * (s - t) <= n * t
            &&& 0x80_0000 * (t - s) <= n * t
        }),
    decreases n,
{
    let f = float::single();
    let z = exact::one() as int;
    assert(f.units(0) == 0) by {
        assert(0 * pow2(0) == 0);
    }
    lemma_pow2_pos(149);
    if n == 0 {
        assert(0 * z == 0 && 0 * 0 == 0);
    } else {
        let k = (n - 1) as nat;
        law_ink_adds_up(ink, k);
        let before = font::ink_sum(ink, k);
        let own = Single { bits: ink[n - 1].2 };
        let after = font::ink_sum(ink, n);
        let (s, t) = (near::single_value(before), all_ink(ink, k));
        let c = near::single_value(own);
        let (v, u) = (near::single_value(after), all_ink(ink, n));
        assert(ink[n - 1].2 < f.inf());
        assert(s >= 0 && c >= 0);
        reveal(Single::spec_plus);
        code::lemma_round_zero(f);
        let d = s + c;
        assert(after.bits == f.join(false, f.round(d as nat, 1)));
        assert(k * z <= 0x10_0000 * z && n * z == k * z + z && k * t <= 0x10_0000 * t && k * t >= 0)
            by (nonlinear_arith)
            requires
                k <= 0x10_0000,
                k >= 0,
                n == k + 1,
                z > 0,
                t >= 0,
        ;
        lemma2_to64();
        lemma_pow2_adds(44, 149);
        lemma2_to64_rest();
        assert(exact::size(d) <= pow2(193));
        discs::lemma_single_off(d, after);
        assert(u == t + c);
        assert(n * u == k * t + k * c + t + c && k * c >= 0) by (nonlinear_arith)
            requires
                n == k + 1,
                u == t + c,
                k >= 0,
                c >= 0,
        ;
    }
}

/// How dark a glyph is: its ink by the area of its cell, which is the advance times the size;
/// where both are of a usual size, up to a part in 2^24. A character without a glyph or an
/// outline has none.
pub proof fn law_shade_is_ink_by_area(fonts: Seq<Seq<u8>>, c: char, px: Single)
    ensures
        match font::spec_locate(fonts, c, 0) {
            None => font::spec_coverage(fonts, c, px).bits == 0,
            Some(loc) => {
                let data = fonts[loc.font as int];
                let area = (Single { bits: font::font_advance(data, loc.glyph, px.bits) }).times(px);
                let ink = font::glyph_ink(
                    data,
                    loc.glyph,
                    px.bits,
                    0,
                    font::font_ascent(data, px.bits),
                );
                let sum = font::ink_sum(ink, ink.len());
                let shade = font::spec_coverage(fonts, c, px);
                &&& font::glyph_outline(data, loc.glyph) is None ==> shade.bits == 0
                &&& font::glyph_outline(data, loc.glyph) is Some && measures::usual(area)
                    && measures::usual(sum) ==> {
                    let (s, a, t) = (
                        near::single_value(shade),
                        near::single_value(area),
                        near::single_value(sum) * exact::one(),
                    );
                    &&& (s * a) * 0x100_0000 <= t * 0x100_0001
                    &&& t * 0xff_ffff <= (s * a) * 0x100_0000
                }
            },
        },
{
    if let Some(loc) = font::spec_locate(fonts, c, 0) {
        let data = fonts[loc.font as int];
        let area = (Single { bits: font::font_advance(data, loc.glyph, px.bits) }).times(px);
        let ink = font::glyph_ink(data, loc.glyph, px.bits, 0, font::font_ascent(data, px.bits));
        let sum = font::ink_sum(ink, ink.len());
        if measures::usual(area) && measures::usual(sum) {
            let zero = Single { bits: 0 };
            lemma_pow2_pos(133);
            assert(float::single().units(0) == 0) by {
                assert(0 * pow2(0) == 0);
            }
            discs::lemma_less(zero, area);
            discs::lemma_less(area, zero);
            measures::lemma_quotient(sum, area);
        }
    }
}

} // verus!
