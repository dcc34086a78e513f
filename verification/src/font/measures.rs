//! What measured cells are like.

use crate::float;
use crate::float::near;
use crate::float::order;
use crate::float::Single;
use crate::font;
use crate::font::CellMetrics;
use crate::paint;
use crate::paint::brightness;
use crate::paint::discs;
use crate::paint::exact;
use vstd::arithmetic::div_mod::*;
use vstd::arithmetic::power2::*;
use vstd::prelude::*;

verus! {

/// A character is taken from the first font that has a glyph for it, and from none where no
/// font has one.
pub proof fn law_first_font_wins(fonts: Seq<Seq<u8>>, c: char, from: int)
    requires
        0 <= from <= fonts.len() <= usize::MAX,
    ensures
        match font::spec_locate(fonts, c, from) {
            Some(loc) => {
                &&& from <= loc.font < fonts.len()
                &&& loc.glyph == font::font_glyph(fonts[loc.font as int], c)
                &&& loc.glyph != 0
                &&& forall|i: int|
                    from <= i < loc.font ==> font::font_glyph(#[trigger] fonts[i], c) == 0
            },
            None => forall|i: int|
                from <= i < fonts.len() ==> font::font_glyph(#[trigger] fonts[i], c) == 0,
        },
    decreases fonts.len() - from,
{
    if from < fonts.len() && font::font_glyph(fonts[from], c) == 0 {
        law_first_font_wins(fonts, c, from + 1);
    }
}

/// Whole numbers come back from the format.
proof fn lemma_whole(k: nat)
    requires
        k < 0x100_0000,
    ensures
        ({
            let f = float::single();
            let v = Single { bits: f.join(false, f.round(k * exact::one(), 1)) as u32 };
            &&& exact::finite(v)
            &&& v.bits < f.inf()
            &&& near::single_value(v) == k * exact::one()
            &&& v.to_u32() == k
        }),
{
    let f = float::single();
    let z = exact::one();
    reveal(Single::spec_to_u64);
    lemma_pow2_pos(149);
    order::lemma_round_representable(f, k, 149);
    lemma_div_multiples_vanish(k as int, z as int);
    assert(k * z == z * k) by (nonlinear_arith);
}

/// The smallest whole number that is not below a number, and at least one.
proof fn lemma_up(v: Single)
    requires
        exact::finite(v),
        near::single_value(v) <= 0xff_ffff * exact::one(),
    ensures
        ({
            let n = v.ceil().max((Single { bits: paint::ONE })).to_u32();
            &&& n >= 1
            &&& near::single_value(v) <= n * exact::one()
            &&& n == 1 || (n - 1) * exact::one() < near::single_value(v)
        }),
{
    let f = float::single();
    let z = exact::one() as int;
    let b = v.bits as u64;
    let one = Single { bits: paint::ONE };
    let up = v.ceil();
    lemma_pow2_pos(149);
    brightness::lemma_known();
    lemma_whole(1);
    assert(1 * exact::one() == exact::one());
    order::lemma_round_exact(f, paint::ONE as nat);
    assert(one.bits == f.join(false, f.round(1 * exact::one(), 1)));
    let u = f.units(f.mag(b)) as int;
    reveal(Single::spec_ceil);
    if f.neg(b) {
        reveal(Single::spec_less);
        reveal(Single::spec_is_nan);
        let n = f.whole(f.mag(b), float::code::Whole::Trunc);
        assert(f.neg(up.bits as u64));
        assert(!f.neg(one.bits as u64));
        assert(f.mag(one.bits as u64) > 0);
        assert(up.is_nan() || up.less(one));
        assert(up.max(one) == one);
    } else {
        let k = (u + z - 1) / z;
        lemma_fundamental_div_mod(u + z - 1, z);
        let rest = (u + z - 1) % z;
        assert(0 <= k <= 0xff_ffff && u <= k * z && (k - 1) * z < u) by (nonlinear_arith)
            requires
                u + z - 1 == z * k + rest,
                0 <= rest < z,
                0 <= u <= 0xff_ffff * z,
                z > 0,
        ;
        lemma_whole(k as nat);
        assert(up.bits == f.join(false, f.round(k as nat * exact::one(), 1)));
        discs::lemma_less(up, one);
        assert(k * z < z <==> k < 1) by (nonlinear_arith)
            requires
                z > 0,
        ;
        if k < 1 {
            assert(u <= 1 * z) by (nonlinear_arith)
                requires
                    u <= k * z,
                    k < 1,
                    z > 0,
            ;
        }
    }
}

/// The advance of the widest glyph so far is the one of some glyph, and not below any.
proof fn lemma_widest(fonts: Seq<Seq<u8>>, chars: Seq<char>, px: Single, n: nat) -> (at: (int, int))
    requires
        n <= chars.len(),
        forall|i: int| #[trigger] measured(fonts, chars, px, i),
    ensures
        ({
            let (width, ascent) = font::widest(fonts, chars, px, n);
            &&& exact::finite(width)
            &&& exact::finite(ascent)
            &&& -1 <= at.0 < n
            &&& -1 <= at.1 < n
            &&& width == advance_at(fonts, chars, px, at.0)
            &&& ascent == ascent_at(fonts, chars, px, at.1)
            &&& at.0 < 0 || font::spec_locate(fonts, chars[at.0], 0) is Some
            &&& at.1 < 0 || font::spec_locate(fonts, chars[at.1], 0) is Some
            &&& forall|i: int|
                -1 <= i < n && (i < 0 || font::spec_locate(fonts, chars[i], 0) is Some) ==> {
                    &&& near::single_value(#[trigger] advance_at(fonts, chars, px, i))
                        <= near::single_value(width)
                    &&& near::single_value(ascent_at(fonts, chars, px, i)) <= near::single_value(
                        ascent,
                    )
                }
        }),
    decreases n,
{
    assert(measured(fonts, chars, px, n - 1));
    if n == 0 {
        (-1, -1)
    } else {
        let at = lemma_widest(fonts, chars, px, (n - 1) as nat);
        if font::spec_locate(fonts, chars[n - 1], 0) is Some {
            let (width, ascent) = font::widest(fonts, chars, px, (n - 1) as nat);
            let (w, a) = (advance_at(fonts, chars, px, n - 1), ascent_at(fonts, chars, px, n - 1));
            discs::lemma_less(width, w);
            discs::lemma_less(ascent, a);
            (
                if width.less(w) {
                    n - 1
                } else {
                    at.0
                },
                if ascent.less(a) {
                    n - 1
                } else {
                    at.1
                },
            )
        } else {
            at
        }
    }
}

/// The advance of a character, and of the M of the first font before the first character.
pub open spec fn advance_at(fonts: Seq<Seq<u8>>, chars: Seq<char>, px: Single, i: int) -> Single {
    if i < 0 {
        Single { bits: font::font_advance(fonts[0], font::font_glyph(fonts[0], 'M'), px.bits) }
    } else {
        let loc = font::spec_locate(fonts, chars[i], 0)->0;
        Single { bits: font::font_advance(fonts[loc.font as int], loc.glyph, px.bits) }
    }
}

/// The ascent of the font of a character, and of the first font before the first character.
pub open spec fn ascent_at(fonts: Seq<Seq<u8>>, chars: Seq<char>, px: Single, i: int) -> Single {
    if i < 0 {
        Single { bits: font::font_ascent(fonts[0], px.bits) }
    } else {
        let loc = font::spec_locate(fonts, chars[i], 0)->0;
        Single { bits: font::font_ascent(fonts[loc.font as int], px.bits) }
    }
}

/// Whether a character has measures that are numbers of up to 2^24 pixels.
pub open spec fn measured(fonts: Seq<Seq<u8>>, chars: Seq<char>, px: Single, i: int) -> bool {
    let limit = 0xff_ffff * exact::one();
    -1 <= i < chars.len() && (i < 0 || font::spec_locate(fonts, chars[i], 0) is Some) ==> {
        &&& exact::finite(advance_at(fonts, chars, px, i))
        &&& exact::finite(ascent_at(fonts, chars, px, i))
        &&& near::single_value(advance_at(fonts, chars, px, i)) <= limit
    }
}

/// Cells are made to measure: a cell is as wide as the widest of the characters that some font
/// has and of the M of the first font, rounded up to whole pixels, and as high as the font size,
/// rounded up; and has a pixel at least. Its base line is as low as that of any of the fonts
/// that are used.
pub proof fn law_cells_are_made_to_measure(
    fonts: Seq<Seq<u8>>,
    chars: Seq<char>,
    px: Single,
) -> (at: (int, int))
    requires
        forall|i: int| #[trigger] measured(fonts, chars, px, i),
        exact::finite(px),
        near::single_value(px) <= 0xff_ffff * exact::one(),
    ensures
        ({
            let m = font::spec_metrics(fonts, chars, px);
            let z = exact::one();
            &&& m.width >= 1 && m.height >= 1
            &&& forall|i: int|
                -1 <= i < chars.len() && (i < 0 || font::spec_locate(fonts, chars[i], 0) is Some)
                    ==> {
                    &&& near::single_value(#[trigger] advance_at(fonts, chars, px, i)) <= m.width
                        * z
                    &&& near::single_value(ascent_at(fonts, chars, px, i)) <= near::single_value(
                        m.ascent,
                    )
                }
            &&& -1 <= at.0 < chars.len() && (at.0 < 0 || font::spec_locate(fonts, chars[at.0], 0) is Some)
            &&& -1 <= at.1 < chars.len() && (at.1 < 0 || font::spec_locate(fonts, chars[at.1], 0) is Some)
            &&& m.width == 1 || (m.width - 1) * z < near::single_value(
                advance_at(fonts, chars, px, at.0),
            )
            &&& m.ascent == ascent_at(fonts, chars, px, at.1)
            &&& near::single_value(px) <= m.height * z
            &&& m.height == 1 || (m.height - 1) * z < near::single_value(px)
        }),
{
    let at = lemma_widest(fonts, chars, px, chars.len());
    let (width, ascent) = font::widest(fonts, chars, px, chars.len());
    assert(measured(fonts, chars, px, at.0));
    lemma_up(width);
    lemma_up(px);
    assert(font::ONE == paint::ONE);
    at
}

/// Powers of two that are used here.
proof fn lemma_powers()
    ensures
        pow2(133) >= 0x1000_0000_0000_0000,
        pow2(149) == 0x1_0000 * pow2(133),
        pow2(173) == 0x100_0000_0000 * pow2(133),
        0x80_0000 * pow2(180) == 0x40_0000_0000_0000 * pow2(149),
        0x80_0000 * pow2(200) == 0x400_0000_0000_0000_0000 * pow2(149),
        pow2(109) >= 0x1000_0000_0000_0000,
        pow2(133) == 0x100_0000 * pow2(109),
{
    lemma2_to64();
    lemma2_to64_rest();
    float::ratio::lemma_pow2_mono(60, 109);
    lemma_pow2_adds(16, 133);
    lemma_pow2_adds(40, 133);
    lemma_pow2_adds(23, 180);
    lemma_pow2_adds(54, 149);
    lemma_pow2_adds(24, 109);
    lemma_pow2_adds(23, 200);
    lemma_pow2_adds(10, 64);
    lemma_pow2_adds(74, 149);
}

/// A quotient of usual numbers.
pub proof fn lemma_quotient(a: Single, b: Single) -> (s: int)
    requires
        usual(a),
        usual(b),
    ensures
        ({
            let (x, y, z) = (near::single_value(a), near::single_value(b), exact::one());
            &&& s == near::single_value(a.over(b))
            &&& 0 < a.over(b).bits < float::single().inf()
            &&& (s * y) * 0x100_0000 <= (x * z) * 0x100_0001
            &&& (x * z) * 0xff_ffff <= (s * y) * 0x100_0000
            &&& pow2(109) <= 2 * s && s <= 0x200_0000_0000 * z
        }),
{
    let f = float::single();
    let z = exact::one() as int;
    let (x, y) = (near::single_value(a), near::single_value(b));
    lemma_powers();
    let (p, q) = (pow2(133) as int, pow2(109) as int);
    let big = 0x80_0000 * pow2(180);
    let num = x * z;
    assert(f.units(0) == 0) by {
        assert(0 * pow2(0) == 0);
    }
    assert(0x80_0000 * y <= num && num <= y * big) by (nonlinear_arith)
        requires
            num == x * z,
            p <= x <= 0x100_0000_0000 * p,
            p <= y <= 0x100_0000_0000 * p,
            z == 0x1_0000 * p,
            big == 0x40_0000_0000_0000 * z,
            p >= 0x1000_0000_0000_0000,
    {
        assert(x * z >= p * z);
        assert(p * z >= 0x1000_0000_0000_0000 * z);
        assert(x * z <= (0x100_0000_0000 * p) * z);
        assert(y * big >= p * (0x40_0000_0000_0000 * z));
    }
    reveal(Single::spec_over);
    near::lemma_rounded_single(num as nat, y as nat, 180);
    let r = a.over(b);
    let s = near::single_value(r);
    assert(r.bits == f.round(num as nat, y as nat));
    assert(s * y * 0x100_0000 == (s * y) * 0x100_0000);
    assert(q <= 2 * s && s <= 0x200_0000_0000 * z) by (nonlinear_arith)
        requires
            (s * y) * 0x100_0000 <= num * 0x100_0001,
            num * 0xff_ffff <= (s * y) * 0x100_0000,
            num == x * z,
            p <= x <= 0x100_0000_0000 * p,
            p <= y <= 0x100_0000_0000 * p,
            z == 0x1_0000 * p,
            p == 0x100_0000 * q,
            q > 0,
            s >= 0,
    {
        assert(num <= 2 * (s * y));
        assert(p * z <= num);
        assert(s * y <= s * (0x100_0000_0000 * p));
        assert(p * z <= 2 * (s * (0x100_0000_0000 * p)));
        assert(z <= 2 * (s * 0x100_0000_0000));
        assert(0x1_0000 * (0x100_0000 * q) <= 2 * (s * 0x100_0000_0000));
        assert(s * y <= 2 * num);
        assert(num <= (0x100_0000_0000 * p) * z);
        assert(s * p <= s * y);
        assert(s * p <= 2 * ((0x100_0000_0000 * p) * z));
        assert(s * p <= (0x200_0000_0000 * z) * p);
    }
    s
}

/// Whether a number lies between 2^-16 and 2^24.
pub open spec fn usual(v: Single) -> bool {
    &&& v.bits < float::single().inf()
    &&& pow2(133) <= near::single_value(v) <= pow2(173)
}

/// A number scaled by a quotient, up to a part in 2^22.
proof fn lemma_scaled(a: Single, b: Single, c: Single)
    requires
        usual(a),
        usual(b),
        usual(c),
    ensures
        ({
            let r = a.over(b).times(c);
            let v = near::single_value(r);
            let (x, y, w) = (near::single_value(a), near::single_value(b), near::single_value(c));
            &&& r.bits < float::single().inf()
            &&& (v * y) * 0x3f_ffff <= (x * w) * 0x40_0000
            &&& (x * w) * 0x3f_ffff <= (v * y) * 0x40_0000
        }),
{
    let f = float::single();
    let z = exact::one() as int;
    let (x, y, w) = (near::single_value(a), near::single_value(b), near::single_value(c));
    lemma_powers();
    let s = lemma_quotient(a, b);
    let q = a.over(b);
    let (p, g) = (pow2(133) as int, pow2(109) as int);
    let big = 0x80_0000 * pow2(200);
    let num = s * w;
    assert(0x80_0000 * z <= num && num <= z * big) by (nonlinear_arith)
        requires
            num == s * w,
            g <= 2 * s,
            s <= 0x200_0000_0000 * z,
            p <= w <= 0x100_0000_0000 * p,
            z == 0x1_0000 * p,
            big == 0x400_0000_0000_0000_0000 * z,
            g >= 0x1000_0000_0000_0000,
            p > 0,
            s >= 0,
    {
        assert(2 * num >= g * p);
        assert(g * p >= 0x1000_0000_0000_0000 * p);
        assert(num <= (0x200_0000_0000 * z) * (0x100_0000_0000 * p));
    }
    reveal(Single::spec_times);
    near::lemma_rounded_single(num as nat, z as nat, 200);
    let r = q.times(c);
    let v = near::single_value(r);
    assert(r.bits == f.round(num as nat, z as nat));
    let (sy, xz, vz) = (s * y, x * z, v * z);
    assert(vz * 0x100_0000 <= num * 0x100_0001 && num * 0xff_ffff <= vz * 0x100_0000);
    let (top, mid, low) = (vz * y, num * y, xz * w);
    assert(top * 0x100_0000 <= mid * 0x100_0001 && mid * 0xff_ffff <= top * 0x100_0000)
        by (nonlinear_arith)
        requires
            top == vz * y,
            mid == num * y,
            y > 0,
            vz * 0x100_0000 <= num * 0x100_0001,
            num * 0xff_ffff <= vz * 0x100_0000,
    ;
    assert(mid * 0x100_0000 <= low * 0x100_0001 && low * 0xff_ffff <= mid * 0x100_0000)
        by (nonlinear_arith)
        requires
            mid == num * y,
            num == s * w,
            sy == s * y,
            low == xz * w,
            w > 0,
            sy * 0x100_0000 <= xz * 0x100_0001,
            xz * 0xff_ffff <= sy * 0x100_0000,
    {
        assert(mid == sy * w);
        assert((sy * 0x100_0000) * w <= (xz * 0x100_0001) * w);
        assert((xz * 0xff_ffff) * w <= (sy * 0x100_0000) * w);
    }
    assert(low >= 0 && top == (v * y) * z && low == (x * w) * z) by (nonlinear_arith)
        requires
            top == vz * y,
            vz == v * z,
            low == xz * w,
            xz == x * z,
            x > 0,
            w > 0,
            z > 0,
    ;
    assert(top * 0x3f_ffff <= low * 0x40_0000 && low * 0x3f_ffff <= top * 0x40_0000);
    let (m, n) = (v * y, x * w);
    assert(m * 0x3f_ffff <= n * 0x40_0000 && n * 0x3f_ffff <= m * 0x40_0000) by (nonlinear_arith)
        requires
            (m * z) * 0x3f_ffff <= (n * z) * 0x40_0000,
            (n * z) * 0x3f_ffff <= (m * z) * 0x40_0000,
            z > 0,
    ;
}

/// Fonts are scaled to the size in pixels: advances and ascents have the proportion to that
/// size that they have in font units to the height of the font, up to a part in 2^22.
pub proof fn law_fonts_are_scaled_to_their_size(data: Seq<u8>, glyph: u16, px: Single)
    requires
        usual(px),
        usual((Single { bits: font::font_height(data) })),
    ensures
        ({
            let height = near::single_value((Single { bits: font::font_height(data) }));
            let size = near::single_value(px);
            let width = Single { bits: font::glyph_width(data, glyph) };
            let rise = Single { bits: font::font_rise(data) };
            let a = near::single_value((Single { bits: font::font_advance(data, glyph, px.bits) }));
            let b = near::single_value((Single { bits: font::font_ascent(data, px.bits) }));
            &&& usual(width) ==> {
                &&& (a * height) * 0x3f_ffff <= (size * near::single_value(width)) * 0x40_0000
                &&& (size * near::single_value(width)) * 0x3f_ffff <= (a * height) * 0x40_0000
            }
            &&& usual(rise) ==> {
                &&& (b * height) * 0x3f_ffff <= (size * near::single_value(rise)) * 0x40_0000
                &&& (size * near::single_value(rise)) * 0x3f_ffff <= (b * height) * 0x40_0000
            }
        }),
{
    let h = Single { bits: font::font_height(data) };
    let width = Single { bits: font::glyph_width(data, glyph) };
    let rise = Single { bits: font::font_rise(data) };
    if usual(width) {
        lemma_scaled(px, h, width);
    }
    if usual(rise) {
        lemma_scaled(px, h, rise);
    }
}

/// The aspect of a cell is its height by its width, up to a part in 2^24.
pub proof fn law_aspect_is_height_by_width(m: CellMetrics)
    requires
        0 < m.width < 0x100_0000,
        0 < m.height < 0x100_0000,
    ensures
        ({
            let a = near::single_value(m.aspect());
            let z = exact::one();
            &&& 0 < m.aspect().bits < float::single().inf()
            &&& (a * m.width) * 0x100_0000 <= (m.height * z) * 0x100_0001
            &&& (m.height * z) * 0xff_ffff <= (a * m.width) * 0x100_0000
        }),
{
    let z = exact::one() as int;
    let (w, h) = (m.width as int, m.height as int);
    let (fw, fh) = (Single::from_u64(m.width as u64), Single::from_u64(m.height as u64));
    reveal(Single::spec_from_u64);
    lemma_whole(m.width as nat);
    lemma_whole(m.height as nat);
    lemma_powers();
    lemma_pow2_pos(149);
    let p = pow2(133) as int;
    assert(p <= w * z <= 0x100_0000_0000 * p && p <= h * z <= 0x100_0000_0000 * p)
        by (nonlinear_arith)
        requires
            0 < w < 0x100_0000,
            0 < h < 0x100_0000,
            z == 0x1_0000 * p,
            p > 0,
    ;
    let a = lemma_quotient(fh, fw);
    let (aw, hz) = (a * w, h * z);
    assert(aw * 0x100_0000 <= hz * 0x100_0001 && hz * 0xff_ffff <= aw * 0x100_0000)
        by (nonlinear_arith)
        requires
            aw == a * w,
            hz == h * z,
            (a * (w * z)) * 0x100_0000 <= (hz * z) * 0x100_0001,
            (hz * z) * 0xff_ffff <= (a * (w * z)) * 0x100_0000,
            z > 0,
    {
        assert((aw * 0x100_0000) * z <= (hz * 0x100_0001) * z);
        assert((hz * 0xff_ffff) * z <= (aw * 0x100_0000) * z);
    }
}

} // verus!
