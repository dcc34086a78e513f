//! Averages over rectangles of source pixels.

use crate::engine::geometry::Span;
use crate::float::Double;
use crate::pixels::RgbaImage;
use vstd::arithmetic::div_mod::*;
use vstd::prelude::*;

verus! {

/// The encodings of the Rec. 601 weights of red, green and blue: 0.299, 0.587
/// and 0.114.
pub const RED_WEIGHT: u64 = 0x3fd3_22d0_e560_4189;

pub const GREEN_WEIGHT: u64 = 0x3fe2_c8b4_3958_1062;

pub const BLUE_WEIGHT: u64 = 0x3fbd_2f1a_9fbe_76c9;

/// Mean color, alpha and luma of one rectangle of source pixels.
#[derive(Clone, Copy, Debug)]
pub struct Sample {
    pub color: [u8; 3],
    pub alpha: u8,
    pub luma: Double,
}

/// What a pixel adds to a sum: its alpha for channel 3, else the channel
/// weighted by its alpha.
pub open spec fn weight(image: &RgbaImage, c: int, x: int, y: int) -> nat {
    let p = image.pixel(x, y);
    if c == 3 {
        p[3] as nat
    } else {
        p[c] as nat * p[3] as nat
    }
}

/// The sum over the pixels from `x0` to `x1` of one row.
pub open spec fn row_sum(image: &RgbaImage, c: int, y: int, x0: int, x1: int) -> nat
    decreases x1 - x0,
{
    if x1 <= x0 {
        0
    } else {
        row_sum(image, c, y, x0, x1 - 1) + weight(image, c, x1 - 1, y)
    }
}

/// The sum over the rows from `y0` to `y1`.
pub open spec fn area_sum(image: &RgbaImage, c: int, x0: int, x1: int, y0: int, y1: int) -> nat
    decreases y1 - y0,
{
    if y1 <= y0 {
        0
    } else {
        area_sum(image, c, x0, x1, y0, y1 - 1) + row_sum(image, c, y1 - 1, x0, x1)
    }
}

/// The sum of a channel over a rectangle.
pub open spec fn span_sum(image: &RgbaImage, c: int, span: Span) -> nat {
    area_sum(image, c, span.x0 as int, span.x1 as int, span.y0 as int, span.y1 as int)
}

/// The number of pixels of a rectangle.
pub open spec fn span_count(span: Span) -> nat {
    ((span.y1 - span.y0) * (span.x1 - span.x0)) as nat
}

/// The mean of one channel, from its weighted sum, the sum of the alphas and the
/// number of pixels.
///
/// With a matte, it is the mean of every pixel composited over the matte. With
/// none, it is the mean of the visible part, and black where nothing is visible.
pub open spec fn mean_channel(sum: nat, alphas: nat, count: nat, matte: Option<u8>) -> nat {
    match matte {
        Some(m) => (sum + m as nat * ((255 * count - alphas) as nat)) / (255 * count),
        None => if alphas > 0 {
            sum / alphas
        } else {
            0
        },
    }
}

/// One channel of an optional color.
pub open spec fn matte_channel(matte: Option<[u8; 3]>, c: int) -> Option<u8> {
    match matte {
        Some(m) => Some(m[c]),
        None => None,
    }
}

/// The mean color of a rectangle.
pub open spec fn mean_color(image: &RgbaImage, span: Span, matte: Option<[u8; 3]>) -> [u8; 3] {
    let alphas = span_sum(image, 3, span);
    let count = span_count(span);
    [
        mean_channel(span_sum(image, 0, span), alphas, count, matte_channel(matte, 0)) as u8,
        mean_channel(span_sum(image, 1, span), alphas, count, matte_channel(matte, 1)) as u8,
        mean_channel(span_sum(image, 2, span), alphas, count, matte_channel(matte, 2)) as u8,
    ]
}

/// The luma of a color.
pub open spec fn spec_luma(color: [u8; 3]) -> Double {
    let red = Double { bits: RED_WEIGHT }.times(Double::from_u64(color[0] as u64));
    let green = Double { bits: GREEN_WEIGHT }.times(Double::from_u64(color[1] as u64));
    let blue = Double { bits: BLUE_WEIGHT }.times(Double::from_u64(color[2] as u64));
    red.plus(green).plus(blue)
}

/// Mean color, alpha and luma of a rectangle.
pub open spec fn spec_sample(image: &RgbaImage, span: Span, matte: Option<[u8; 3]>) -> Sample {
    let color = mean_color(image, span, matte);
    Sample {
        color,
        alpha: (span_sum(image, 3, span) / span_count(span)) as u8,
        luma: spec_luma(color),
    }
}

/// Sums of weighted channels are bounded by the sums of the alphas, and those
/// by the number of pixels.
pub proof fn lemma_row_sum(image: &RgbaImage, c: int, y: int, x0: int, x1: int)
    requires
        x0 <= x1,
        0 <= c <= 3,
    ensures
        row_sum(image, 3, y, x0, x1) <= 255 * (x1 - x0),
        row_sum(image, c, y, x0, x1) <= 255 * row_sum(image, 3, y, x0, x1),
    decreases x1 - x0,
{
    if x0 < x1 {
        lemma_row_sum(image, c, y, x0, x1 - 1);
        let p = image.pixel(x1 - 1, y);
        assert(p[c] as nat * p[3] as nat <= 255 * p[3]) by (nonlinear_arith)
            requires
                p[c] <= 255,
                p[3] >= 0,
        ;
    }
}

/// The same over a rectangle.
pub proof fn lemma_area_sum(image: &RgbaImage, c: int, x0: int, x1: int, y0: int, y1: int)
    requires
        x0 <= x1,
        y0 <= y1,
        0 <= c <= 3,
    ensures
        area_sum(image, 3, x0, x1, y0, y1) <= 255 * ((y1 - y0) * (x1 - x0)),
        area_sum(image, c, x0, x1, y0, y1) <= 255 * area_sum(image, 3, x0, x1, y0, y1),
    decreases y1 - y0,
{
    if y0 < y1 {
        lemma_area_sum(image, c, x0, x1, y0, y1 - 1);
        lemma_row_sum(image, c, y1 - 1, x0, x1);
        assert((y1 - y0) * (x1 - x0) == (y1 - 1 - y0) * (x1 - x0) + (x1 - x0)) by (nonlinear_arith);
    } else {
        assert((y1 - y0) * (x1 - x0) == 0) by (nonlinear_arith)
            requires
                y1 == y0,
        ;
    }
}

/// Means of bytes are bytes.
pub proof fn lemma_mean_channel(sum: nat, alphas: nat, count: nat, matte: Option<u8>)
    requires
        count > 0,
        sum <= 255 * alphas,
        alphas <= 255 * count,
    ensures
        mean_channel(sum, alphas, count, matte) <= 255,
        alphas / count <= 255,
{
    assert(alphas <= count * 255);
    lemma_div_by_multiple(255, count as int);
    lemma_div_is_ordered(alphas as int, (255 * count) as int, count as int);
    match matte {
        Some(m) => {
            let clear = (255 * count - alphas) as nat;
            let top = 255 * (255 * count);
            assert(m as nat * clear <= 255 * clear) by (nonlinear_arith)
                requires
                    m <= 255,
                    clear >= 0,
            ;
            lemma_div_by_multiple(255, (255 * count) as int);
            lemma_div_is_ordered(
                (sum + m as nat * clear) as int,
                top as int,
                (255 * count) as int,
            );
        },
        None => {
            if alphas > 0 {
                lemma_div_by_multiple(255, alphas as int);
                lemma_div_is_ordered(sum as int, (255 * alphas) as int, alphas as int);
            }
        },
    }
}

/// The mean of one channel.
fn mean(sum: u128, alphas: u128, count: u128, matte: Option<u8>) -> (r: u8)
    requires
        0 < count <= 0xffff_ffff_ffff_ffff,
        sum <= 255 * alphas,
        alphas <= 255 * count,
    ensures
        r == mean_channel(sum as nat, alphas as nat, count as nat, matte),
{
    proof {
        lemma_mean_channel(sum as nat, alphas as nat, count as nat, matte);
    }
    match matte {
        Some(m) => {
            let clear = 255 * count - alphas;
            proof {
                assert(0 <= m as nat * clear <= 255 * clear) by (nonlinear_arith)
                    requires
                        m <= 255,
                        clear >= 0,
                ;
            }
            ((sum + m as u128 * clear) / (255 * count)) as u8
        },
        None => if alphas > 0 {
            (sum / alphas) as u8
        } else {
            0
        },
    }
}

/// The luma of a color.
///
/// The weights are those of Rec. 601, perceptually better than a plain mean of
/// the channels.
fn luma(color: [u8; 3]) -> (r: Double)
    ensures
        r == spec_luma(color),
{
    let red = Double { bits: RED_WEIGHT }.times(Double::from_u64(color[0] as u64));
    let green = Double { bits: GREEN_WEIGHT }.times(Double::from_u64(color[1] as u64));
    let blue = Double { bits: BLUE_WEIGHT }.times(Double::from_u64(color[2] as u64));
    red.plus(green).plus(blue)
}

/// Averages a pixel rectangle, compositing over `matte` when it is set.
///
/// Colors are summed premultiplied by alpha, so a transparent pixel cannot drag
/// the mean toward whatever color happens to sit behind it.
pub fn sample(image: &RgbaImage, span: Span, matte: Option<[u8; 3]>) -> (r: Sample)
    requires
        image.wf(),
        span.within(image.width(), image.height()),
    ensures
        r == spec_sample(image, span, matte),
{
    let (x0, x1, y0, y1) = (span.x0, span.x1, span.y0, span.y1);
    let ghost (gx0, gx1, gy0) = (x0 as int, x1 as int, y0 as int);
    let mut red: u128 = 0;
    let mut green: u128 = 0;
    let mut blue: u128 = 0;
    let mut alphas: u128 = 0;
    let mut y = y0;
    while y < y1
        invariant
            image.wf(),
            x0 < x1 <= image.width(),
            y0 <= y <= y1 <= image.height(),
            gx0 == x0,
            gx1 == x1,
            gy0 == y0,
            red == area_sum(image, 0, gx0, gx1, gy0, y as int),
            green == area_sum(image, 1, gx0, gx1, gy0, y as int),
            blue == area_sum(image, 2, gx0, gx1, gy0, y as int),
            alphas == area_sum(image, 3, gx0, gx1, gy0, y as int),
        decreases y1 - y,
    {
        proof {
            lemma_area_bound(image, 0, gx0, gx1, gy0, y as int);
            lemma_area_bound(image, 1, gx0, gx1, gy0, y as int);
            lemma_area_bound(image, 2, gx0, gx1, gy0, y as int);
        }
        let ghost (r0, g0, b0, a0) = (red, green, blue, alphas);
        let mut x = x0;
        while x < x1
            invariant
                image.wf(),
                x0 <= x <= x1 <= image.width(),
                y < image.height(),
                gx0 == x0,
                red == r0 + row_sum(image, 0, y as int, gx0, x as int),
                green == g0 + row_sum(image, 1, y as int, gx0, x as int),
                blue == b0 + row_sum(image, 2, y as int, gx0, x as int),
                alphas == a0 + row_sum(image, 3, y as int, gx0, x as int),
                r0 <= 0x1_0000_0000_0000_0000_0000,
                g0 <= 0x1_0000_0000_0000_0000_0000,
                b0 <= 0x1_0000_0000_0000_0000_0000,
                a0 <= 0x1_0000_0000_0000_0000_0000,
            decreases x1 - x,
        {
            proof {
                lemma_row_sum(image, 0, y as int, gx0, x as int);
                lemma_row_sum(image, 1, y as int, gx0, x as int);
                lemma_row_sum(image, 2, y as int, gx0, x as int);
            }
            let p = image.get_pixel(x, y);
            let a = p[3] as u32;
            proof {
                assert(p[0] as u32 * a <= 255 * 255) by (nonlinear_arith)
                    requires
                        p[0] <= 255,
                        a <= 255,
                ;
                assert(p[1] as u32 * a <= 255 * 255) by (nonlinear_arith)
                    requires
                        p[1] <= 255,
                        a <= 255,
                ;
                assert(p[2] as u32 * a <= 255 * 255) by (nonlinear_arith)
                    requires
                        p[2] <= 255,
                        a <= 255,
                ;
            }
            red = red + (p[0] as u32 * a) as u128;
            green = green + (p[1] as u32 * a) as u128;
            blue = blue + (p[2] as u32 * a) as u128;
            alphas = alphas + a as u128;
            x = x + 1;
        }
        y = y + 1;
    }
    let ghost n = span_count(span);
    proof {
        lemma_area_sum(image, 0, gx0, gx1, gy0, y1 as int);
        lemma_area_sum(image, 1, gx0, gx1, gy0, y1 as int);
        lemma_area_sum(image, 2, gx0, gx1, gy0, y1 as int);
        assert(0 < (y1 - y0) * (x1 - x0) <= 0xffff_ffff * 0xffff_ffff) by (nonlinear_arith)
            requires
                0 <= x0 < x1 <= 0xffff_ffff,
                0 <= y0 < y1 <= 0xffff_ffff,
        ;
    }
    let count = (y1 - y0) as u128 * (x1 - x0) as u128;
    let (m0, m1, m2) = match matte {
        Some(m) => (Some(m[0]), Some(m[1]), Some(m[2])),
        None => (None, None, None),
    };
    let color = [
        mean(red, alphas, count, m0),
        mean(green, alphas, count, m1),
        mean(blue, alphas, count, m2),
    ];
    proof {
        lemma_mean_channel(red as nat, alphas as nat, n, m0);
        assert(color =~= mean_color(image, span, matte));
    }
    Sample { color, alpha: (alphas / count) as u8, luma: luma(color) }
}

/// Sums over images stay far below the widest integer.
proof fn lemma_area_bound(image: &RgbaImage, c: int, x0: int, x1: int, y0: int, y1: int)
    requires
        0 <= x0 <= x1 <= 0xffff_ffff,
        0 <= y0 <= y1 <= 0xffff_ffff,
        0 <= c <= 3,
    ensures
        area_sum(image, c, x0, x1, y0, y1) <= 0x1_0000_0000_0000_0000_0000,
        area_sum(image, 3, x0, x1, y0, y1) <= 0x1_0000_0000_0000_0000_0000,
{
    lemma_area_sum(image, c, x0, x1, y0, y1);
    assert((y1 - y0) * (x1 - x0) <= 0xffff_ffff * 0xffff_ffff) by (nonlinear_arith)
        requires
            0 <= x0 <= x1 <= 0xffff_ffff,
            0 <= y0 <= y1 <= 0xffff_ffff,
    ;
}

} // verus!
