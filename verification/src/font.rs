//! Font stack: the built-in monospace font plus optional fallbacks.
//!
//! A stack exists because no single free monospace font covers both Latin and
//! CJK: one font draws the ASCII ramps, another one draws the Chinese, Korean
//! and Japanese sets, and users can put their own font in front.
//!
//! A font is held as the bytes of its file.

use crate::float;
use crate::float::order;
use crate::float::Single;
use ab_glyph::{Font, FontRef, GlyphId, OutlineCurve, Point, PxScale};
use std::collections::HashMap;
use vstd::arithmetic::div_mod::*;
use vstd::arithmetic::power2::*;
use vstd::prelude::*;

pub mod corners;
pub mod measures;
pub mod shades;

verus! {

/// How far from the corner of its bitmap, in pixels, an outline may reach.
///
/// The rasterizer walks along a curve in steps that it adds up. Up to this size the sum
/// stays below one, so that every step ends on the curve.
pub const MAX_REACH: i64 = 0x8_0000;

/// How many last places of its largest coordinate a point of a curve can be off, not
/// counting the rows that a line crosses.
pub const SLACK: i64 = 128;

/// The encoding of one.
pub const ONE: u32 = 0x3f80_0000;

// Whether the bytes are a font file that the font library reads.
pub uninterp spec fn font_parses(data: Seq<u8>) -> bool;

// The glyph that a font has for a character, 0 where it has none.
pub uninterp spec fn font_glyph(data: Seq<u8>, c: char) -> u16;

// The encoding of the advance of a glyph, in font units.
pub uninterp spec fn glyph_width(data: Seq<u8>, glyph: u16) -> u32;

// The encoding of the ascent of a font, in font units.
pub uninterp spec fn font_rise(data: Seq<u8>) -> u32;

// The encoding of the height of a font, in font units.
pub uninterp spec fn font_height(data: Seq<u8>) -> u32;

// The outline of a glyph in font units: the encodings of the corners of its bounds (x and y
// of the left one at the top, then of the right one at the bottom), and those of the
// points of its curves, from the start over the control points to the end.
pub uninterp spec fn glyph_outline(data: Seq<u8>, glyph: u16) -> Option<
    (((u32, u32), (u32, u32)), Seq<Seq<(u32, u32)>>),
>;

// The pixels of the outline of a glyph, relative to its bounds, each with the
// encoding of its coverage, in the order in which they are drawn.
pub uninterp spec fn glyph_ink(data: Seq<u8>, glyph: u16, px: u32, x: u32, y: u32) -> Seq<
    (u32, u32, u32),
>;

/// Whether `FontRef::try_from_slice` reads the bytes.
///
/// Trusted: the answer is a function of the bytes.
#[verifier::external_body]
fn parses(data: &Vec<u8>) -> (r: bool)
    ensures
        r == font_parses(data@),
{
    FontRef::try_from_slice(data).is_ok()
}

/// `Font::glyph_id` of the font in `data`.
///
/// Trusted: the glyph is a function of the bytes and of the character. Bytes
/// that are not a font have no glyphs.
#[verifier::external_body]
fn glyph_id(data: &Vec<u8>, c: char) -> (r: u16)
    ensures
        r == font_glyph(data@, c),
{
    match FontRef::try_from_slice(data) {
        Ok(font) => font.glyph_id(c).0,
        Err(_) => 0,
    }
}

/// `Font::h_advance_unscaled` of a glyph of the font in `data`.
///
/// Trusted: the advance is a function of the bytes and the glyph. It is a whole number,
/// and zero for bytes that are not a font.
#[verifier::external_body]
fn h_advance_unscaled(data: &Vec<u8>, glyph: u16) -> (r: u32)
    ensures
        r == glyph_width(data@, glyph),
{
    match FontRef::try_from_slice(data) {
        Ok(font) => font.h_advance_unscaled(GlyphId(glyph)).to_bits(),
        Err(_) => 0,
    }
}

/// `Font::ascent_unscaled` of the font in `data`.
///
/// Trusted: the ascent is a function of the bytes. It is a whole number, and zero for
/// bytes that are not a font.
#[verifier::external_body]
fn ascent_unscaled(data: &Vec<u8>) -> (r: u32)
    ensures
        r == font_rise(data@),
{
    match FontRef::try_from_slice(data) {
        Ok(font) => font.ascent_unscaled().to_bits(),
        Err(_) => 0,
    }
}

/// `Font::height_unscaled` of the font in `data`.
///
/// Trusted: the height is a function of the bytes. It is a whole number, and zero for
/// bytes that are not a font.
#[verifier::external_body]
fn height_unscaled(data: &Vec<u8>) -> (r: u32)
    ensures
        r == font_height(data@),
{
    match FontRef::try_from_slice(data) {
        Ok(font) => font.height_unscaled().to_bits(),
        Err(_) => 0,
    }
}

/// `Font::outline` of a glyph of the font in `data`.
///
/// Trusted: the outline is a function of the bytes and the glyph. A glyph without an
/// outline, and bytes that are not a font, have none. Every coordinate is finite, so that
/// it has one encoding.
#[verifier::external_body]
fn outline_unscaled(data: &Vec<u8>, glyph: u16) -> (r: Option<
    (((u32, u32), (u32, u32)), Vec<Vec<(u32, u32)>>),
>)
    ensures
        match r {
            Some((bounds, curves)) => glyph_outline(data@, glyph) == Some(
                (bounds, curves@.map_values(|c: Vec<(u32, u32)>| c@)),
            ),
            None => glyph_outline(data@, glyph) is None,
        },
{
    let o = FontRef::try_from_slice(data).ok()?.outline(GlyphId(glyph))?;
    let bits = |p: &Point| (p.x.to_bits(), p.y.to_bits());
    let curves = o.curves.iter().map(|curve| match curve {
        OutlineCurve::Line(a, b) => vec![bits(a), bits(b)],
        OutlineCurve::Quad(a, b, c) => vec![bits(a), bits(b), bits(c)],
        OutlineCurve::Cubic(a, b, c, d) => vec![bits(a), bits(b), bits(c), bits(d)],
    });
    Some(((bits(&o.bounds.min), bits(&o.bounds.max)), curves.collect()))
}

/// What `OutlinedGlyph::draw` hands to its callback for a glyph of the font in
/// `data`.
///
/// Trusted: the pixels are a function of the bytes, the glyph, the size and the
/// position. A glyph without an outline, and bytes that are not a font, have
/// none. Where [`drawable`] holds, the call returns: the bitmap can be allocated, and no
/// line of the outline gets more than two pixels left of it, where the index of a
/// pixel would overflow.
#[verifier::external_body]
fn draw(data: &Vec<u8>, glyph: u16, px: u32, x: u32, y: u32) -> (r: Vec<(u32, u32, u32)>)
    requires
        glyph_drawable(data@, glyph, px, x, y),
    ensures
        r@ == glyph_ink(data@, glyph, px, x, y),
{
    let scale = PxScale { x: bytemuck::cast(px), y: bytemuck::cast(px) };
    let at = Point { x: bytemuck::cast(x), y: bytemuck::cast(y) };
    let mut out = Vec::new();
    if let Ok(font) = FontRef::try_from_slice(data) {
        if let Some(o) = font.outline_glyph(GlyphId(glyph).with_scale_and_position(scale, at)) {
            o.draw(|gx, gy, coverage| out.push((gx, gy, coverage.to_bits())));
        }
    }
    out
}

/// The width and the height of pixel bounds.
pub open spec fn box_size(b: (u32, u32, u32, u32)) -> (u64, u64) {
    (
        (Single { bits: b.2 }).minus((Single { bits: b.0 })).to_u64(),
        (Single { bits: b.3 }).minus((Single { bits: b.1 })).to_u64(),
    )
}

/// Pixels per font unit at a size in pixels.
pub open spec fn draw_scale(data: Seq<u8>, px: u32) -> Single {
    (Single { bits: px }).over((Single { bits: font_height(data) }))
}

/// The encoding of the advance of a glyph at a size in pixels.
pub open spec fn font_advance(data: Seq<u8>, glyph: u16, px: u32) -> u32 {
    draw_scale(data, px).times((Single { bits: glyph_width(data, glyph) })).bits
}

/// The encoding of the ascent of a font at a size in pixels.
pub open spec fn font_ascent(data: Seq<u8>, px: u32) -> u32 {
    draw_scale(data, px).times((Single { bits: font_rise(data) })).bits
}

/// The pixel below a coordinate in font units, from a position on.
pub open spec fn pixel_below(v: u32, scale: Single, at: Single) -> Single {
    (Single { bits: v }).times(scale).plus(at.minus(at.truncated())).floor().plus(at.truncated())
}

/// The pixel above a coordinate in font units, from a position on.
pub open spec fn pixel_above(v: u32, scale: Single, at: Single) -> Single {
    (Single { bits: v }).times(scale).plus(at.minus(at.truncated())).ceil().plus(at.truncated())
}

/// The encodings of the pixel bounds of an outline at a scale and a position: least x and
/// y, then greatest x and y, with y downwards.
pub open spec fn pixel_box(
    bounds: ((u32, u32), (u32, u32)),
    scale: Single,
    x: Single,
    y: Single,
) -> (u32, u32, u32, u32) {
    (
        pixel_below(bounds.0.0, scale, x).bits,
        pixel_below(bounds.0.1, scale.negated(), y).bits,
        pixel_above(bounds.1.0, scale, x).bits,
        pixel_above(bounds.1.1, scale.negated(), y).bits,
    )
}

/// The encodings of the pixel bounds of the outline of a glyph at a size and a position.
pub open spec fn glyph_box(data: Seq<u8>, glyph: u16, px: u32, x: u32, y: u32) -> Option<
    (u32, u32, u32, u32),
> {
    match glyph_outline(data, glyph) {
        Some(o) => Some(
            pixel_box(o.0, draw_scale(data, px), (Single { bits: x }), (Single { bits: y })),
        ),
        None => None,
    }
}

/// A coordinate of an outline in the bitmap of its glyph, where `at` is the position of
/// the glyph and `corner` the corner of its pixel bounds.
pub open spec fn in_bitmap(v: u32, scale: Single, at: Single, corner: u32) -> Single {
    (Single { bits: v }).times(scale).plus(at.minus((Single { bits: corner })))
}

/// Left, right, top and bottom of a set of pixels.
pub struct Reach {
    pub left: i64,
    pub right: i64,
    pub top: i64,
    pub bottom: i64,
}

/// The smaller of two numbers.
pub open spec fn lesser(a: i64, b: i64) -> i64 {
    if b < a {
        b
    } else {
        a
    }
}

/// The larger of two numbers.
pub open spec fn greater(a: i64, b: i64) -> i64 {
    if b > a {
        b
    } else {
        a
    }
}

/// How far the first `n` points of a curve reach in the bitmap with corner (`b.0`, `b.1`),
/// beside its corner itself; or `None` where a point is nowhere.
pub open spec fn curve_reach(
    points: Seq<(u32, u32)>,
    scale: Single,
    x: Single,
    y: Single,
    b: (u32, u32, u32, u32),
    n: nat,
) -> Option<Reach>
    decreases n,
{
    if n == 0 {
        Some(Reach { left: i64::MAX, right: i64::MIN, top: i64::MAX, bottom: i64::MIN })
    } else {
        let u = in_bitmap(points[n - 1].0, scale, x, b.0);
        let v = in_bitmap(points[n - 1].1, scale.negated(), y, b.1);
        match curve_reach(points, scale, x, y, b, (n - 1) as nat) {
            Some(r) if u.is_finite() && v.is_finite() => Some(
                Reach {
                    left: lesser(r.left, u.floor().to_i64()),
                    right: greater(r.right, u.ceil().to_i64()),
                    top: lesser(r.top, v.floor().to_i64()),
                    bottom: greater(r.bottom, v.ceil().to_i64()),
                },
            ),
            _ => None,
        }
    }
}

/// The largest distance from the left side.
pub open spec fn spec_extent(r: Reach) -> int {
    if -r.left > r.right {
        -(r.left as int)
    } else {
        r.right as int
    }
}

/// Whether every line that the rasterizer draws of a curve that reaches so far stays
/// within two pixels of the left side of a bitmap.
///
/// A line is followed from one row of pixels to the next, and at each row its place is
/// rounded by at most 2^-24 of its distance from the left side.
pub open spec fn curve_stays(r: Reach, narrow: bool) -> bool {
    &&& -MAX_REACH <= r.left <= MAX_REACH && -MAX_REACH <= r.right <= MAX_REACH
    &&& -MAX_REACH <= r.top <= MAX_REACH && -MAX_REACH <= r.bottom <= MAX_REACH
    &&& narrow || (r.left + 2) * 0x100_0000 >= (r.bottom - r.top + SLACK) * spec_extent(r)
}

/// Whether a curve can be drawn into the bitmap with the given pixel bounds.
pub open spec fn curve_drawable(
    points: Seq<(u32, u32)>,
    scale: Single,
    x: Single,
    y: Single,
    b: (u32, u32, u32, u32),
) -> bool {
    curve_reach(points, scale, x, y, b, points.len()) matches Some(r) && curve_stays(
        r,
        box_size(b).0 == 0,
    )
}

/// Whether an outline can be drawn at a scale and a position: its bitmap, with what is
/// read from it, can be held in memory, and its curves stay within reach of it.
pub open spec fn drawable(
    o: (((u32, u32), (u32, u32)), Seq<Seq<(u32, u32)>>),
    scale: Single,
    x: Single,
    y: Single,
) -> bool {
    let b = pixel_box(o.0, scale, x, y);
    &&& (Single { bits: b.0 }).is_finite()
    &&& (Single { bits: b.1 }).is_finite()
    &&& (Single { bits: b.2 }).is_finite()
    &&& (Single { bits: b.3 }).is_finite()
    &&& box_size(b).0 <= u32::MAX
    &&& box_size(b).1 <= u32::MAX
    &&& 24 * (box_size(b).0 * box_size(b).1) <= isize::MAX
    &&& forall|i: int|
        0 <= i < o.1.len() ==> curve_drawable(#[trigger] o.1[i], scale, x, y, b)
}

/// Whether the outline of a glyph, if it has one, can be drawn at a size and a position.
pub open spec fn glyph_drawable(data: Seq<u8>, glyph: u16, px: u32, x: u32, y: u32) -> bool {
    glyph_outline(data, glyph) matches Some(o) ==> drawable(
        o,
        draw_scale(data, px),
        (Single { bits: x }),
        (Single { bits: y }),
    )
}

/// A glyph that is too large or too far out to be drawn.
#[derive(Debug, Clone, Copy, PartialEq, Eq, Structural)]
pub struct GlyphTooLarge;

/// A glyph ready to be copied: the corner of its bounds and its pixels.
#[derive(Debug)]
pub struct Outline {
    pub min_x: Single,
    pub min_y: Single,
    pub ink: Vec<(u32, u32, u32)>,
}

/// What drawing a glyph gives: nothing where it has no outline.
pub open spec fn is_outline(
    r: Result<Option<Outline>, GlyphTooLarge>,
    data: Seq<u8>,
    glyph: u16,
    px: Single,
    x: Single,
    y: Single,
) -> bool {
    match glyph_box(data, glyph, px.bits, x.bits, y.bits) {
        None => r matches Ok(None),
        Some(b) => if glyph_drawable(data, glyph, px.bits, x.bits, y.bits) {
            &&& r matches Ok(Some(o))
            &&& o.min_x.bits == b.0
            &&& o.min_y.bits == b.1
            &&& o.ink@ == glyph_ink(data, glyph, px.bits, x.bits, y.bits)
        } else {
            r is Err
        },
    }
}

/// The pixel below a coordinate in font units, from a position on.
fn below(v: u32, scale: Single, at: Single) -> (r: Single)
    ensures
        r == pixel_below(v, scale, at),
{
    let whole = at.truncated();
    Single { bits: v }.times(scale).plus(at.minus(whole)).floor().plus(whole)
}

/// The pixel above a coordinate in font units, from a position on.
fn above(v: u32, scale: Single, at: Single) -> (r: Single)
    ensures
        r == pixel_above(v, scale, at),
{
    let whole = at.truncated();
    Single { bits: v }.times(scale).plus(at.minus(whole)).ceil().plus(whole)
}

/// Whether a curve can be drawn into the bitmap with the given pixel bounds.
fn is_curve_drawable(
    points: &Vec<(u32, u32)>,
    scale: Single,
    x: Single,
    y: Single,
    b: (u32, u32, u32, u32),
    narrow: bool,
) -> (r: bool)
    requires
        narrow == (box_size(b).0 == 0),
    ensures
        r == curve_drawable(points@, scale, x, y, b),
{
    let up = scale.negated();
    let (dx, dy) = (x.minus(Single { bits: b.0 }), y.minus(Single { bits: b.1 }));
    let mut reach = Reach { left: i64::MAX, right: i64::MIN, top: i64::MAX, bottom: i64::MIN };
    let mut i: usize = 0;
    while i < points.len()
        invariant
            i <= points@.len(),
            up == scale.negated(),
            dx == x.minus((Single { bits: b.0 })),
            dy == y.minus((Single { bits: b.1 })),
            curve_reach(points@, scale, x, y, b, i as nat) == Some(reach),
        decreases points@.len() - i,
    {
        let (px, py) = points[i];
        let u = Single { bits: px }.times(scale).plus(dx);
        let v = Single { bits: py }.times(up).plus(dy);
        if !(u.is_finite() && v.is_finite()) {
            proof {
                lemma_reach_ends(points@, scale, x, y, b, (i + 1) as nat, points@.len());
            }
            return false;
        }
        let (left, right) = (u.floor().to_i64(), u.ceil().to_i64());
        let (top, bottom) = (v.floor().to_i64(), v.ceil().to_i64());
        reach =
        Reach {
            left: if left < reach.left {
                left
            } else {
                reach.left
            },
            right: if right > reach.right {
                right
            } else {
                reach.right
            },
            top: if top < reach.top {
                top
            } else {
                reach.top
            },
            bottom: if bottom > reach.bottom {
                bottom
            } else {
                reach.bottom
            },
        };
        i = i + 1;
    }
    let near = |v: i64| -> (r: bool)
        ensures
            r == (-MAX_REACH <= v <= MAX_REACH),
        { -MAX_REACH <= v && v <= MAX_REACH };
    if !(near(reach.left) && near(reach.right) && near(reach.top) && near(reach.bottom)) {
        return false;
    }
    if narrow {
        return true;
    }
    let extent = if -reach.left > reach.right {
        -reach.left
    } else {
        reach.right
    };
    let rows = reach.bottom - reach.top + SLACK;
    assert(-0x1000_0000_0000 <= rows * extent <= 0x1000_0000_0000) by (nonlinear_arith)
        requires
            -0x10_0000 <= rows <= 0x10_0080,
            -0x8_0000 <= extent <= 0x8_0000,
    ;
    (reach.left + 2) * 0x100_0000 >= rows * extent
}

/// A point that is nowhere stays so.
proof fn lemma_reach_ends(
    points: Seq<(u32, u32)>,
    scale: Single,
    x: Single,
    y: Single,
    b: (u32, u32, u32, u32),
    m: nat,
    n: nat,
)
    requires
        m <= n,
        curve_reach(points, scale, x, y, b, m) is None,
    ensures
        curve_reach(points, scale, x, y, b, n) is None,
    decreases n,
{
    if m < n {
        lemma_reach_ends(points, scale, x, y, b, m, (n - 1) as nat);
    }
}

/// Whether an outline with the given pixel bounds can be drawn at a scale and a position.
fn is_drawable(
    bounds: ((u32, u32), (u32, u32)),
    curves: &Vec<Vec<(u32, u32)>>,
    scale: Single,
    x: Single,
    y: Single,
    b: (u32, u32, u32, u32),
) -> (r: bool)
    requires
        b == pixel_box(bounds, scale, x, y),
    ensures
        r == drawable((bounds, curves@.map_values(|c: Vec<(u32, u32)>| c@)), scale, x, y),
{
    let ghost all = curves@.map_values(|c: Vec<(u32, u32)>| c@);
    let (x0, y0) = (Single { bits: b.0 }, Single { bits: b.1 });
    let (x1, y1) = (Single { bits: b.2 }, Single { bits: b.3 });
    if !(x0.is_finite() && y0.is_finite() && x1.is_finite() && y1.is_finite()) {
        return false;
    }
    let w = x1.minus(x0).to_u64();
    let h = y1.minus(y0).to_u64();
    if w > u32::MAX as u64 || h > u32::MAX as u64 {
        return false;
    }
    proof {
        assert(0 <= w as u128 * h as u128 <= 0xffff_ffff * 0xffff_ffff) by (nonlinear_arith)
            requires
                0 <= w <= 0xffff_ffff,
                0 <= h <= 0xffff_ffff,
        ;
    }
    if 24 * (w as u128 * h as u128) > isize::MAX as u128 {
        return false;
    }
    let mut i: usize = 0;
    while i < curves.len()
        invariant
            i <= curves@.len(),
            all == curves@.map_values(|c: Vec<(u32, u32)>| c@),
            w == box_size(b).0,
            b == pixel_box(bounds, scale, x, y),
            forall|j: int| 0 <= j < i ==> curve_drawable(#[trigger] all[j], scale, x, y, b),
        decreases curves@.len() - i,
    {
        assert(all[i as int] == curves@[i as int]@);
        if !is_curve_drawable(&curves[i], scale, x, y, b, w == 0) {
            proof {
                let o = (bounds, all);
                assert(!curve_drawable(o.1[i as int], scale, x, y, b));
                assert(!drawable(o, scale, x, y));
            }
            return false;
        }
        i = i + 1;
    }
    true
}

/// Draws a glyph of the font in `data`.
pub fn outline(data: &Vec<u8>, glyph: u16, px: Single, x: Single, y: Single) -> (r: Result<
    Option<Outline>,
    GlyphTooLarge,
>)
    ensures
        is_outline(r, data@, glyph, px, x, y),
{
    match outline_unscaled(data, glyph) {
        None => Ok(None),
        Some((bounds, curves)) => {
            let scale = px.over(Single { bits: height_unscaled(data) });
            let up = scale.negated();
            let ((left, top), (right, bottom)) = bounds;
            let (min_x, min_y) = (below(left, scale, x), below(top, up, y));
            let (max_x, max_y) = (above(right, scale, x), above(bottom, up, y));
            let b = (min_x.bits, min_y.bits, max_x.bits, max_y.bits);
            if !is_drawable(bounds, &curves, scale, x, y, b) {
                return Err(GlyphTooLarge);
            }
            let ink = draw(data, glyph, px.bits, x.bits, y.bits);
            Ok(Some(Outline { min_x, min_y, ink }))
        },
    }
}

/// The advance of a glyph at a size in pixels.
fn h_advance(data: &Vec<u8>, glyph: u16, px: u32) -> (r: u32)
    ensures
        r == font_advance(data@, glyph, px),
{
    let scale = Single { bits: px }.over(Single { bits: height_unscaled(data) });
    scale.times(Single { bits: h_advance_unscaled(data, glyph) }).bits
}

/// The ascent of a font at a size in pixels.
fn ascent(data: &Vec<u8>, px: u32) -> (r: u32)
    ensures
        r == font_ascent(data@, px),
{
    let scale = Single { bits: px }.over(Single { bits: height_unscaled(data) });
    scale.times(Single { bits: ascent_unscaled(data) }).bits
}

/// Where a character's glyph came from.
#[derive(Debug, Clone, Copy, PartialEq, Eq, Structural)]
pub struct Located {
    /// Index into the fonts of the stack.
    pub font: usize,
    pub glyph: u16,
}

/// Pixel geometry of one character cell.
#[derive(Debug, Clone, Copy)]
pub struct CellMetrics {
    pub width: u32,
    pub height: u32,
    /// Baseline offset from the top of the cell.
    pub ascent: Single,
}

impl CellMetrics {
    /// Whether a cell has a pixel.
    pub open spec fn wf(&self) -> bool {
        self.width > 0 && self.height > 0
    }

    pub open spec fn spec_aspect(&self) -> Single {
        Single::from_u64(self.height as u64).over(Single::from_u64(self.width as u64))
    }

    /// Cell height divided by width: the value
    /// [`crate::engine::Options::aspect`] needs so a painted image keeps the
    /// source's proportions.
    #[verifier::when_used_as_spec(spec_aspect)]
    pub fn aspect(&self) -> (r: Single)
        ensures
            r == self.spec_aspect(),
    {
        Single::from_u64(self.height as u64).over(Single::from_u64(self.width as u64))
    }
}

/// A font file that is not a usable font.
#[derive(Debug, Clone, Copy, PartialEq, Eq, Structural)]
pub struct InvalidFont;

/// An ordered list of fonts; the first one that has a glyph wins.
#[derive(Debug)]
pub struct FontStack {
    fonts: Vec<Vec<u8>>,
}

impl View for FontStack {
    type V = Seq<Seq<u8>>;

    closed spec fn view(&self) -> Seq<Seq<u8>> {
        self.fonts@.map_values(|font: Vec<u8>| font@)
    }
}

/// The first font from index `from` on that has a glyph for `c`.
pub open spec fn spec_locate(fonts: Seq<Seq<u8>>, c: char, from: int) -> Option<Located>
    decreases fonts.len() - from,
{
    if from < 0 || from >= fonts.len() {
        None
    } else if font_glyph(fonts[from], c) != 0 {
        Some(Located { font: from as usize, glyph: font_glyph(fonts[from], c) })
    } else {
        spec_locate(fonts, c, from + 1)
    }
}

/// The widest advance and the greatest ascent over the first `n` characters, of
/// which those count that some font draws.
pub open spec fn widest(fonts: Seq<Seq<u8>>, chars: Seq<char>, px: Single, n: nat) -> (
    Single,
    Single,
)
    decreases n,
{
    if n == 0 {
        (
            Single { bits: font_advance(fonts[0], font_glyph(fonts[0], 'M'), px.bits) },
            Single { bits: font_ascent(fonts[0], px.bits) },
        )
    } else {
        let (width, ascent) = widest(fonts, chars, px, (n - 1) as nat);
        match spec_locate(fonts, chars[n - 1], 0) {
            None => (width, ascent),
            Some(loc) => {
                let font = fonts[loc.font as int];
                (
                    width.max((Single { bits: font_advance(font, loc.glyph, px.bits) })),
                    ascent.max((Single { bits: font_ascent(font, px.bits) })),
                )
            },
        }
    }
}

/// Cell geometry for a set of characters at a size.
pub open spec fn spec_metrics(fonts: Seq<Seq<u8>>, chars: Seq<char>, px: Single) -> CellMetrics {
    let (width, ascent) = widest(fonts, chars, px, chars.len());
    CellMetrics {
        width: width.ceil().max((Single { bits: ONE })).to_u32(),
        height: px.ceil().max((Single { bits: ONE })).to_u32(),
        ascent,
    }
}

/// The sum of the coverages of the first `n` pixels.
pub open spec fn ink_sum(ink: Seq<(u32, u32, u32)>, n: nat) -> Single
    decreases n,
{
    if n == 0 {
        Single { bits: 0 }
    } else {
        ink_sum(ink, (n - 1) as nat).plus((Single { bits: ink[n - 1].2 }))
    }
}

/// Whether the coverage of a character can be measured: it has no glyph, no area, no
/// outline, or one that can be drawn.
pub open spec fn coverable(fonts: Seq<Seq<u8>>, c: char, px: Single) -> bool {
    match spec_locate(fonts, c, 0) {
        None => true,
        Some(loc) => {
            let font = fonts[loc.font as int];
            let area = (Single { bits: font_advance(font, loc.glyph, px.bits) }).times(px);
            area.at_most((Single { bits: 0 })) || glyph_drawable(
                font,
                loc.glyph,
                px.bits,
                0,
                font_ascent(font, px.bits),
            )
        },
    }
}

/// Fraction of a cell that the glyph of a character inks.
pub open spec fn spec_coverage(fonts: Seq<Seq<u8>>, c: char, px: Single) -> Single {
    match spec_locate(fonts, c, 0) {
        None => Single { bits: 0 },
        Some(loc) => {
            let font = fonts[loc.font as int];
            let area = (Single { bits: font_advance(font, loc.glyph, px.bits) }).times(px);
            if area.at_most((Single { bits: 0 })) || glyph_outline(font, loc.glyph) is None {
                Single { bits: 0 }
            } else {
                let ink = glyph_ink(font, loc.glyph, px.bits, 0, font_ascent(font, px.bits));
                ink_sum(ink, ink.len()).over(area)
            }
        },
    }
}

/// Characters with one code point are one character.
pub proof fn lemma_code_points(c: char, d: char)
    ensures
        c as u32 == d as u32 ==> c == d,
{
}

/// Whether some font of a stack draws `c`, which is not a space.
pub open spec fn drawn(fonts: Seq<Seq<u8>>, c: char) -> bool {
    c != ' ' && spec_locate(fonts, c, 0) is Some
}

/// What is at least one has a whole part of at least one.
proof fn lemma_at_least_one(v: Single)
    ensures
        v.max((Single { bits: ONE })).to_u32() >= 1,
{
    let f = float::single();
    let one: nat = ONE as nat;
    let r = v.max((Single { bits: ONE }));
    reveal(Single::spec_is_nan);
    reveal(Single::spec_less);
    reveal(Single::spec_to_u64);
    assert(f.expo(one) == 126);
    assert(f.mant(one) == 0x80_0000);
    lemma2_to64();
    lemma_pow2_adds(23, 126);
    lemma_pow2_pos(149);
    assert(f.units(one) == pow2(149));
    lemma_div_by_self(pow2(149) as int);
    order::lemma_trunc_mono(f, one, f.mag(r.bits as u64));
}

/// Located characters come from fonts of the stack.
pub proof fn lemma_located(fonts: Seq<Seq<u8>>, c: char, from: int)
    requires
        from >= 0,
        fonts.len() <= usize::MAX,
    ensures
        spec_locate(fonts, c, from) matches Some(loc) ==> loc.font < fonts.len(),
    decreases fonts.len() - from,
{
    if from < fonts.len() && font_glyph(fonts[from], c) == 0 {
        lemma_located(fonts, c, from + 1);
    }
}

impl FontStack {
    /// A stack has no more fonts than a vector can hold.
    pub proof fn lemma_len(&self)
        ensures
            self@.len() <= usize::MAX,
    {
        assert(self.fonts.len() == self.fonts@.len());
    }

    /// Whether the stack has a font.
    pub open spec fn wf(&self) -> bool {
        self@.len() > 0
    }

    /// A stack of the built-in fonts, the one that defines the character grid
    /// first.
    pub fn embedded(primary: Vec<u8>, fallbacks: Vec<Vec<u8>>) -> (r: Result<FontStack, InvalidFont>)
        ensures
            match r {
                Ok(stack) => {
                    &&& font_parses(primary@)
                    &&& forall|i: int| 0 <= i < fallbacks@.len() ==> font_parses(#[trigger] fallbacks@[i]@)
                    &&& stack.wf()
                    &&& stack@ == seq![primary@] + fallbacks@.map_values(|font: Vec<u8>| font@)
                },
                Err(_) => !font_parses(primary@) || exists|i: int|
                    0 <= i < fallbacks@.len() && !font_parses(#[trigger] fallbacks@[i]@),
            },
    {
        if !parses(&primary) {
            return Err(InvalidFont);
        }
        let mut i: usize = 0;
        while i < fallbacks.len()
            invariant
                i <= fallbacks@.len(),
                forall|j: int| 0 <= j < i ==> font_parses(#[trigger] fallbacks@[j]@),
            decreases fallbacks@.len() - i,
        {
            if !parses(&fallbacks[i]) {
                return Err(InvalidFont);
            }
            i = i + 1;
        }
        let ghost (first, rest) = (primary@, fallbacks@);
        let mut fonts = fallbacks;
        fonts.insert(0, primary);
        let stack = FontStack { fonts };
        assert(stack@ =~= seq![first] + rest.map_values(|font: Vec<u8>| font@));
        Ok(stack)
    }

    /// The stack with a user font in front, so it wins every glyph it has (and
    /// supplies the cell metrics).
    pub fn with_font(self, font: Vec<u8>) -> (r: Result<FontStack, InvalidFont>)
        ensures
            match r {
                Ok(stack) => {
                    &&& font_parses(font@)
                    &&& stack.wf()
                    &&& stack@ == seq![font@] + self@
                },
                Err(_) => !font_parses(font@),
            },
    {
        if !parses(&font) {
            return Err(InvalidFont);
        }
        let ghost (first, rest) = (font@, self@);
        let mut fonts = self.fonts;
        fonts.insert(0, font);
        let stack = FontStack { fonts };
        assert(stack@ =~= seq![first] + rest);
        Ok(stack)
    }

    /// The font that defines the character grid.
    pub fn primary(&self) -> (r: &Vec<u8>)
        requires
            self.wf(),
        ensures
            r@ == self@[0],
    {
        &self.fonts[0]
    }

    /// The font with index `index`.
    pub fn get(&self, index: usize) -> (r: &Vec<u8>)
        requires
            index < self@.len(),
        ensures
            r@ == self@[index as int],
    {
        &self.fonts[index]
    }

    /// First font in the stack that can draw `c`, if any.
    pub fn locate(&self, c: char) -> (r: Option<Located>)
        ensures
            r == spec_locate(self@, c, 0),
            r matches Some(loc) ==> loc.font < self@.len(),
    {
        let mut i: usize = 0;
        while i < self.fonts.len()
            invariant
                i <= self.fonts@.len(),
                spec_locate(self@, c, 0) == spec_locate(self@, c, i as int),
            decreases self.fonts@.len() - i,
        {
            let glyph = glyph_id(&self.fonts[i], c);
            if glyph != 0 {
                return Some(Located { font: i, glyph });
            }
            i = i + 1;
        }
        None
    }

    /// Resolves every character once, by its code point: paint loops call this
    /// instead of walking the stack per cell.
    pub fn locate_all(&self, chars: &Vec<char>) -> (r: HashMap<u32, Located>)
        ensures
            forall|c: char| #[trigger]
                r@.contains_key(c as u32) <==> chars@.contains(c) && drawn(self@, c),
            forall|c: char| #[trigger]
                r@.contains_key(c as u32) ==> spec_locate(self@, c, 0) == Some(r@[c as u32]),
    {
        broadcast use vstd::std_specs::hash::group_hash_axioms;

        let mut out: HashMap<u32, Located> = HashMap::new();
        let mut i: usize = 0;
        while i < chars.len()
            invariant
                i <= chars@.len(),
                forall|c: char| #[trigger]
                    out@.contains_key(c as u32) <==> chars@.take(i as int).contains(c) && drawn(
                        self@,
                        c,
                    ),
                forall|c: char| #[trigger]
                    out@.contains_key(c as u32) ==> spec_locate(self@, c, 0) == Some(
                        out@[c as u32],
                    ),
            decreases chars@.len() - i,
        {
            let c = chars[i];
            proof {
                assert(chars@.take(i + 1) =~= chars@.take(i as int).push(c));
                assert forall|d: char| chars@.take(i + 1).contains(d) <==> (chars@.take(
                    i as int,
                ).contains(d) || d == c) by {
                    if chars@.take(i as int).contains(d) {
                        let j = chars@.take(i as int).index_of(d);
                        assert(chars@.take(i + 1)[j] == d);
                    }
                    assert(chars@.take(i + 1)[i as int] == c);
                }
            }
            let ghost before = out@;
            if c != ' ' && !out.contains_key(&(c as u32)) {
                if let Some(loc) = self.locate(c) {
                    out.insert(c as u32, loc);
                }
            }
            proof {
                assert forall|d: char| #[trigger]
                    out@.contains_key(d as u32) <==> chars@.take(i + 1).contains(d) && drawn(
                        self@,
                        d,
                    ) by {
                    lemma_code_points(c, d);
                    assert(before.contains_key(d as u32) <==> chars@.take(i as int).contains(d)
                        && drawn(self@, d));
                }
                assert forall|d: char| #[trigger] out@.contains_key(d as u32) implies spec_locate(
                    self@,
                    d,
                    0,
                ) == Some(out@[d as u32]) by {
                    lemma_code_points(c, d);
                    assert(before.contains_key(d as u32) ==> spec_locate(self@, d, 0) == Some(
                        before[d as u32],
                    ));
                }
            }
            i = i + 1;
        }
        assert(chars@.take(chars@.len() as int) =~= chars@);
        out
    }

    /// Cell geometry for a charset at a size.
    ///
    /// Width is the widest advance any of `chars` needs, so full-width glyphs get
    /// a full-width cell instead of being clipped in half; the baseline spans
    /// every font actually used. By definition of the size, the height of every
    /// font is the size itself.
    pub fn cell_metrics(&self, chars: &Vec<char>, font_px: Single) -> (r: CellMetrics)
        requires
            self.wf(),
        ensures
            r == spec_metrics(self@, chars@, font_px),
            r.wf(),
    {
        let primary = &self.fonts[0];
        let m = glyph_id(primary, 'M');
        let mut width = Single { bits: h_advance(primary, m, font_px.bits) };
        let mut top = Single { bits: ascent(primary, font_px.bits) };
        let mut i: usize = 0;
        while i < chars.len()
            invariant
                self.wf(),
                i <= chars@.len(),
                (width, top) == widest(self@, chars@, font_px, i as nat),
            decreases chars@.len() - i,
        {
            if let Some(loc) = self.locate(chars[i]) {
                let font = &self.fonts[loc.font];
                width = width.max(Single { bits: h_advance(font, loc.glyph, font_px.bits) });
                top = top.max(Single { bits: ascent(font, font_px.bits) });
            }
            i = i + 1;
        }
        let one = Single { bits: ONE };
        proof {
            lemma_at_least_one(width.ceil());
            lemma_at_least_one(font_px.ceil());
        }
        CellMetrics {
            width: width.ceil().max(one).to_u32(),
            height: font_px.ceil().max(one).to_u32(),
            ascent: top,
        }
    }

    /// Fraction of a cell that `c`'s glyph inks, in the first font that has it, or `None`
    /// where the glyph cannot be drawn.
    pub fn try_coverage(&self, c: char, font_px: Single) -> (r: Option<Single>)
        ensures
            r == (if coverable(self@, c, font_px) {
                Some(spec_coverage(self@, c, font_px))
            } else {
                None
            }),
    {
        let zero = Single { bits: 0 };
        let loc = match self.locate(c) {
            None => {
                return Some(zero);
            },
            Some(loc) => loc,
        };
        let font = &self.fonts[loc.font];
        let area = Single { bits: h_advance(font, loc.glyph, font_px.bits) }.times(font_px);
        if area.at_most(zero) {
            return Some(zero);
        }
        let y = Single { bits: ascent(font, font_px.bits) };
        match outline(font, loc.glyph, font_px, zero, y) {
            Err(_) => None,
            Ok(None) => Some(zero),
            Ok(Some(o)) => {
                let mut sum = zero;
                let mut i: usize = 0;
                while i < o.ink.len()
                    invariant
                        i <= o.ink@.len(),
                        sum == ink_sum(o.ink@, i as nat),
                    decreases o.ink@.len() - i,
                {
                    sum = sum.plus(Single { bits: o.ink[i].2 });
                    i = i + 1;
                }
                Some(sum.over(area))
            },
        }
    }

    /// Fraction of a cell that `c`'s glyph inks, in the first font that has it.
    /// Used to sort charsets dark to light.
    pub fn coverage(&self, c: char, font_px: Single) -> (r: Single)
        requires
            coverable(self@, c, font_px),
        ensures
            r == spec_coverage(self@, c, font_px),
    {
        match self.try_coverage(c, font_px) {
            Some(v) => v,
            None => Single { bits: 0 },
        }
    }
}

/// A search that starts one font later in a stack with one more font in front.
proof fn lemma_shifted(font: Seq<u8>, fonts: Seq<Seq<u8>>, c: char, from: int)
    requires
        from >= 0,
        fonts.len() < usize::MAX,
    ensures
        spec_locate(seq![font] + fonts, c, from + 1) == match spec_locate(fonts, c, from) {
            Some(loc) => Some(Located { font: (loc.font + 1) as usize, glyph: loc.glyph }),
            None => None,
        },
    decreases fonts.len() - from,
{
    let all = seq![font] + fonts;
    if from < fonts.len() {
        assert(all[from + 1] == fonts[from]);
        lemma_shifted(font, fonts, c, from + 1);
    }
}

/// A font of the user wins every glyph it has, and leaves the others where they
/// were found before, one font further down the stack.
pub proof fn law_user_font_wins(font: Seq<u8>, fonts: Seq<Seq<u8>>, c: char)
    requires
        fonts.len() < usize::MAX,
    ensures
        spec_locate(seq![font] + fonts, c, 0) == if font_glyph(font, c) != 0 {
            Some(Located { font: 0, glyph: font_glyph(font, c) })
        } else {
            match spec_locate(fonts, c, 0) {
                Some(loc) => Some(Located { font: (loc.font + 1) as usize, glyph: loc.glyph }),
                None => None,
            }
        },
{
    assert((seq![font] + fonts)[0] == font);
    lemma_shifted(font, fonts, c, 0);
}

} // verus!
