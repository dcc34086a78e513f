//! Painting an [`AsciiGrid`] with the glyphs of a font stack.

use crate::charset::Charset;
use crate::engine::braille;
use crate::engine::braille::dot_bit;
use crate::engine::AsciiGrid;
use crate::float::Single;
use crate::font;
use crate::font::{outline, CellMetrics, FontStack, Located};
use crate::pixels;
use crate::pixels::RgbaImage;
use crate::text;
use ab_glyph::Point;
use vstd::arithmetic::div_mod::*;
use vstd::prelude::*;

pub mod brightness;
pub mod canvas;
pub mod discs;
pub mod dots;
pub mod exact;
pub mod ink;
pub mod laws;
pub mod vivid;

verus! {

/// The encoding of 512, the largest accepted font size; above this a single
/// glyph is poster-sized.
pub const MAX_FONT_PX: u32 = 0x4400_0000;

/// Cap on output pixels so absurd combinations of width and font fail fast
/// instead of attempting an allocation of gigabytes.
pub const MAX_CANVAS_PIXELS: u64 = 500_000_000;

/// The encodings of 0.5, 0.7, 1, 2, 4 and 255.
pub const HALF: u32 = 0x3f00_0000;

pub const BOOST: u32 = 0x3f33_3333;

pub const ONE: u32 = 0x3f80_0000;

pub const TWO: u32 = 0x4000_0000;

pub const FOUR: u32 = 0x4080_0000;

pub const FULL: u32 = 0x437f_0000;

/// The encoding of 0.48, the fraction of the room for a dot that its radius
/// takes. At 0.5 neighboring dots just touch.
pub const DOT_FILL: u32 = 0x3ef5_c28f;

/// Background style for painted output.
#[derive(Debug, Clone, Copy, PartialEq, Eq, Structural)]
pub enum Background {
    Black,
    White,
    /// No canvas at all: only glyphs carry opacity, so the art drops onto any
    /// surface. Requires an output format with an alpha channel.
    Transparent,
}

impl Background {
    pub open spec fn spec_fill(self) -> [u8; 4] {
        match self {
            Background::Black => [0, 0, 0, 255],
            Background::White => [255, 255, 255, 255],
            Background::Transparent => [0, 0, 0, 0],
        }
    }

    /// The pixel that a canvas starts out with.
    #[verifier::when_used_as_spec(spec_fill)]
    pub fn fill(self) -> (r: [u8; 4])
        ensures
            r == self.spec_fill(),
    {
        let r = match self {
            Background::Black => [0, 0, 0, 255],
            Background::White => [255, 255, 255, 255],
            Background::Transparent => [0, 0, 0, 0],
        };
        assert(r =~= self.spec_fill());
        r
    }

    pub open spec fn spec_ink(self) -> [u8; 3] {
        match self {
            Background::White => [0, 0, 0],
            Background::Black => [255, 255, 255],
            Background::Transparent => [255, 255, 255],
        }
    }

    /// Default glyph color when not painting per-cell colors.
    #[verifier::when_used_as_spec(spec_ink)]
    pub fn ink(self) -> (r: [u8; 3])
        ensures
            r == self.spec_ink(),
    {
        let r = match self {
            Background::White => [0, 0, 0],
            Background::Black => [255, 255, 255],
            Background::Transparent => [255, 255, 255],
        };
        assert(r =~= self.spec_ink());
        r
    }

    pub open spec fn spec_default_invert(self) -> bool {
        self != Background::White
    }

    /// The ramp inversion that keeps glyph density tracking contrast against
    /// this canvas: on black, bright cells need dense glyphs. Pass this as
    /// [`crate::engine::Options::invert`] when converting for [`paint_png`].
    #[verifier::when_used_as_spec(spec_default_invert)]
    pub fn default_invert(self) -> (r: bool)
        ensures
            r == self.spec_default_invert(),
    {
        self != Background::White
    }

    pub open spec fn spec_matte(self) -> Option<[u8; 3]> {
        match self {
            Background::Black => Some([0, 0, 0]),
            Background::White => Some([255, 255, 255]),
            Background::Transparent => None,
        }
    }

    /// The color to composite semi-transparent source pixels over; see
    /// [`crate::engine::Options::matte`]. Transparent output keeps the source
    /// color and carries alpha through instead.
    #[verifier::when_used_as_spec(spec_matte)]
    pub fn matte(self) -> (r: Option<[u8; 3]>)
        ensures
            r == self.spec_matte(),
    {
        let (black, white) = ([0u8, 0u8, 0u8], [255u8, 255u8, 255u8]);
        assert(black =~= [0u8, 0u8, 0u8]);
        assert(white =~= [255u8, 255u8, 255u8]);
        match self {
            Background::Black => Some(black),
            Background::White => Some(white),
            Background::Transparent => None,
        }
    }
}

/// A pixel rectangle, `x1` and `y1` exclusive.
#[derive(Debug, Clone, Copy, PartialEq, Eq, Structural)]
pub struct Bounds {
    pub x0: u32,
    pub y0: u32,
    pub x1: u32,
    pub y1: u32,
}

impl Bounds {
    pub fn width(&self) -> (r: u32)
        requires
            self.x0 <= self.x1,
        ensures
            r == self.x1 - self.x0,
    {
        self.x1 - self.x0
    }

    pub fn height(&self) -> (r: u32)
        requires
            self.y0 <= self.y1,
        ensures
            r == self.y1 - self.y0,
    {
        self.y1 - self.y0
    }

    /// Whether a pixel lies in the rectangle.
    pub open spec fn holds(self, x: int, y: int) -> bool {
        self.x0 <= x < self.x1 && self.y0 <= y < self.y1
    }
}

/// Why nothing was painted.
#[derive(Debug, Clone, Copy, PartialEq, Eq, Structural)]
pub enum PaintError {
    /// The font size is not between 1 and [`MAX_FONT_PX`].
    FontPx(Single),
    /// The canvas would have more than [`MAX_CANVAS_PIXELS`] pixels.
    CanvasTooLarge(u64, u64),
    /// A glyph is too large or too far out to be drawn.
    GlyphTooLarge,
}

// The shortest decimal notation of a 32-bit floating-point number.
pub uninterp spec fn single_text(bits: u32) -> Seq<char>;

/// The text that `Display` of a 32-bit floating-point number writes.
///
/// Trusted: the text is a function of the encoding.
#[verifier::external_body]
pub(crate) fn display_single(bits: u32) -> (r: String)
    ensures
        r@ == single_text(bits),
{
    let p = Point { x: bytemuck::cast(bits), y: bytemuck::cast(bits) };
    format!("{}", p.x)
}

impl PaintError {
    /// What the error says to a user.
    pub open spec fn spec_message(self) -> Seq<char> {
        match self {
            PaintError::FontPx(px) => "font_px must be between 1 and 512 (got "@ + single_text(
                px.bits,
            ) + ")"@,
            PaintError::CanvasTooLarge(w, h) => "output canvas "@ + text::decimal(w as nat) + "x"@
                + text::decimal(h as nat)
                + " exceeds 500000000 pixels; lower --width or --font-px"@,
            PaintError::GlyphTooLarge => "a glyph is too large to draw"@,
        }
    }

    /// What the error says to a user.
    pub fn message(&self) -> (r: String)
        ensures
            r@ == self.spec_message(),
    {
        match self {
            PaintError::FontPx(px) => {
                let mut out = "font_px must be between 1 and 512 (got ".to_owned();
                out.append(display_single(px.bits).as_str());
                out.append(")");
                out
            },
            PaintError::CanvasTooLarge(w, h) => {
                let mut out = "output canvas ".to_owned();
                text::push_decimal(&mut out, *w);
                out.append("x");
                text::push_decimal(&mut out, *h);
                out.append(" exceeds 500000000 pixels; lower --width or --font-px");
                out
            },
            PaintError::GlyphTooLarge => "a glyph is too large to draw".to_owned(),
        }
    }
}

/// How to paint a grid.
#[derive(Debug, Clone, Copy)]
pub struct PaintOptions {
    pub background: Background,
    /// Paint each glyph with the cell's average source color.
    pub colored: bool,
    /// Trim blank margins from the finished canvas.
    pub crop: bool,
    /// Cell geometry, sized for the charset that produced the grid.
    pub metrics: CellMetrics,
    /// Glyph size in pixels; `metrics` must have been measured at this size.
    pub font_px: Single,
}

/// Whether a font size is accepted.
pub open spec fn font_px_ok(px: Single) -> bool {
    (Single { bits: ONE }).at_most(px) && px.at_most((Single { bits: MAX_FONT_PX }))
}

/// Whether a font size is accepted.
fn check_font_px(px: Single) -> (r: bool)
    ensures
        r == font_px_ok(px),
{
    let one = Single { bits: ONE };
    one.at_most(px) && px.at_most(Single { bits: MAX_FONT_PX })
}

impl PaintOptions {
    /// Measures `charset` in `fonts` and defaults to white on black, cropped.
    pub fn new(fonts: &FontStack, charset: &Charset, font_px: Single) -> (r: Result<
        PaintOptions,
        PaintError,
    >)
        requires
            fonts.wf(),
        ensures
            match r {
                Ok(opts) => {
                    &&& font_px_ok(font_px)
                    &&& opts.background == Background::Black
                    &&& !opts.colored
                    &&& opts.crop
                    &&& opts.metrics == font::spec_metrics(
                        fonts@,
                        charset.spec_glyphs(),
                        font_px,
                    )
                    &&& opts.metrics.wf()
                    &&& opts.font_px == font_px
                },
                Err(e) => !font_px_ok(font_px) && e == PaintError::FontPx(font_px),
            },
    {
        if !check_font_px(font_px) {
            return Err(PaintError::FontPx(font_px));
        }
        Ok(
            PaintOptions {
                background: Background::Black,
                colored: false,
                crop: true,
                metrics: fonts.cell_metrics(&charset.glyphs(), font_px),
                font_px,
            },
        )
    }

    pub fn background(self, background: Background) -> (r: PaintOptions)
        ensures
            r == (PaintOptions { background, ..self }),
    {
        PaintOptions { background, ..self }
    }

    pub fn colored(self, colored: bool) -> (r: PaintOptions)
        ensures
            r == (PaintOptions { colored, ..self }),
    {
        PaintOptions { colored, ..self }
    }

    pub fn crop(self, crop: bool) -> (r: PaintOptions)
        ensures
            r == (PaintOptions { crop, ..self }),
    {
        PaintOptions { crop, ..self }
    }
}

/// The width of the canvas of a grid.
pub open spec fn canvas_width(grid: &AsciiGrid, opts: &PaintOptions) -> nat {
    (opts.metrics.width * grid.cols) as nat
}

/// The height of the canvas of a grid.
pub open spec fn canvas_height(grid: &AsciiGrid, opts: &PaintOptions) -> nat {
    (opts.metrics.height * grid.rows) as nat
}

/// Whether the canvas of a grid has too many pixels.
pub open spec fn canvas_too_large(grid: &AsciiGrid, opts: &PaintOptions) -> bool {
    canvas_width(grid, opts) * canvas_height(grid, opts) > MAX_CANVAS_PIXELS
}

/// The larger of three channels.
pub open spec fn brightest(color: [u8; 3]) -> u8 {
    let a = if color[0] < color[1] {
        color[1]
    } else {
        color[0]
    };
    if a < color[2] {
        color[2]
    } else {
        a
    }
}

/// A channel multiplied by a gain, held to the range of a byte.
pub open spec fn boosted(channel: u8, gain: Single) -> u8 {
    Single::from_u64(channel as u64).times(gain).min((Single { bits: FULL })).to_u8()
}

/// The gain that moves the brightest channel 70% of the way to full intensity.
pub open spec fn boost_gain(max: u8) -> Single {
    let one = Single { bits: ONE };
    one.plus(
        (Single { bits: BOOST }).times(
            (Single { bits: FULL }).over(Single::from_u64(max as u64)).minus(one),
        ),
    )
}

/// A color with its brightest channel pushed toward full intensity.
pub open spec fn spec_brighten(color: [u8; 3]) -> [u8; 3] {
    let max = brightest(color);
    if max == 0 {
        color
    } else {
        let gain = boost_gain(max);
        [boosted(color[0], gain), boosted(color[1], gain), boosted(color[2], gain)]
    }
}

/// The color of the ink of a cell.
pub open spec fn cell_ink(opts: &PaintOptions, color: [u8; 3]) -> [u8; 3] {
    if !opts.colored {
        opts.background.ink()
    } else if opts.background == Background::White {
        color
    } else {
        spec_brighten(color)
    }
}

/// The opacity of a cell. On a transparent canvas the source alpha rides on the
/// glyph. Opaque canvases already had it composited into the cell color.
pub open spec fn cell_opacity(opts: &PaintOptions, alpha: u8) -> Single {
    if opts.background == Background::Transparent {
        Single::from_u64(alpha as u64).over((Single { bits: FULL }))
    } else {
        Single { bits: ONE }
    }
}

/// A channel blended with ink.
pub open spec fn blend_channel(bg: u8, fg: u8, alpha: Single) -> u8 {
    let b = Single::from_u64(bg as u64);
    b.plus(Single::from_u64(fg as u64).minus(b).times(alpha)).to_u8()
}

/// A whole number held to the range of a byte.
pub open spec fn to_byte(n: u64) -> u8 {
    if n > 255 {
        255
    } else {
        n as u8
    }
}

/// A pixel after ink of the given coverage. On a transparent canvas the pixel
/// becomes the ink with straight alpha; on an opaque one the ink is blended in.
pub open spec fn spec_blend(p: [u8; 4], ink: [u8; 3], alpha: Single, transparent: bool) -> [u8; 4] {
    if transparent {
        [
            ink[0],
            ink[1],
            ink[2],
            to_byte(alpha.times((Single { bits: FULL })).nearest_u64()),
        ]
    } else {
        [
            blend_channel(p[0], ink[0], alpha),
            blend_channel(p[1], ink[1], alpha),
            blend_channel(p[2], ink[2], alpha),
            p[3],
        ]
    }
}

/// A coverage held between 0 and 1.
pub open spec fn spec_clamp(v: Single) -> Single {
    if v.less((Single { bits: 0 })) {
        Single { bits: 0 }
    } else if (Single { bits: ONE }).less(v) {
        Single { bits: ONE }
    } else {
        v
    }
}

/// What ink is put into a cell with.
#[derive(Clone, Copy, Debug)]
pub struct Pen {
    pub ink: [u8; 3],
    pub opacity: Single,
    pub transparent: bool,
}

/// A pixel after the first `n` pixels of a glyph were drawn into `area`, where
/// (`left`, `top`) is the corner of the bounds of the glyph.
pub open spec fn glyph_pixel(
    p: [u8; 4],
    dabs: Seq<(u32, u32, u32)>,
    n: nat,
    left: int,
    top: int,
    area: Bounds,
    pen: Pen,
    x: int,
    y: int,
) -> [u8; 4]
    decreases n,
{
    if n == 0 {
        p
    } else {
        let before = glyph_pixel(p, dabs, (n - 1) as nat, left, top, area, pen, x, y);
        let (gx, gy, coverage) = dabs[n - 1];
        if area.holds(x, y) && left + gx == x && top + gy == y {
            let alpha = spec_clamp((Single { bits: coverage })).times(pen.opacity);
            spec_blend(before, pen.ink, alpha, pen.transparent)
        } else {
            before
        }
    }
}

/// Center, radius and reach of a braille dot.
#[derive(Clone, Copy, Debug)]
pub struct Disc {
    pub x: Single,
    pub y: Single,
    pub radius: Single,
    pub area: Bounds,
}

/// The first pixel that a disc can reach along a side of a cell that starts at
/// `start`.
pub open spec fn reach_from(center: Single, radius: Single, start: u32) -> u32 {
    center.minus(radius).minus((Single { bits: ONE })).floor().max(
        Single::from_u64(start as u64),
    ).to_u32()
}

/// The smallest of three numbers.
pub open spec fn least(a: u32, b: u32, c: u32) -> u32 {
    let d = if b < a {
        b
    } else {
        a
    };
    if c < d {
        c
    } else {
        d
    }
}

/// The pixel after the last one that a disc can reach.
pub open spec fn reach_to(center: Single, radius: Single, stop: u32, limit: u32) -> u32 {
    least(center.plus(radius).plus((Single { bits: ONE })).ceil().to_u32(), stop, limit)
}

/// The center of a dot along a side.
pub open spec fn dot_center(start: u32, at: u32, room: Single) -> Single {
    Single::from_u64(start as u64).plus(
        Single::from_u64(at as u64).plus((Single { bits: HALF })).times(room),
    )
}

/// The disc of dot `i` of the cell `area`, on a canvas of the given size.
pub open spec fn spec_disc(area: Bounds, i: u32, width: u32, height: u32) -> Disc {
    let w = Single::from_u64((area.x1 - area.x0) as u64).over((Single { bits: TWO }));
    let h = Single::from_u64((area.y1 - area.y0) as u64).over((Single { bits: FOUR }));
    let radius = w.min(h).times((Single { bits: DOT_FILL })).max((Single { bits: HALF }));
    let x = dot_center(area.x0, (i % 2) as u32, w);
    let y = dot_center(area.y0, (i / 2) as u32, h);
    Disc {
        x,
        y,
        radius,
        area: Bounds {
            x0: reach_from(x, radius, area.x0),
            y0: reach_from(y, radius, area.y0),
            x1: reach_to(x, radius, area.x1, width),
            y1: reach_to(y, radius, area.y1, height),
        },
    }
}

/// The square of the distance of the middle of a pixel from a center.
pub open spec fn off_center(at: u32, center: Single) -> Single {
    let d = Single::from_u64(at as u64).plus((Single { bits: HALF })).minus(center);
    d.times(d)
}

/// How much of a pixel a disc covers, with one pixel of feathering at the rim.
pub open spec fn disc_coverage(disc: Disc, x: u32, y: u32) -> Single {
    let d = off_center(x, disc.x).plus(off_center(y, disc.y)).root();
    spec_clamp(disc.radius.plus((Single { bits: HALF })).minus(d))
}

/// A pixel after one disc.
pub open spec fn disc_pixel(p: [u8; 4], disc: Disc, pen: Pen, x: int, y: int) -> [u8; 4] {
    let coverage = disc_coverage(disc, x as u32, y as u32);
    if disc.area.holds(x, y) && (Single { bits: 0 }).less(coverage) {
        spec_blend(p, pen.ink, coverage.times(pen.opacity), pen.transparent)
    } else {
        p
    }
}

/// A pixel after the first `n` dots of a braille cell.
pub open spec fn braille_pixel(
    p: [u8; 4],
    bits: u8,
    area: Bounds,
    width: u32,
    height: u32,
    pen: Pen,
    n: nat,
    x: int,
    y: int,
) -> [u8; 4]
    decreases n,
{
    if n == 0 {
        p
    } else {
        let i = (n - 1) as u32;
        let before = braille_pixel(p, bits, area, width, height, pen, (n - 1) as nat, x, y);
        if bits & braille::spec_dot_bit((i % 2) as u32, (i / 2) as u32) != 0 {
            disc_pixel(before, spec_disc(area, i, width, height), pen, x, y)
        } else {
            before
        }
    }
}

/// Whether a character is one of the 256 braille patterns.
pub open spec fn spec_is_braille(ch: char) -> bool {
    0x2800 <= ch as u32 <= 0x28ff
}

/// The dots of a braille pattern.
pub open spec fn pattern_bits(ch: char) -> u8 {
    (ch as u32 - 0x2800) as u8
}

/// The pixels of a cell.
pub open spec fn cell_area(opts: &PaintOptions, row: int, col: int) -> Bounds {
    Bounds {
        x0: (col * opts.metrics.width) as u32,
        y0: (row * opts.metrics.height) as u32,
        x1: (col * opts.metrics.width + opts.metrics.width) as u32,
        y1: (row * opts.metrics.height + opts.metrics.height) as u32,
    }
}

/// Where the glyph of a cell is placed.
pub open spec fn glyph_place(opts: &PaintOptions, area: Bounds) -> (Single, Single) {
    (
        Single::from_u64(area.x0 as u64),
        Single::from_u64(area.y0 as u64).plus(opts.metrics.ascent),
    )
}

/// The pixel bounds of the glyph of a cell.
pub open spec fn placed_box(font: Seq<u8>, glyph: u16, opts: &PaintOptions, area: Bounds) -> Option<
    (u32, u32, u32, u32),
> {
    let (x, y) = glyph_place(opts, area);
    font::glyph_box(font, glyph, opts.font_px.bits, x.bits, y.bits)
}

/// A pixel of the canvas after the glyph of the cell in column `col` of row
/// `row` was painted.
///
/// Characters that no font draws are left blank, but for braille patterns: a box
/// in every cell would destroy the picture, so their dots are plotted.
pub open spec fn cell_pixel(
    p: [u8; 4],
    grid: &AsciiGrid,
    fonts: Seq<Seq<u8>>,
    opts: &PaintOptions,
    row: int,
    col: int,
    x: int,
    y: int,
) -> [u8; 4] {
    let cell = grid.cell(row, col);
    let area = cell_area(opts, row, col);
    let pen = Pen {
        ink: cell_ink(opts, cell.color),
        opacity: cell_opacity(opts, cell.alpha),
        transparent: opts.background == Background::Transparent,
    };
    if cell.ch == ' ' {
        p
    } else {
        match font::spec_locate(fonts, cell.ch, 0) {
            Some(loc) => {
                let font = fonts[loc.font as int];
                let (gx, gy) = glyph_place(opts, area);
                let dabs = font::glyph_ink(font, loc.glyph, opts.font_px.bits, gx.bits, gy.bits);
                match placed_box(font, loc.glyph, opts, area) {
                    None => p,
                    Some(b) => glyph_pixel(
                        p,
                        dabs,
                        dabs.len(),
                        (Single { bits: b.0 }).to_i64() as int,
                        (Single { bits: b.1 }).to_i64() as int,
                        area,
                        pen,
                        x,
                        y,
                    ),
                }
            },
            None => if spec_is_braille(cell.ch) {
                braille_pixel(
                    p,
                    pattern_bits(cell.ch),
                    area,
                    canvas_width(grid, opts) as u32,
                    canvas_height(grid, opts) as u32,
                    pen,
                    8,
                    x,
                    y,
                )
            } else {
                p
            },
        }
    }
}

/// Whether the glyph of a cell cannot be drawn.
pub open spec fn cell_fails(
    grid: &AsciiGrid,
    fonts: Seq<Seq<u8>>,
    opts: &PaintOptions,
    row: int,
    col: int,
) -> bool {
    let ch = grid.cell(row, col).ch;
    let area = cell_area(opts, row, col);
    &&& ch != ' '
    &&& font::spec_locate(fonts, ch, 0) matches Some(loc)
    &&& !font::glyph_drawable(
        fonts[loc.font as int],
        loc.glyph,
        opts.font_px.bits,
        glyph_place(opts, area).0.bits,
        glyph_place(opts, area).1.bits,
    )
}

/// A pixel of the canvas after the first `n` cells were painted, row by row.
pub open spec fn painted(
    grid: &AsciiGrid,
    fonts: Seq<Seq<u8>>,
    opts: &PaintOptions,
    n: nat,
    x: int,
    y: int,
) -> [u8; 4]
    decreases n,
{
    if n == 0 {
        opts.background.fill()
    } else {
        let i = n - 1;
        cell_pixel(
            painted(grid, fonts, opts, i as nat, x, y),
            grid,
            fonts,
            opts,
            i / grid.cols as int,
            i % grid.cols as int,
            x,
            y,
        )
    }
}

/// The number of cells of a grid.
pub open spec fn cell_count(grid: &AsciiGrid) -> nat {
    (grid.rows * grid.cols) as nat
}

/// Whether the glyph of some cell cannot be drawn. Nothing is drawn on a canvas without
/// pixels.
pub open spec fn any_cell_fails(grid: &AsciiGrid, fonts: Seq<Seq<u8>>, opts: &PaintOptions) -> bool {
    opts.metrics.wf() && exists|row: int, col: int|
        0 <= row < grid.rows && 0 <= col < grid.cols && #[trigger] cell_fails(
            grid,
            fonts,
            opts,
            row,
            col,
        )
}

/// What keeps a grid from being painted.
pub open spec fn paint_error(grid: &AsciiGrid, fonts: Seq<Seq<u8>>, opts: &PaintOptions) -> Option<
    PaintError,
> {
    if !font_px_ok(opts.font_px) {
        Some(PaintError::FontPx(opts.font_px))
    } else if canvas_too_large(grid, opts) {
        Some(
            PaintError::CanvasTooLarge(
                canvas_width(grid, opts) as u64,
                canvas_height(grid, opts) as u64,
            ),
        )
    } else if any_cell_fails(grid, fonts, opts) {
        Some(PaintError::GlyphTooLarge)
    } else {
        None
    }
}

/// The low 32 bits of a size.
pub open spec fn low_bits(n: nat) -> u32 {
    (n % 0x1_0000_0000) as u32
}

/// Whether an image is the painted canvas of a grid.
pub open spec fn is_canvas(
    img: &RgbaImage,
    grid: &AsciiGrid,
    fonts: Seq<Seq<u8>>,
    opts: &PaintOptions,
) -> bool {
    &&& img.wf()
    &&& img.width() == low_bits(canvas_width(grid, opts))
    &&& img.height() == low_bits(canvas_height(grid, opts))
    &&& forall|x: int, y: int|
        0 <= x < img.width() && 0 <= y < img.height() ==> #[trigger] img.pixel(x, y) == painted(
            grid,
            fonts,
            opts,
            cell_count(grid),
            x,
            y,
        )
}

/// Whether a grid that is going to be painted is well-formed. One that is
/// rejected before its cells are looked at need not be.
pub open spec fn paintable(grid: &AsciiGrid, opts: &PaintOptions) -> bool {
    grid.wf() || !font_px_ok(opts.font_px) || canvas_too_large(grid, opts)
}

/// Whether a pixel differs from the background.
pub open spec fn is_drawn(p: [u8; 4], background: Background) -> bool {
    if background == Background::Transparent {
        p[3] != 0
    } else {
        p != background.fill()
    }
}

/// Whether some pixel of an image differs from the background.
pub open spec fn has_content(img: &RgbaImage, background: Background) -> bool {
    exists|x: int, y: int|
        0 <= x < img.width() && 0 <= y < img.height() && is_drawn(
            #[trigger] img.pixel(x, y),
            background,
        )
}

/// Whether some drawn pixel of an image has the given column.
pub open spec fn column_drawn(img: &RgbaImage, background: Background, x: int) -> bool {
    exists|y: int| 0 <= y < img.height() && is_drawn(#[trigger] img.pixel(x, y), background)
}

/// Whether some drawn pixel of an image has the given row.
pub open spec fn row_drawn(img: &RgbaImage, background: Background, y: int) -> bool {
    exists|x: int| 0 <= x < img.width() && is_drawn(#[trigger] img.pixel(x, y), background)
}

/// Whether a rectangle is the bounding box of everything that is drawn: it holds
/// all of it, and something is drawn along each of its four sides.
pub open spec fn is_content_box(b: Bounds, img: &RgbaImage, background: Background) -> bool {
    &&& b.x0 < b.x1 <= img.width()
    &&& b.y0 < b.y1 <= img.height()
    &&& forall|x: int, y: int|
        0 <= x < img.width() && 0 <= y < img.height() && is_drawn(
            #[trigger] img.pixel(x, y),
            background,
        ) ==> b.holds(x, y)
    &&& column_drawn(img, background, b.x0 as int)
    &&& column_drawn(img, background, b.x1 - 1)
    &&& row_drawn(img, background, b.y0 as int)
    &&& row_drawn(img, background, b.y1 - 1)
}

/// Whether an image is the part of another one inside a rectangle.
pub open spec fn is_crop(r: &RgbaImage, img: &RgbaImage, b: Bounds) -> bool {
    &&& r.wf()
    &&& r.width() == b.x1 - b.x0
    &&& r.height() == b.y1 - b.y0
    &&& forall|x: int, y: int|
        0 <= x < r.width() && 0 <= y < r.height() ==> #[trigger] r.pixel(x, y) == img.pixel(
            b.x0 + x,
            b.y0 + y,
        )
}

/// Value-normalizes a cell color: keeps the hue, pushes the brightest channel
/// toward full intensity. On dark backgrounds glyph density already encodes
/// luminance, so without this boost colored output ends up muddy.
fn brighten(color: [u8; 3]) -> (r: [u8; 3])
    ensures
        r == spec_brighten(color),
{
    let a = if color[0] < color[1] {
        color[1]
    } else {
        color[0]
    };
    let max = if a < color[2] {
        color[2]
    } else {
        a
    };
    if max == 0 {
        return color;
    }
    let one = Single { bits: ONE };
    let full = Single { bits: FULL };
    let gain = one.plus(
        Single { bits: BOOST }.times(full.over(Single::from_u64(max as u64)).minus(one)),
    );
    let r = [
        Single::from_u64(color[0] as u64).times(gain).min(full).to_u8(),
        Single::from_u64(color[1] as u64).times(gain).min(full).to_u8(),
        Single::from_u64(color[2] as u64).times(gain).min(full).to_u8(),
    ];
    assert(r =~= spec_brighten(color));
    r
}

/// A channel blended with ink.
fn mixed(bg: u8, fg: u8, alpha: Single) -> (r: u8)
    ensures
        r == blend_channel(bg, fg, alpha),
{
    let b = Single::from_u64(bg as u64);
    b.plus(Single::from_u64(fg as u64).minus(b).times(alpha)).to_u8()
}

/// Paints one pixel of ink at `alpha` coverage.
fn blend(img: &mut RgbaImage, x: u32, y: u32, ink: [u8; 3], alpha: Single, transparent: bool)
    requires
        old(img).wf(),
        x < old(img).width(),
        y < old(img).height(),
    ensures
        final(img).wf(),
        final(img).width() == old(img).width(),
        final(img).height() == old(img).height(),
        final(img).pixel(x as int, y as int) == spec_blend(
            old(img).pixel(x as int, y as int),
            ink,
            alpha,
            transparent,
        ),
        forall|i: int, j: int|
            0 <= i < old(img).width() && 0 <= j < old(img).height() && !(i == x && j == y)
                ==> #[trigger] final(img).pixel(i, j) == old(img).pixel(i, j),
{
    let p = img.get_pixel(x, y);
    let q = if transparent {
        let n = alpha.times(Single { bits: FULL }).nearest_u64();
        [
            ink[0],
            ink[1],
            ink[2],
            if n > 255 {
                255
            } else {
                n as u8
            },
        ]
    } else {
        [mixed(p[0], ink[0], alpha), mixed(p[1], ink[1], alpha), mixed(p[2], ink[2], alpha), p[3]]
    };
    assert(q =~= spec_blend(p, ink, alpha, transparent));
    img.put_pixel(x, y, q);
}

/// A coverage held between 0 and 1.
fn clamped(v: Single) -> (r: Single)
    ensures
        r == spec_clamp(v),
{
    let (zero, one) = (Single { bits: 0 }, Single { bits: ONE });
    if v.less(zero) {
        zero
    } else if one.less(v) {
        one
    } else {
        v
    }
}

/// Is this one of the 256 braille patterns?
pub fn is_braille(ch: char) -> (r: bool)
    ensures
        r == spec_is_braille(ch),
{
    let code = ch as u32;
    0x2800 <= code && code <= 0x28ff
}

/// Copies the pixels of a glyph into a cell, clipped to it, so that overshooting
/// glyphs cannot bleed color into neighboring cells.
fn draw_glyph(img: &mut RgbaImage, o: &font::Outline, area: Bounds, pen: Pen)
    requires
        old(img).wf(),
        area.x1 <= old(img).width(),
        area.y1 <= old(img).height(),
    ensures
        final(img).wf(),
        final(img).width() == old(img).width(),
        final(img).height() == old(img).height(),
        forall|x: int, y: int|
            0 <= x < old(img).width() && 0 <= y < old(img).height() ==> #[trigger] final(img).pixel(x, y) == glyph_pixel(
                old(img).pixel(x, y),
                o.ink@,
                o.ink@.len(),
                o.min_x.to_i64() as int,
                o.min_y.to_i64() as int,
                area,
                pen,
                x,
                y,
            ),
{
    let left = o.min_x.to_i64() as i128;
    let top = o.min_y.to_i64() as i128;
    let ghost before = *img;
    let mut i: usize = 0;
    while i < o.ink.len()
        invariant
            i <= o.ink@.len(),
            left == o.min_x.to_i64(),
            top == o.min_y.to_i64(),
            img.wf(),
            img.width() == before.width(),
            img.height() == before.height(),
            area.x1 <= img.width(),
            area.y1 <= img.height(),
            forall|x: int, y: int|
                0 <= x < img.width() && 0 <= y < img.height() ==> #[trigger] img.pixel(x, y)
                    == glyph_pixel(
                    before.pixel(x, y),
                    o.ink@,
                    i as nat,
                    left as int,
                    top as int,
                    area,
                    pen,
                    x,
                    y,
                ),
        decreases o.ink@.len() - i,
    {
        let (gx, gy, coverage) = o.ink[i];
        let x = left + gx as i128;
        let y = top + gy as i128;
        let ghost prior = *img;
        if area.x0 as i128 <= x && x < area.x1 as i128 && area.y0 as i128 <= y && y
            < area.y1 as i128 {
            let alpha = clamped(Single { bits: coverage }).times(pen.opacity);
            blend(img, x as u32, y as u32, pen.ink, alpha, pen.transparent);
        }
        proof {
            assert forall|px: int, py: int|
                0 <= px < img.width() && 0 <= py < img.height() implies #[trigger] img.pixel(
                px,
                py,
            ) == glyph_pixel(
                before.pixel(px, py),
                o.ink@,
                (i + 1) as nat,
                left as int,
                top as int,
                area,
                pen,
                px,
                py,
            ) by {
                assert(prior.pixel(px, py) == glyph_pixel(
                    before.pixel(px, py),
                    o.ink@,
                    i as nat,
                    left as int,
                    top as int,
                    area,
                    pen,
                    px,
                    py,
                ));
                if !(px == x && py == y) {
                    assert(img.pixel(px, py) == prior.pixel(px, py));
                }
            }
        }
        i = i + 1;
    }
}

/// The first pixel that a disc can reach along a side of a cell.
fn first_reached(center: Single, radius: Single, start: u32) -> (r: u32)
    ensures
        r == reach_from(center, radius, start),
{
    center.minus(radius).minus(Single { bits: ONE }).floor().max(
        Single::from_u64(start as u64),
    ).to_u32()
}

/// The pixel after the last one that a disc can reach.
fn last_reached(center: Single, radius: Single, stop: u32, limit: u32) -> (r: u32)
    ensures
        r == reach_to(center, radius, stop, limit),
        r <= stop,
        r <= limit,
{
    let a = center.plus(radius).plus(Single { bits: ONE }).ceil().to_u32();
    let d = if stop < a {
        stop
    } else {
        a
    };
    if limit < d {
        limit
    } else {
        d
    }
}

/// The center of a dot along a side.
fn centered(start: u32, at: u32, room: Single) -> (r: Single)
    ensures
        r == dot_center(start, at, room),
{
    Single::from_u64(start as u64).plus(
        Single::from_u64(at as u64).plus(Single { bits: HALF }).times(room),
    )
}

/// The square of the distance of the middle of a pixel from a center.
fn squared_offset(at: u32, center: Single) -> (r: Single)
    ensures
        r == off_center(at, center),
{
    let d = Single::from_u64(at as u64).plus(Single { bits: HALF }).minus(center);
    d.times(d)
}

/// The disc of dot `i` of the cell `area`.
fn disc_of(area: Bounds, i: u32, width: u32, height: u32) -> (r: Disc)
    requires
        area.x0 <= area.x1,
        area.y0 <= area.y1,
    ensures
        r == spec_disc(area, i, width, height),
        r.area.x1 <= width,
        r.area.y1 <= height,
{
    let w = Single::from_u64((area.x1 - area.x0) as u64).over(Single { bits: TWO });
    let h = Single::from_u64((area.y1 - area.y0) as u64).over(Single { bits: FOUR });
    let radius = w.min(h).times(Single { bits: DOT_FILL }).max(Single { bits: HALF });
    let x = centered(area.x0, i % 2, w);
    let y = centered(area.y0, i / 2, h);
    Disc {
        x,
        y,
        radius,
        area: Bounds {
            x0: first_reached(x, radius, area.x0),
            y0: first_reached(y, radius, area.y0),
            x1: last_reached(x, radius, area.x1, width),
            y1: last_reached(y, radius, area.y1, height),
        },
    }
}

/// Plots one disc.
fn draw_disc(img: &mut RgbaImage, disc: Disc, pen: Pen)
    requires
        old(img).wf(),
        disc.area.x1 <= old(img).width(),
        disc.area.y1 <= old(img).height(),
    ensures
        final(img).wf(),
        final(img).width() == old(img).width(),
        final(img).height() == old(img).height(),
        forall|x: int, y: int|
            0 <= x < old(img).width() && 0 <= y < old(img).height() ==> #[trigger] final(img).pixel(x, y) == disc_pixel(old(img).pixel(x, y), disc, pen, x, y),
{
    let ghost before = *img;
    let mut y = disc.area.y0;
    while y < disc.area.y1
        invariant
            disc.area.y0 <= y,
            y <= disc.area.y1 || y == disc.area.y0,
            img.wf(),
            img.width() == before.width(),
            img.height() == before.height(),
            disc.area.x1 <= img.width(),
            disc.area.y1 <= img.height(),
            forall|px: int, py: int|
                0 <= px < img.width() && 0 <= py < img.height() ==> #[trigger] img.pixel(px, py)
                    == (if py < y {
                    disc_pixel(before.pixel(px, py), disc, pen, px, py)
                } else {
                    before.pixel(px, py)
                }),
        decreases disc.area.y1 - y,
    {
        let dy = squared_offset(y, disc.y);
        let mut x = disc.area.x0;
        while x < disc.area.x1
            invariant
                dy == off_center(y, disc.y),
                disc.area.y0 <= y < disc.area.y1,
                disc.area.x0 <= x,
                x <= disc.area.x1 || x == disc.area.x0,
                img.wf(),
                img.width() == before.width(),
                img.height() == before.height(),
                disc.area.x1 <= img.width(),
                disc.area.y1 <= img.height(),
                forall|px: int, py: int|
                    0 <= px < img.width() && 0 <= py < img.height() ==> #[trigger] img.pixel(
                        px,
                        py,
                    ) == (if py < y || (py == y && px < x) {
                        disc_pixel(before.pixel(px, py), disc, pen, px, py)
                    } else {
                        before.pixel(px, py)
                    }),
            decreases disc.area.x1 - x,
        {
            let ghost prior = *img;
            let d = squared_offset(x, disc.x).plus(dy).root();
            let coverage = clamped(disc.radius.plus(Single { bits: HALF }).minus(d));
            let zero = Single { bits: 0 };
            if zero.less(coverage) {
                blend(img, x, y, pen.ink, coverage.times(pen.opacity), pen.transparent);
            }
            proof {
                assert forall|px: int, py: int|
                    0 <= px < img.width() && 0 <= py < img.height() implies #[trigger] img.pixel(
                    px,
                    py,
                ) == (if py < y || (py == y && px < x + 1) {
                    disc_pixel(before.pixel(px, py), disc, pen, px, py)
                } else {
                    before.pixel(px, py)
                }) by {
                    assert(prior.pixel(px, py) == (if py < y || (py == y && px < x) {
                        disc_pixel(before.pixel(px, py), disc, pen, px, py)
                    } else {
                        before.pixel(px, py)
                    }));
                    if !(px == x && py == y) {
                        assert(img.pixel(px, py) == prior.pixel(px, py));
                    }
                }
            }
            x = x + 1;
        }
        y = y + 1;
    }
}

/// Plots a braille cell as eight possible dots.
fn draw_braille(img: &mut RgbaImage, area: Bounds, bits: u8, pen: Pen)
    requires
        old(img).wf(),
        area.x0 <= area.x1,
        area.y0 <= area.y1,
    ensures
        final(img).wf(),
        final(img).width() == old(img).width(),
        final(img).height() == old(img).height(),
        forall|x: int, y: int|
            0 <= x < old(img).width() && 0 <= y < old(img).height() ==> #[trigger] final(img).pixel(x, y) == braille_pixel(
                old(img).pixel(x, y),
                bits,
                area,
                old(img).width(),
                old(img).height(),
                pen,
                8,
                x,
                y,
            ),
{
    let (w, h) = img.dimensions();
    let ghost before = *img;
    let mut i: u32 = 0;
    while i < 8
        invariant
            i <= 8,
            area.x0 <= area.x1,
            area.y0 <= area.y1,
            img.wf(),
            img.width() == w,
            img.height() == h,
            w == before.width(),
            h == before.height(),
            forall|x: int, y: int|
                0 <= x < w && 0 <= y < h ==> #[trigger] img.pixel(x, y) == braille_pixel(
                    before.pixel(x, y),
                    bits,
                    area,
                    w,
                    h,
                    pen,
                    i as nat,
                    x,
                    y,
                ),
        decreases 8 - i,
    {
        let ghost prior = *img;
        if bits & dot_bit(i % 2, i / 2) != 0 {
            let disc = disc_of(area, i, w, h);
            draw_disc(img, disc, pen);
        }
        proof {
            assert forall|x: int, y: int| 0 <= x < w && 0 <= y < h implies #[trigger] img.pixel(x, y)
                == braille_pixel(before.pixel(x, y), bits, area, w, h, pen, (i + 1) as nat, x, y) by {
                assert(prior.pixel(x, y) == braille_pixel(
                    before.pixel(x, y),
                    bits,
                    area,
                    w,
                    h,
                    pen,
                    i as nat,
                    x,
                    y,
                ));
            }
        }
        i = i + 1;
    }
}

/// Cells lie inside the canvas.
pub proof fn lemma_cell_area(grid: &AsciiGrid, opts: &PaintOptions, row: int, col: int)
    requires
        !canvas_too_large(grid, opts),
        0 <= row < grid.rows,
        0 <= col < grid.cols,
        opts.metrics.wf(),
    ensures
        ({
            let (w, h) = (opts.metrics.width as int, opts.metrics.height as int);
            &&& 0 <= col * w <= col * w + w <= canvas_width(grid, opts)
            &&& 0 <= row * h <= row * h + h <= canvas_height(grid, opts)
            &&& canvas_width(grid, opts) <= MAX_CANVAS_PIXELS
            &&& canvas_height(grid, opts) <= MAX_CANVAS_PIXELS
        }),
{
    let (w, h) = (opts.metrics.width as int, opts.metrics.height as int);
    let (cw, ch) = (canvas_width(grid, opts) as int, canvas_height(grid, opts) as int);
    assert(0 <= col * w && col * w + w <= w * grid.cols && w * grid.cols > 0) by (nonlinear_arith)
        requires
            0 <= col,
            col + 1 <= grid.cols,
            w > 0,
    ;
    assert(0 <= row * h && row * h + h <= h * grid.rows && h * grid.rows > 0) by (nonlinear_arith)
        requires
            0 <= row,
            row + 1 <= grid.rows,
            h > 0,
    ;
    assert(cw <= cw * ch && ch <= cw * ch) by (nonlinear_arith)
        requires
            cw >= 1,
            ch >= 1,
    ;
}

/// Paints one cell.
fn draw_cell(
    img: &mut RgbaImage,
    grid: &AsciiGrid,
    fonts: &FontStack,
    located: Option<&Located>,
    opts: &PaintOptions,
    row: u32,
    col: u32,
) -> (r: Result<(), PaintError>)
    requires
        old(img).wf(),
        grid.wf(),
        row < grid.rows,
        col < grid.cols,
        !canvas_too_large(grid, opts),
        opts.metrics.wf(),
        old(img).width() == canvas_width(grid, opts),
        old(img).height() == canvas_height(grid, opts),
        grid.cell(row as int, col as int).ch != ' ',
        ({
            let spec = font::spec_locate(fonts@, grid.cell(row as int, col as int).ch, 0);
            match located {
                Some(loc) => spec == Some(*loc) && loc.font < fonts@.len(),
                None => spec is None,
            }
        }),
    ensures
        final(img).wf(),
        final(img).width() == old(img).width(),
        final(img).height() == old(img).height(),
        match r {
            Ok(_) => {
                &&& !cell_fails(grid, fonts@, opts, row as int, col as int)
                &&& forall|x: int, y: int|
                    0 <= x < old(img).width() && 0 <= y < old(img).height() ==> #[trigger] final(img).pixel(x, y) == cell_pixel(
                        old(img).pixel(x, y),
                        grid,
                        fonts@,
                        opts,
                        row as int,
                        col as int,
                        x,
                        y,
                    )
            },
            Err(e) => cell_fails(grid, fonts@, opts, row as int, col as int) && e
                == PaintError::GlyphTooLarge,
        },
{
    let ghost (gr, gc) = (row as int, col as int);
    proof {
        lemma_cell_area(grid, opts, gr, gc);
        lemma_cell(grid, gr, gc);
    }
    let (w, h) = (opts.metrics.width, opts.metrics.height);
    let ch = grid.char_at(row, col);
    let color = grid.color_at(row, col);
    let transparent = opts.background == Background::Transparent;
    let ink = if !opts.colored {
        opts.background.ink()
    } else if opts.background == Background::White {
        color
    } else {
        brighten(color)
    };
    let opacity = if transparent {
        Single::from_u64(grid.alpha_at(row, col) as u64).over(Single { bits: FULL })
    } else {
        Single { bits: ONE }
    };
    let pen = Pen { ink, opacity, transparent };
    let (x0, y0) = (col * w, row * h);
    let area = Bounds { x0, y0, x1: x0 + w, y1: y0 + h };
    assert(area == cell_area(opts, gr, gc));
    match located {
        Some(loc) => {
            let x = Single::from_u64(x0 as u64);
            let y = Single::from_u64(y0 as u64).plus(opts.metrics.ascent);
            match outline(fonts.get(loc.font), loc.glyph, opts.font_px, x, y) {
                Err(_) => Err(PaintError::GlyphTooLarge),
                Ok(None) => Ok(()),
                Ok(Some(o)) => {
                    draw_glyph(img, &o, area, pen);
                    Ok(())
                },
            }
        },
        None => {
            if is_braille(ch) {
                draw_braille(img, area, (ch as u32 - 0x2800) as u8, pen);
            }
            Ok(())
        },
    }
}

/// Cells lie inside the grid.
pub proof fn lemma_cell(grid: &AsciiGrid, row: int, col: int)
    requires
        0 <= row < grid.rows,
        0 <= col < grid.cols,
    ensures
        0 <= crate::engine::cell_index(grid.cols, row, col) < grid.rows * grid.cols,
        row * grid.cols >= 0,
{
    assert(0 <= row * grid.cols && row * grid.cols + col < grid.rows * grid.cols) by (nonlinear_arith)
        requires
            0 <= row,
            row + 1 <= grid.rows,
            0 <= col < grid.cols,
    ;
}

/// Paints the full, uncropped canvas.
///
/// Animations use this directly: every frame has to keep the same dimensions, so
/// they crop with one shared [`Bounds`] instead of per frame.
pub fn paint_canvas(grid: &AsciiGrid, fonts: &FontStack, opts: &PaintOptions) -> (r: Result<
    RgbaImage,
    PaintError,
>)
    requires
        paintable(grid, opts),
    ensures
        match r {
            Ok(img) => paint_error(grid, fonts@, opts) is None && is_canvas(
                &img,
                grid,
                fonts@,
                opts,
            ),
            Err(e) => paint_error(grid, fonts@, opts) == Some(e),
        },
{
    if !check_font_px(opts.font_px) {
        return Err(PaintError::FontPx(opts.font_px));
    }
    let (cell_w, cell_h) = (opts.metrics.width, opts.metrics.height);
    proof {
        pixels::lemma_size(cell_w, grid.cols);
        pixels::lemma_size(cell_h, grid.rows);
    }
    let out_w = cell_w as u64 * grid.cols as u64;
    let out_h = cell_h as u64 * grid.rows as u64;
    proof {
        assert(0 <= out_w as u128 * out_h as u128 <= 0xffff_ffff_ffff_ffff * 0xffff_ffff_ffff_ffff)
            by (nonlinear_arith)
            requires
                0 <= out_w <= 0xffff_ffff_ffff_ffff,
                0 <= out_h <= 0xffff_ffff_ffff_ffff,
        ;
    }
    if out_w as u128 * out_h as u128 > MAX_CANVAS_PIXELS as u128 {
        return Err(PaintError::CanvasTooLarge(out_w, out_h));
    }
    let width = (out_w % 0x1_0000_0000) as u32;
    let height = (out_h % 0x1_0000_0000) as u32;
    proof {
        assert(width * height <= out_w * out_h) by (nonlinear_arith)
            requires
                0 <= width <= out_w,
                0 <= height <= out_h,
        ;
    }
    let mut img = RgbaImage::from_pixel(width, height, opts.background.fill());
    if cell_w == 0 || cell_h == 0 {
        proof {
            assert(canvas_width(grid, opts) == 0 || canvas_height(grid, opts) == 0)
                by (nonlinear_arith)
                requires
                    cell_w == 0 || cell_h == 0,
                    canvas_width(grid, opts) == cell_w * grid.cols,
                    canvas_height(grid, opts) == cell_h * grid.rows,
            ;
        }
        return Ok(img);
    }
    let located = fonts.locate_all(&grid.chars);
    let ghost n = cell_count(grid);
    proof {
        if n > 0 {
            assert(grid.rows > 0 && grid.cols > 0) by (nonlinear_arith)
                requires
                    grid.rows * grid.cols > 0,
                    grid.rows >= 0,
                    grid.cols >= 0,
            ;
            lemma_cell_area(grid, opts, 0, 0);
        }
    }
    let mut row: u32 = 0;
    assert(0 * grid.cols == 0) by (nonlinear_arith);
    while row < grid.rows
        invariant
            n == cell_count(grid),
            grid.wf(),
            opts.metrics.wf(),
            font_px_ok(opts.font_px),
            !canvas_too_large(grid, opts),
            row <= grid.rows,
            img.wf(),
            img.width() == width,
            img.height() == height,
            n > 0 ==> width == canvas_width(grid, opts) && height == canvas_height(grid, opts),
            forall|c: char| #[trigger]
                located@.contains_key(c as u32) <==> grid.chars@.contains(c) && font::drawn(
                    fonts@,
                    c,
                ),
            forall|c: char| #[trigger]
                located@.contains_key(c as u32) ==> font::spec_locate(fonts@, c, 0) == Some(
                    located@[c as u32],
                ),
            forall|x: int, y: int|
                0 <= x < width && 0 <= y < height ==> #[trigger] img.pixel(x, y) == painted(
                    grid,
                    fonts@,
                    opts,
                    (row * grid.cols) as nat,
                    x,
                    y,
                ),
            forall|r: int, c: int|
                0 <= r < row && 0 <= c < grid.cols ==> !#[trigger] cell_fails(
                    grid,
                    fonts@,
                    opts,
                    r,
                    c,
                ),
        decreases grid.rows - row,
    {
        let mut col: u32 = 0;
        assert(row * grid.cols >= 0) by (nonlinear_arith)
            requires
                row >= 0,
                grid.cols >= 0,
        ;
        while col < grid.cols
            invariant
                n == cell_count(grid),
                grid.wf(),
                opts.metrics.wf(),
                font_px_ok(opts.font_px),
                !canvas_too_large(grid, opts),
                row < grid.rows,
                row * grid.cols >= 0,
                col <= grid.cols,
                img.wf(),
                img.width() == width,
                img.height() == height,
                n > 0 ==> width == canvas_width(grid, opts) && height == canvas_height(
                    grid,
                    opts,
                ),
                forall|c: char| #[trigger]
                    located@.contains_key(c as u32) <==> grid.chars@.contains(c) && font::drawn(
                        fonts@,
                        c,
                    ),
                forall|c: char| #[trigger]
                    located@.contains_key(c as u32) ==> font::spec_locate(fonts@, c, 0) == Some(
                        located@[c as u32],
                    ),
                forall|x: int, y: int|
                    0 <= x < width && 0 <= y < height ==> #[trigger] img.pixel(x, y) == painted(
                        grid,
                        fonts@,
                        opts,
                        (row * grid.cols + col) as nat,
                        x,
                        y,
                    ),
                forall|r: int, c: int|
                    0 <= r < row && 0 <= c < grid.cols ==> !#[trigger] cell_fails(
                        grid,
                        fonts@,
                        opts,
                        r,
                        c,
                    ),
                forall|c: int|
                    0 <= c < col ==> !#[trigger] cell_fails(grid, fonts@, opts, row as int, c),
            decreases grid.cols - col,
        {
            let ghost at = row * grid.cols + col;
            proof {
                lemma_cell(grid, row as int, col as int);
                lemma_fundamental_div_mod_converse(at, grid.cols as int, row as int, col as int);
            }
            let ch = grid.char_at(row, col);
            let ghost prior = img;
            if ch != ' ' {
                let loc = get_located(&located, ch);
                proof {
                    assert(grid.chars@.contains(ch));
                    fonts.lemma_len();
                    font::lemma_located(fonts@, ch, 0);
                }
                match draw_cell(&mut img, grid, fonts, loc, opts, row, col) {
                    Ok(_) => {},
                    Err(e) => {
                        return Err(e);
                    },
                }
            }
            proof {
                assert forall|x: int, y: int|
                    0 <= x < width && 0 <= y < height implies #[trigger] img.pixel(x, y) == painted(
                    grid,
                    fonts@,
                    opts,
                    (at + 1) as nat,
                    x,
                    y,
                ) by {
                    assert(prior.pixel(x, y) == painted(grid, fonts@, opts, at as nat, x, y));
                }
            }
            col = col + 1;
        }
        assert((row + 1) * grid.cols == row * grid.cols + grid.cols) by (nonlinear_arith);
        row = row + 1;
    }
    Ok(img)
}

/// The glyph of a character, if it was located.
fn get_located(located: &std::collections::HashMap<u32, Located>, c: char) -> (r: Option<&Located>)
    ensures
        match r {
            Some(loc) => located@.contains_key(c as u32) && *loc == located@[c as u32],
            None => !located@.contains_key(c as u32),
        },
{
    broadcast use vstd::std_specs::hash::group_hash_axioms;

    located.get(&(c as u32))
}

/// Bounding box of everything that is not background, or `None` for a canvas
/// that stayed entirely blank.
pub fn content_bounds(img: &RgbaImage, background: Background) -> (r: Option<Bounds>)
    requires
        img.wf(),
    ensures
        match r {
            Some(b) => is_content_box(b, img, background),
            None => !has_content(img, background),
        },
{
    let fill = background.fill();
    let (w, h) = img.dimensions();
    let mut found = false;
    let mut b = Bounds { x0: 0, y0: 0, x1: 0, y1: 0 };
    let mut y: u32 = 0;
    while y < h
        invariant
            img.wf(),
            w == img.width(),
            h == img.height(),
            fill == background.fill(),
            y <= h,
            box_so_far(found, b, img, background, 0, y as int),
        decreases h - y,
    {
        let mut x: u32 = 0;
        while x < w
            invariant
                img.wf(),
                w == img.width(),
                h == img.height(),
                fill == background.fill(),
                y < h,
                x <= w,
                box_so_far(found, b, img, background, x as int, y as int),
            decreases w - x,
        {
            let p = img.get_pixel(x, y);
            let drawn = if background == Background::Transparent {
                p[3] != 0
            } else {
                differs(p, fill)
            };
            let ghost (found0, b0) = (found, b);
            if drawn {
                if !found {
                    b = Bounds { x0: x, y0: y, x1: x + 1, y1: y + 1 };
                    found = true;
                } else {
                    b = Bounds {
                        x0: if x < b.x0 {
                            x
                        } else {
                            b.x0
                        },
                        y0: b.y0,
                        x1: if x + 1 > b.x1 {
                            x + 1
                        } else {
                            b.x1
                        },
                        y1: y + 1,
                    };
                }
            }
            proof {
                lemma_box_step(found0, b0, found, b, img, background, x as int, y as int);
            }
            x = x + 1;
        }
        y = y + 1;
    }
    if found {
        Some(b)
    } else {
        None
    }
}

/// Whether a pixel comes before another one, row by row.
pub open spec fn comes_before(px: int, py: int, x: int, y: int) -> bool {
    py < y || (py == y && px < x)
}

/// What a search for drawn pixels knows when it has come to (`x`, `y`).
spec fn box_so_far(
    found: bool,
    b: Bounds,
    img: &RgbaImage,
    background: Background,
    x: int,
    y: int,
) -> bool {
    let seen = |px: int, py: int|
        0 <= px < img.width() && 0 <= py < img.height() && comes_before(px, py, x, y);
    if found {
        &&& b.x0 < b.x1 <= img.width()
        &&& b.y0 < b.y1 <= img.height()
        &&& forall|px: int, py: int|
            seen(px, py) && is_drawn(#[trigger] img.pixel(px, py), background) ==> b.holds(px, py)
        &&& b.y1 <= y + 1
        &&& column_drawn(img, background, b.x0 as int)
        &&& column_drawn(img, background, b.x1 - 1)
        &&& row_drawn(img, background, b.y0 as int)
        &&& row_drawn(img, background, b.y1 - 1)
    } else {
        forall|px: int, py: int|
            seen(px, py) ==> !is_drawn(#[trigger] img.pixel(px, py), background)
    }
}

/// One step of the search for drawn pixels.
proof fn lemma_box_step(
    found0: bool,
    b0: Bounds,
    found: bool,
    b: Bounds,
    img: &RgbaImage,
    background: Background,
    x: int,
    y: int,
)
    requires
        0 <= x < img.width(),
        0 <= y < img.height(),
        box_so_far(found0, b0, img, background, x, y),
        ({
            let drawn = is_drawn(img.pixel(x, y), background);
            &&& !drawn ==> found == found0 && b == b0
            &&& drawn && !found0 ==> found && b == (Bounds {
                x0: x as u32,
                y0: y as u32,
                x1: (x + 1) as u32,
                y1: (y + 1) as u32,
            })
            &&& drawn && found0 ==> found && b == (Bounds {
                x0: if x < b0.x0 {
                    x as u32
                } else {
                    b0.x0
                },
                y0: b0.y0,
                x1: if x + 1 > b0.x1 {
                    (x + 1) as u32
                } else {
                    b0.x1
                },
                y1: (y + 1) as u32,
            })
        }),
    ensures
        box_so_far(found, b, img, background, x + 1, y),
{
    let drawn = is_drawn(img.pixel(x, y), background);
    if drawn {
        assert(column_drawn(img, background, x));
        assert(row_drawn(img, background, y));
        if found0 {
            // The box starts in a row that was seen before.
            assert(b0.y0 <= y);
        }
    }
}

/// Whether two pixels differ.
fn differs(a: [u8; 4], b: [u8; 4]) -> (r: bool)
    ensures
        r == (a != b),
{
    let r = a[0] != b[0] || a[1] != b[1] || a[2] != b[2] || a[3] != b[3];
    proof {
        if !r {
            assert(a =~= b);
        }
    }
    r
}

/// Copies the `bounds` rectangle out of `img`.
pub fn crop_to(img: &RgbaImage, bounds: Bounds) -> (r: RgbaImage)
    requires
        img.wf(),
        bounds.x0 <= bounds.x1,
        bounds.y0 <= bounds.y1,
        bounds.x0 < bounds.x1 && bounds.y0 < bounds.y1 ==> bounds.x1 <= img.width() && bounds.y1
            <= img.height(),
    ensures
        is_crop(&r, img, bounds),
{
    let (w, h) = (bounds.width(), bounds.height());
    let mut data: Vec<u8> = Vec::new();
    let mut y: u32 = 0;
    let ghost bytes = |i: int|
        {
            let (p, c) = (i / 4, i % 4);
            img.pixel(bounds.x0 + p % (w as int), bounds.y0 + p / (w as int))[c]
        };
    assert(0 * w == 0) by (nonlinear_arith);
    while y < h
        invariant
            img.wf(),
            w == bounds.x1 - bounds.x0,
            h == bounds.y1 - bounds.y0,
            w > 0 && h > 0 ==> bounds.x1 <= img.width() && bounds.y1 <= img.height(),
            y <= h,
            data@.len() == 4 * (y * w),
            forall|i: int| 0 <= i < data@.len() ==> #[trigger] data@[i] == bytes(i),
            bytes == (|i: int|
                {
                    let (p, c) = (i / 4, i % 4);
                    img.pixel(bounds.x0 + p % (w as int), bounds.y0 + p / (w as int))[c]
                }),
        decreases h - y,
    {
        let mut x: u32 = 0;
        while x < w
            invariant
                img.wf(),
                w == bounds.x1 - bounds.x0,
                h == bounds.y1 - bounds.y0,
                w > 0 && h > 0 ==> bounds.x1 <= img.width() && bounds.y1 <= img.height(),
                y < h,
                x <= w,
                data@.len() == 4 * (y * w + x),
                forall|i: int| 0 <= i < data@.len() ==> #[trigger] data@[i] == bytes(i),
                bytes == (|i: int|
                    {
                        let (p, c) = (i / 4, i % 4);
                        img.pixel(bounds.x0 + p % (w as int), bounds.y0 + p / (w as int))[c]
                    }),
            decreases w - x,
        {
            let ghost at = y * w + x;
            let p = img.get_pixel(bounds.x0 + x, bounds.y0 + y);
            proof {
                assert(y * w >= 0) by (nonlinear_arith)
                    requires
                        y >= 0,
                        w >= 0,
                ;
                lemma_fundamental_div_mod_converse(at, w as int, y as int, x as int);
            }
            data.push(p[0]);
            data.push(p[1]);
            data.push(p[2]);
            data.push(p[3]);
            x = x + 1;
        }
        assert((y + 1) * w == y * w + w) by (nonlinear_arith);
        y = y + 1;
    }
    let ghost all = data@;
    assert(h * w == w * h) by (nonlinear_arith);
    match RgbaImage::from_raw(w, h, data) {
        Some(r) => {
            proof {
                assert forall|x: int, y: int|
                    0 <= x < r.width() && 0 <= y < r.height() implies #[trigger] r.pixel(x, y)
                    == img.pixel(bounds.x0 + x, bounds.y0 + y) by {
                    pixels::lemma_index(w, h, x, y);
                    let at = pixels::pixel_index(w, x, y);
                    lemma_fundamental_div_mod_converse(at, w as int, y, x);
                    assert(all[4 * at] == bytes(4 * at));
                    assert(all[4 * at + 1] == bytes(4 * at + 1));
                    assert(all[4 * at + 2] == bytes(4 * at + 2));
                    assert(all[4 * at + 3] == bytes(4 * at + 3));
                    assert(r.pixel(x, y) =~= img.pixel(bounds.x0 + x, bounds.y0 + y));
                }
            }
            r
        },
        None => {
            assert(false);
            RgbaImage::new(0, 0)
        },
    }
}

/// What a painted image is: the canvas, trimmed to what is drawn where that was
/// asked for and anything is.
pub open spec fn is_painting(
    img: &RgbaImage,
    grid: &AsciiGrid,
    fonts: Seq<Seq<u8>>,
    opts: &PaintOptions,
) -> bool {
    exists|canvas: RgbaImage| #[trigger]
        is_canvas(&canvas, grid, fonts, opts) && is_trimmed(img, &canvas, opts)
}

/// Whether an image is a canvas, trimmed as the options say.
pub open spec fn is_trimmed(img: &RgbaImage, canvas: &RgbaImage, opts: &PaintOptions) -> bool {
    if opts.crop && has_content(canvas, opts.background) {
        exists|b: Bounds| #[trigger]
            is_content_box(b, canvas, opts.background) && is_crop(img, canvas, b)
    } else {
        img.same(canvas)
    }
}

/// Paints the grid into an RGBA image.
///
/// `colored` uses each cell's average source color as the glyph color
/// (value-boosted on dark backgrounds, where glyph density already encodes
/// luminance); otherwise glyphs are white on black or black on white per
/// `background`. Characters no font can draw are left blank. With
/// [`PaintOptions::crop`] the blank margins are trimmed afterwards.
pub fn paint_png(grid: &AsciiGrid, fonts: &FontStack, opts: &PaintOptions) -> (r: Result<
    RgbaImage,
    PaintError,
>)
    requires
        paintable(grid, opts),
    ensures
        match r {
            Ok(img) => paint_error(grid, fonts@, opts) is None && is_painting(
                &img,
                grid,
                fonts@,
                opts,
            ),
            Err(e) => paint_error(grid, fonts@, opts) == Some(e),
        },
{
    let img = match paint_canvas(grid, fonts, opts) {
        Ok(img) => img,
        Err(e) => {
            return Err(e);
        },
    };
    if !opts.crop {
        assert(is_trimmed(&img, &img, opts));
        return Ok(img);
    }
    match content_bounds(&img, opts.background) {
        Some(bounds) => {
            let cropped = crop_to(&img, bounds);
            proof {
                let y = choose|y: int|
                    0 <= y < img.height() && is_drawn(
                        #[trigger] img.pixel(bounds.x0 as int, y),
                        opts.background,
                    );
                assert(is_drawn(img.pixel(bounds.x0 as int, y), opts.background));
                assert(has_content(&img, opts.background));
                assert(is_content_box(bounds, &img, opts.background));
                assert(is_trimmed(&cropped, &img, opts));
            }
            Ok(cropped)
        },
        // Nothing was drawn: an image without pixels is not a file anyone can
        // open.
        None => {
            assert(is_trimmed(&img, &img, opts));
            Ok(img)
        },
    }
}

} // verus!
