//! The commands: what their options mean, and how a picture goes through them.
//!
//! Reading inputs and writing outputs is left to the program around the library.

use crate::anim;
use crate::anim::{wants_gif, write_gif_to, AnimError};
use crate::charset;
use crate::charset::{try_resolve, Charset, ResolveError, NAMED};
use crate::engine;
use crate::engine::geometry::Geometry;
use crate::engine::{convert, AsciiGrid, ConvertError, Options};
use crate::float::Single;
use crate::font;
use crate::font::FontStack;
use crate::input;
use crate::input::{decode_frames, decode_still, svg_target_px, Drawing, Frame, InputError};
use crate::paint;
use crate::paint::{
    content_bounds, crop_to, paint_canvas, paint_png, Background, Bounds, PaintError, PaintOptions,
};
use crate::paths;
use crate::pixels::RgbaImage;
use crate::render;
use crate::render::{to_ansi, to_json, to_text};
use crate::text;
use vstd::prelude::*;

pub mod laws;
pub mod notes;

verus! {

/// Options every conversion accepts.
#[derive(Debug, Clone)]
pub struct CommonArgs {
    /// Character set: a built-in name, or `custom:` and characters.
    pub charset: String,
    /// Cells whose mean alpha is below this render blank.
    pub alpha_threshold: u8,
    /// Braille dot cutoff; by default one is picked per image.
    pub threshold: Option<u8>,
}

/// Options only the text renderer accepts.
#[derive(Debug, Clone, Copy)]
pub struct TxtArgs {
    /// Invert brightness mapping (for light terminal themes).
    pub invert: bool,
    /// Cell height by width; 2 matches a typical terminal.
    pub aspect: Single,
    /// Emit 24-bit ANSI colors.
    pub ansi: bool,
    /// Emit structured JSON.
    pub json: bool,
}

/// Options shared by the image and video renderers.
#[derive(Debug, Clone, Copy)]
pub struct RenderArgs {
    /// Paint each glyph with the cell's average source color.
    pub color: bool,
    pub background: Background,
    /// Font size in pixels (controls output resolution).
    pub font_px: Single,
    /// Invert brightness mapping; inverted on dark backgrounds by default, so
    /// glyph density tracks contrast against the canvas.
    pub invert: Option<bool>,
    /// Keep blank margins instead of trimming to the drawn glyphs.
    pub no_crop: bool,
    /// Cell height by width; measured from the font by default.
    pub aspect: Option<Single>,
}

/// Why a command failed.
#[derive(Debug, Clone)]
pub enum PipelineError {
    Charset(ResolveError),
    Input(InputError),
    Convert(ConvertError),
    Paint(PaintError),
    Anim(AnimError),
}

impl PipelineError {
    /// What the error says to a user.
    pub open spec fn spec_message(&self) -> Seq<char> {
        match self {
            PipelineError::Charset(e) => e.spec_message(),
            PipelineError::Input(e) => e.spec_message(),
            PipelineError::Convert(e) => e.spec_message(),
            PipelineError::Paint(e) => e.spec_message(),
            PipelineError::Anim(e) => e.spec_message(),
        }
    }

    /// What the error says to a user.
    pub fn message(&self) -> (r: String)
        ensures
            r@ == self.spec_message(),
    {
        match self {
            PipelineError::Charset(e) => e.message(),
            PipelineError::Input(e) => e.message(),
            PipelineError::Convert(e) => e.message(),
            PipelineError::Paint(e) => e.message(),
            PipelineError::Anim(e) => e.message(),
        }
    }
}

/// What is said of a width that was clamped.
pub open spec fn spec_clamped_note(cols: u32, requested: u32) -> Option<Seq<char>> {
    if cols < requested {
        Some(
            "note: --width "@ + text::decimal(requested as nat) + " clamped to image width ("@
                + text::decimal(cols as nat) + " columns)"@,
        )
    } else {
        None
    }
}

/// Whether a note says what it should say.
pub open spec fn is_note(note: Option<String>, expected: Option<Seq<char>>) -> bool {
    match (note, expected) {
        (Some(note), Some(expected)) => note@ == expected,
        (None, None) => true,
        _ => false,
    }
}

/// What to say of a width that was clamped.
pub fn note_clamped_width(cols: u32, requested: u32) -> (r: Option<String>)
    ensures
        is_note(r, spec_clamped_note(cols, requested)),
{
    if cols >= requested {
        return None;
    }
    let mut out = "note: --width ".to_owned();
    text::push_decimal(&mut out, requested as u64);
    out.append(" clamped to image width (");
    text::push_decimal(&mut out, cols as u64);
    out.append(" columns)");
    Some(out)
}

/// The surface that text is composited onto: defaults assume a dark terminal,
/// where a blank cell reads as the dark end of the ramp, and `invert` flips it.
pub open spec fn text_matte(invert: bool) -> [u8; 3] {
    if invert {
        [0u8, 0u8, 0u8]
    } else {
        [255u8, 255u8, 255u8]
    }
}

/// The surface that text is composited onto.
pub fn matte_for_text(invert: bool) -> (r: [u8; 3])
    ensures
        r == text_matte(invert),
{
    let matte = if invert {
        [0u8, 0u8, 0u8]
    } else {
        [255u8, 255u8, 255u8]
    };
    assert(matte =~= text_matte(invert));
    matte
}

/// Whether conversion options are what the arguments of the text command mean.
pub open spec fn are_txt_options(
    opts: &Options,
    width: u32,
    common: &CommonArgs,
    args: &TxtArgs,
) -> bool {
    &&& opts.width == width
    &&& opts.invert == args.invert
    &&& opts.aspect == args.aspect
    &&& opts.alpha_threshold == common.alpha_threshold
    &&& opts.matte == Some(text_matte(args.invert))
    &&& opts.braille_threshold == common.threshold
}

/// The conversion options of the text command.
pub fn txt_options(width: u32, common: &CommonArgs, args: &TxtArgs, fonts: &FontStack) -> (r: Result<
    Options,
    ResolveError,
>)
    ensures
        match r {
            Ok(opts) => {
                &&& charset::is_tried(Ok(opts.charset), common.charset@, fonts@)
                &&& are_txt_options(&opts, width, common, args)
            },
            Err(e) => charset::is_tried(Err(e), common.charset@, fonts@),
        },
{
    let charset = match try_resolve(common.charset.as_str(), fonts) {
        Ok(charset) => charset,
        Err(e) => {
            return Err(e);
        },
    };
    Ok(
        Options {
            width,
            charset,
            invert: args.invert,
            aspect: args.aspect,
            alpha_threshold: common.alpha_threshold,
            matte: Some(matte_for_text(args.invert)),
            braille_threshold: common.threshold,
        },
    )
}

/// What the text command writes of a grid.
pub open spec fn txt_of(grid: &AsciiGrid, opts: &Options, args: &TxtArgs) -> Seq<char> {
    if args.json {
        render::json_document(grid, &opts.charset, opts.invert, true)
    } else if args.ansi {
        render::ansi_rows(grid, grid.rows as nat)
    } else {
        render::text_rows(grid, grid.rows as nat)
    }
}

/// What the text command writes, and what it says of the width.
#[derive(Debug)]
pub struct Rendered {
    pub text: String,
    pub note: Option<String>,
}

/// Whether what was rendered is what should be.
pub open spec fn is_rendered(
    r: &Rendered,
    image: &RgbaImage,
    opts: &Options,
    args: &TxtArgs,
) -> bool {
    exists|grid: AsciiGrid| #[trigger]
        engine::is_conversion(&grid, image, opts) && r.text@ == txt_of(&grid, opts, args)
            && is_note(r.note, spec_clamped_note(grid.cols, opts.width))
}

/// Renders an image as text.
pub fn render_txt(image: &RgbaImage, opts: &Options, args: &TxtArgs) -> (r: Result<
    Rendered,
    ConvertError,
>)
    requires
        image.wf(),
    ensures
        match r {
            Ok(rendered) => engine::convert_error(image, opts) is None && is_rendered(
                &rendered,
                image,
                opts,
                args,
            ),
            Err(e) => engine::convert_error(image, opts) == Some(e),
        },
{
    let grid = match convert(image, opts) {
        Ok(grid) => grid,
        Err(e) => {
            return Err(e);
        },
    };
    let note = note_clamped_width(grid.cols, opts.width);
    let text = if args.json {
        to_json(&grid, &opts.charset, opts.invert, true)
    } else if args.ansi {
        to_ansi(&grid)
    } else {
        to_text(&grid)
    };
    let r = Rendered { text, note };
    assert(engine::is_conversion(&grid, image, opts) && r.text@ == txt_of(&grid, opts, args));
    Ok(r)
}

/// The width that an SVG is rasterized at for so many columns.
pub open spec fn target_px(width: u32) -> u32 {
    if width * 8 > u32::MAX {
        u32::MAX
    } else {
        (width * 8) as u32
    }
}

/// Whether a command that reads a still image ended as it should: with the error
/// of the decoder, or with what became of the image.
pub open spec fn is_txt_result(
    r: Result<Rendered, PipelineError>,
    decoded: Result<RgbaImage, InputError>,
    opts: &Options,
    args: &TxtArgs,
) -> bool {
    match decoded {
        Err(e) => r == Err::<Rendered, PipelineError>(PipelineError::Input(e)),
        Ok(image) => match engine::convert_error(&image, opts) {
            Some(e) => r == Err::<Rendered, PipelineError>(PipelineError::Convert(e)),
            None => r matches Ok(rendered) && is_rendered(&rendered, &image, opts, args),
        },
    }
}

/// The text command, from the bytes of its input to what it writes.
pub fn run_txt(bytes: &[u8], drawing: Drawing, opts: &Options, args: &TxtArgs) -> (r: Result<
    Rendered,
    PipelineError,
>)
    ensures
        exists|decoded: Result<RgbaImage, InputError>| #[trigger]
            input::is_still(decoded, bytes@, drawing, target_px(opts.width)) && is_txt_result(
                r,
                decoded,
                opts,
                args,
            ),
{
    let decoded = decode_still(bytes, drawing, svg_target_px(opts.width));
    let ghost first = decoded;
    assert(input::is_still(first, bytes@, drawing, target_px(opts.width)));
    let image = match decoded {
        Ok(image) => image,
        Err(e) => {
            let r = Err(PipelineError::Input(e));
            assert(is_txt_result(r, first, opts, args));
            return r;
        },
    };
    let r = match render_txt(&image, opts, args) {
        Ok(rendered) => Ok(rendered),
        Err(e) => Err(PipelineError::Convert(e)),
    };
    assert(is_txt_result(r, first, opts, args));
    r
}

/// Everything the two rendering commands need, resolved once.
#[derive(Debug)]
pub struct Renderer {
    pub fonts: FontStack,
    pub engine: Options,
    pub paint: PaintOptions,
}

impl Renderer {
    /// Whether cells have pixels.
    pub open spec fn wf(&self) -> bool {
        self.paint.metrics.wf()
    }

    /// Whether the options are what the arguments mean, for a resolved charset.
    pub open spec fn follows(&self, common: &CommonArgs, args: &RenderArgs, width: u32) -> bool {
        &&& self.paint.background == args.background
        &&& self.paint.colored == args.color
        &&& self.paint.crop == !args.no_crop
        &&& self.paint.font_px == args.font_px
        &&& self.paint.metrics == font::spec_metrics(
            self.fonts@,
            self.engine.charset.spec_glyphs(),
            args.font_px,
        )
        &&& self.engine.width == width
        &&& self.engine.invert == match args.invert {
            Some(invert) => invert,
            None => args.background.default_invert(),
        }
        &&& self.engine.aspect == match args.aspect {
            Some(aspect) => aspect,
            None => self.paint.metrics.aspect(),
        }
        &&& self.engine.alpha_threshold == common.alpha_threshold
        &&& self.engine.matte == args.background.matte()
        &&& self.engine.braille_threshold == common.threshold
    }

    /// Resolves the arguments.
    ///
    /// Cells are not square, and how far from square depends on the font:
    /// measuring keeps the proportions of the picture.
    pub fn new(common: &CommonArgs, args: &RenderArgs, width: u32, fonts: FontStack) -> (r: Result<
        Renderer,
        PipelineError,
    >)
        requires
            fonts.wf(),
        ensures
            match r {
                Ok(renderer) => {
                    &&& charset::is_tried(
                        Ok(renderer.engine.charset),
                        common.charset@,
                        fonts@,
                    )
                    &&& paint::font_px_ok(args.font_px)
                    &&& renderer.fonts == fonts
                    &&& renderer.wf()
                    &&& renderer.follows(common, args, width)
                },
                Err(PipelineError::Charset(e)) => charset::is_tried(
                    Err(e),
                    common.charset@,
                    fonts@,
                ),
                Err(e) => {
                    &&& e == PipelineError::Paint(PaintError::FontPx(args.font_px))
                    &&& !paint::font_px_ok(args.font_px)
                    &&& exists|c: Charset| #[trigger]
                        charset::is_tried(Ok(c), common.charset@, fonts@)
                },
            },
    {
        let charset = match try_resolve(common.charset.as_str(), &fonts) {
            Ok(charset) => charset,
            Err(e) => {
                return Err(PipelineError::Charset(e));
            },
        };
        assert(charset::is_tried(Ok(charset), common.charset@, fonts@));
        let paint = match PaintOptions::new(&fonts, &charset, args.font_px) {
            Ok(opts) => opts.background(args.background).colored(args.color).crop(!args.no_crop),
            Err(e) => {
                return Err(PipelineError::Paint(e));
            },
        };
        let aspect = match args.aspect {
            Some(aspect) => aspect,
            None => paint.metrics.aspect(),
        };
        let invert = match args.invert {
            Some(invert) => invert,
            None => args.background.default_invert(),
        };
        Ok(
            Renderer {
                engine: Options {
                    width,
                    charset,
                    invert,
                    aspect,
                    alpha_threshold: common.alpha_threshold,
                    matte: args.background.matte(),
                    braille_threshold: common.threshold,
                },
                fonts,
                paint,
            },
        )
    }
}

/// A painted still, with the size of its grid.
#[derive(Debug)]
pub struct Still {
    pub cols: u32,
    pub rows: u32,
    pub image: RgbaImage,
}

/// Whether a still is what a renderer makes of an image.
pub open spec fn is_still_of(still: &Still, image: &RgbaImage, renderer: &Renderer) -> bool {
    exists|grid: AsciiGrid| #[trigger]
        engine::is_conversion(&grid, image, &renderer.engine) && still.cols == grid.cols
            && still.rows == grid.rows && paint::paint_error(
            &grid,
            renderer.fonts@,
            &renderer.paint,
        ) is None && paint::is_painting(
            &still.image,
            &grid,
            renderer.fonts@,
            &renderer.paint,
        )
}

/// Whether an error is the one that keeps an image from being painted.
pub open spec fn fails_with(e: PipelineError, image: &RgbaImage, renderer: &Renderer) -> bool {
    match engine::convert_error(image, &renderer.engine) {
        Some(c) => e == PipelineError::Convert(c),
        None => exists|grid: AsciiGrid| #[trigger]
            engine::is_conversion(&grid, image, &renderer.engine) && match paint::paint_error(
                &grid,
                renderer.fonts@,
                &renderer.paint,
            ) {
                Some(p) => e == PipelineError::Paint(p),
                None => false,
            },
    }
}

/// Paints a still.
pub fn render_still(image: &RgbaImage, renderer: &Renderer) -> (r: Result<Still, PipelineError>)
    requires
        image.wf(),
        renderer.wf(),
    ensures
        match r {
            Ok(still) => {
                &&& engine::convert_error(image, &renderer.engine) is None
                &&& is_still_of(&still, image, renderer)
            },
            Err(e) => fails_with(e, image, renderer),
        },
{
    let grid = match convert(image, &renderer.engine) {
        Ok(grid) => grid,
        Err(e) => {
            return Err(PipelineError::Convert(e));
        },
    };
    assert(engine::is_conversion(&grid, image, &renderer.engine));
    match paint_png(&grid, &renderer.fonts, &renderer.paint) {
        Ok(image) => Ok(Still { cols: grid.cols, rows: grid.rows, image }),
        Err(e) => Err(PipelineError::Paint(e)),
    }
}

/// Whether an image is the canvas that a renderer paints for another one.
pub open spec fn is_canvas_of(canvas: &RgbaImage, image: &RgbaImage, renderer: &Renderer) -> bool {
    &&& engine::convert_error(image, &renderer.engine) is None
    &&& exists|grid: AsciiGrid| #[trigger]
        engine::is_conversion(&grid, image, &renderer.engine) && paint::paint_error(
            &grid,
            renderer.fonts@,
            &renderer.paint,
        ) is None && paint::is_canvas(canvas, &grid, renderer.fonts@, &renderer.paint)
}

/// Whether images are the canvases that a renderer paints for the first frames.
pub open spec fn are_canvases(
    canvases: Seq<RgbaImage>,
    frames: Seq<Frame>,
    renderer: &Renderer,
) -> bool {
    &&& canvases.len() <= frames.len()
    &&& forall|i: int|
        0 <= i < canvases.len() ==> is_canvas_of(
            &#[trigger] canvases[i],
            &frames[i].image,
            renderer,
        )
}

/// The index of the first image that has another size than the first one.
pub open spec fn first_uneven(images: Seq<RgbaImage>, from: int) -> Option<int>
    decreases images.len() - from,
{
    if from < 0 || from >= images.len() {
        None
    } else if images[from].width() != images[0].width() || images[from].height()
        != images[0].height() {
        Some(from)
    } else {
        first_uneven(images, from + 1)
    }
}

/// Whether one of the first `n` images has something drawn in a column.
pub open spec fn any_column(images: Seq<RgbaImage>, background: Background, n: int, x: int) -> bool {
    exists|i: int| 0 <= i < n && paint::column_drawn(&#[trigger] images[i], background, x)
}

/// Whether one of the first `n` images has something drawn in a row.
pub open spec fn any_row(images: Seq<RgbaImage>, background: Background, n: int, y: int) -> bool {
    exists|i: int| 0 <= i < n && paint::row_drawn(&#[trigger] images[i], background, y)
}

/// Whether a rectangle is the bounding box of everything that is drawn on any of
/// the first `n` images: it holds all of it, and something is drawn along each of
/// its four sides.
pub open spec fn is_shared_box(
    b: Bounds,
    images: Seq<RgbaImage>,
    background: Background,
    n: int,
) -> bool {
    &&& b.x0 < b.x1
    &&& b.y0 < b.y1
    &&& forall|i: int|
        0 <= i < n ==> b.x1 <= (#[trigger] images[i]).width() && b.y1 <= images[i].height()
    &&& forall|i: int, x: int, y: int|
        0 <= i < n && 0 <= x < images[i].width() && 0 <= y < images[i].height() && paint::is_drawn(
            #[trigger] images[i].pixel(x, y),
            background,
        ) ==> b.holds(x, y)
    &&& any_column(images, background, n, b.x0 as int)
    &&& any_column(images, background, n, b.x1 - 1)
    &&& any_row(images, background, n, b.y0 as int)
    &&& any_row(images, background, n, b.y1 - 1)
}

/// Whether something is drawn on one of the first `n` images.
pub open spec fn any_content(images: Seq<RgbaImage>, background: Background, n: int) -> bool {
    exists|i: int| 0 <= i < n && paint::has_content(&#[trigger] images[i], background)
}

/// Whether frames are canvases, all cropped to one box where that was asked for
/// and anything is drawn, with the delays of the source.
pub open spec fn are_cropped(
    out: Seq<Frame>,
    canvases: Seq<RgbaImage>,
    frames: Seq<Frame>,
    opts: &PaintOptions,
) -> bool {
    let n = canvases.len() as int;
    &&& out.len() == n
    &&& forall|i: int| 0 <= i < n ==> (#[trigger] out[i]).delay_ms == frames[i].delay_ms
    &&& if opts.crop && any_content(canvases, opts.background, n) {
        exists|b: Bounds| #[trigger]
            is_shared_box(b, canvases, opts.background, n) && forall|i: int|
                0 <= i < n ==> paint::is_crop(&(#[trigger] out[i]).image, &canvases[i], b)
    } else {
        forall|i: int| 0 <= i < n ==> (#[trigger] out[i]).image.same(&canvases[i])
    }
}

/// Whether frames are what a renderer makes of an animation.
pub open spec fn is_animation(out: Seq<Frame>, frames: Seq<Frame>, renderer: &Renderer) -> bool {
    exists|canvases: Seq<RgbaImage>| #[trigger]
        are_canvases(canvases, frames, renderer) && canvases.len() == frames.len() && first_uneven(
            canvases,
            0,
        ) is None && are_cropped(out, canvases, frames, &renderer.paint)
}

/// Whether an error is the one that keeps an animation from being painted: that
/// of the first frame that fails, or canvases of different sizes.
pub open spec fn animation_fails_with(
    e: PipelineError,
    frames: Seq<Frame>,
    renderer: &Renderer,
) -> bool {
    exists|canvases: Seq<RgbaImage>| #[trigger]
        are_canvases(canvases, frames, renderer) && if canvases.len() < frames.len() {
            fails_with(e, &frames[canvases.len() as int].image, renderer)
        } else {
            match first_uneven(canvases, 0) {
                Some(i) => e == PipelineError::Anim(
                    AnimError::Ragged(
                        canvases[i].width(),
                        canvases[i].height(),
                        canvases[0].width(),
                        canvases[0].height(),
                    ),
                ),
                None => false,
            }
        }
}

/// Paints the canvas of one image.
fn render_canvas(image: &RgbaImage, renderer: &Renderer) -> (r: Result<RgbaImage, PipelineError>)
    requires
        image.wf(),
        renderer.wf(),
    ensures
        match r {
            Ok(canvas) => canvas.wf() && is_canvas_of(&canvas, image, renderer),
            Err(e) => fails_with(e, image, renderer),
        },
{
    let grid = match convert(image, &renderer.engine) {
        Ok(grid) => grid,
        Err(e) => {
            return Err(PipelineError::Convert(e));
        },
    };
    assert(engine::is_conversion(&grid, image, &renderer.engine));
    match paint_canvas(&grid, &renderer.fonts, &renderer.paint) {
        Ok(canvas) => Ok(canvas),
        Err(e) => Err(PipelineError::Paint(e)),
    }
}

/// The smallest rectangle that holds two rectangles.
fn join(a: Bounds, b: Bounds) -> (r: Bounds)
    ensures
        r.x0 == a.x0 || r.x0 == b.x0,
        r.y0 == a.y0 || r.y0 == b.y0,
        r.x1 == a.x1 || r.x1 == b.x1,
        r.y1 == a.y1 || r.y1 == b.y1,
        r.x0 <= a.x0 && r.x0 <= b.x0,
        r.y0 <= a.y0 && r.y0 <= b.y0,
        r.x1 >= a.x1 && r.x1 >= b.x1,
        r.y1 >= a.y1 && r.y1 >= b.y1,
{
    Bounds {
        x0: if a.x0 < b.x0 {
            a.x0
        } else {
            b.x0
        },
        y0: if a.y0 < b.y0 {
            a.y0
        } else {
            b.y0
        },
        x1: if a.x1 > b.x1 {
            a.x1
        } else {
            b.x1
        },
        y1: if a.y1 > b.y1 {
            a.y1
        } else {
            b.y1
        },
    }
}

/// What a search for the shared box knows after `n` images.
spec fn shared_so_far(
    found: Option<Bounds>,
    images: Seq<RgbaImage>,
    background: Background,
    n: int,
) -> bool {
    match found {
        Some(b) => is_shared_box(b, images, background, n) && any_content(images, background, n),
        None => !any_content(images, background, n),
    }
}

/// One step of the search for the shared box.
proof fn lemma_shared_step(
    found: Option<Bounds>,
    next: Option<Bounds>,
    own: Option<Bounds>,
    images: Seq<RgbaImage>,
    background: Background,
    n: int,
)
    requires
        0 <= n < images.len(),
        shared_so_far(found, images, background, n),
        forall|i: int|
            0 <= i <= n ==> (#[trigger] images[i]).width() == images[n].width()
                && images[i].height() == images[n].height(),
        match own {
            Some(b) => paint::is_content_box(b, &images[n], background),
            None => !paint::has_content(&images[n], background),
        },
        match (found, own) {
            (None, _) => next == own,
            (Some(_), None) => next == found,
            (Some(a), Some(b)) => {
                &&& next matches Some(r)
                &&& r.x0 == a.x0 || r.x0 == b.x0
                &&& r.y0 == a.y0 || r.y0 == b.y0
                &&& r.x1 == a.x1 || r.x1 == b.x1
                &&& r.y1 == a.y1 || r.y1 == b.y1
                &&& r.x0 <= a.x0 && r.x0 <= b.x0
                &&& r.y0 <= a.y0 && r.y0 <= b.y0
                &&& r.x1 >= a.x1 && r.x1 >= b.x1
                &&& r.y1 >= a.y1 && r.y1 >= b.y1
            },
        },
    ensures
        shared_so_far(next, images, background, n + 1),
{
    let last = images[n];
    match own {
        Some(b) => {
            let y = choose|y: int|
                0 <= y < last.height() && paint::is_drawn(
                    #[trigger] last.pixel(b.x0 as int, y),
                    background,
                );
            assert(paint::is_drawn(last.pixel(b.x0 as int, y), background));
            assert(paint::has_content(&images[n], background));
            assert(any_content(images, background, n + 1));
        },
        None => {},
    }
    match found {
        Some(a) => {
            let i = choose|i: int|
                0 <= i < n && paint::has_content(&#[trigger] images[i], background);
            assert(paint::has_content(&images[i], background));
            assert(any_content(images, background, n + 1));
        },
        None => {},
    }
    match next {
        Some(r) => {
            assert forall|i: int, x: int, y: int|
                0 <= i < n + 1 && 0 <= x < images[i].width() && 0 <= y < images[i].height()
                    && paint::is_drawn(#[trigger] images[i].pixel(x, y), background) implies r.holds(
                x,
                y,
            ) by {
                if i < n && found is None {
                    assert(paint::has_content(&images[i], background));
                }
                if i == n && own is None {
                    assert(paint::has_content(&images[n], background));
                }
            }
            lemma_any_grows(images, background, n, r.x0 as int, r.y0 as int);
            lemma_any_grows(images, background, n, r.x1 - 1, r.y1 - 1);
            assert forall|i: int| 0 <= i < n + 1 implies r.x1 <= (#[trigger] images[i]).width()
                && r.y1 <= images[i].height() by {
                if found is Some && n > 0 {
                    assert(images[0].width() == images[n].width());
                }
            }
        },
        None => {},
    }
}

/// What is drawn on one of the first images is drawn on one of more of them.
proof fn lemma_any_grows(images: Seq<RgbaImage>, background: Background, n: int, x: int, y: int)
    requires
        0 <= n < images.len(),
    ensures
        any_column(images, background, n, x) || paint::column_drawn(&images[n], background, x)
            ==> any_column(images, background, n + 1, x),
        any_row(images, background, n, y) || paint::row_drawn(&images[n], background, y) ==> any_row(
            images,
            background,
            n + 1,
            y,
        ),
{
    if any_column(images, background, n, x) {
        let i = choose|i: int|
            0 <= i < n && paint::column_drawn(&#[trigger] images[i], background, x);
        assert(paint::column_drawn(&images[i], background, x));
    }
    if any_row(images, background, n, y) {
        let i = choose|i: int| 0 <= i < n && paint::row_drawn(&#[trigger] images[i], background, y);
        assert(paint::row_drawn(&images[i], background, y));
    }
}

/// The box that holds what is drawn on any of some images of one size.
fn shared_bounds(images: &Vec<RgbaImage>, background: Background) -> (r: Option<Bounds>)
    requires
        forall|i: int| 0 <= i < images@.len() ==> (#[trigger] images@[i]).wf(),
        forall|i: int|
            0 <= i < images@.len() ==> (#[trigger] images@[i]).width() == images@[0].width()
                && images@[i].height() == images@[0].height(),
    ensures
        match r {
            Some(b) => is_shared_box(b, images@, background, images@.len() as int) && any_content(
                images@,
                background,
                images@.len() as int,
            ),
            None => !any_content(images@, background, images@.len() as int),
        },
{
    let mut found: Option<Bounds> = None;
    let mut i: usize = 0;
    while i < images.len()
        invariant
            i <= images@.len(),
            forall|j: int| 0 <= j < images@.len() ==> (#[trigger] images@[j]).wf(),
            forall|j: int|
                0 <= j < images@.len() ==> (#[trigger] images@[j]).width() == images@[0].width()
                    && images@[j].height() == images@[0].height(),
            shared_so_far(found, images@, background, i as int),
        decreases images@.len() - i,
    {
        let own = content_bounds(&images[i], background);
        let next = match (found, own) {
            (None, own) => own,
            (Some(a), None) => Some(a),
            (Some(a), Some(b)) => Some(join(a, b)),
        };
        proof {
            lemma_shared_step(found, next, own, images@, background, i as int);
        }
        found = next;
        i = i + 1;
    }
    found
}

/// Whether all images have the size of the first one; if not, the error that says
/// so.
fn check_sizes(images: &Vec<RgbaImage>) -> (r: Option<AnimError>)
    ensures
        match first_uneven(images@, 0) {
            Some(i) => r == Some(
                AnimError::Ragged(
                    images@[i].width(),
                    images@[i].height(),
                    images@[0].width(),
                    images@[0].height(),
                ),
            ),
            None => r is None && forall|i: int|
                0 <= i < images@.len() ==> (#[trigger] images@[i]).width() == images@[0].width()
                    && images@[i].height() == images@[0].height(),
        },
{
    let mut i: usize = 0;
    while i < images.len()
        invariant
            i <= images@.len(),
            first_uneven(images@, 0) == first_uneven(images@, i as int),
            forall|j: int|
                0 <= j < i ==> (#[trigger] images@[j]).width() == images@[0].width()
                    && images@[j].height() == images@[0].height(),
        decreases images@.len() - i,
    {
        let (a, b) = images[i].dimensions();
        let (w, h) = images[0].dimensions();
        if a != w || b != h {
            return Some(AnimError::Ragged(a, b, w, h));
        }
        i = i + 1;
    }
    None
}

/// Paints an animation. Every frame lands on a canvas of the same size, so the
/// crop box is shared: it holds what any of them draws, and no frame loses ink.
pub fn render_animation(frames: &Vec<Frame>, renderer: &Renderer) -> (r: Result<
    Vec<Frame>,
    PipelineError,
>)
    requires
        renderer.wf(),
        forall|i: int| 0 <= i < frames@.len() ==> (#[trigger] frames@[i]).image.wf(),
    ensures
        match r {
            Ok(out) => {
                &&& is_animation(out@, frames@, renderer)
                &&& forall|i: int| 0 <= i < out@.len() ==> (#[trigger] out@[i]).image.wf()
            },
            Err(e) => animation_fails_with(e, frames@, renderer),
        },
{
    let mut canvases: Vec<RgbaImage> = Vec::new();
    let mut i: usize = 0;
    while i < frames.len()
        invariant
            renderer.wf(),
            forall|j: int| 0 <= j < frames@.len() ==> (#[trigger] frames@[j]).image.wf(),
            i <= frames@.len(),
            canvases@.len() == i,
            are_canvases(canvases@, frames@, renderer),
            forall|j: int| 0 <= j < i ==> (#[trigger] canvases@[j]).wf(),
        decreases frames@.len() - i,
    {
        match render_canvas(&frames[i].image, renderer) {
            Ok(canvas) => {
                canvases.push(canvas);
            },
            Err(e) => {
                return Err(e);
            },
        }
        i = i + 1;
    }
    match check_sizes(&canvases) {
        Some(e) => {
            return Err(PipelineError::Anim(e));
        },
        None => {},
    }
    let bounds = if renderer.paint.crop {
        shared_bounds(&canvases, renderer.paint.background)
    } else {
        None
    };
    let ghost n = canvases@.len() as int;
    let mut out: Vec<Frame> = Vec::new();
    let mut i: usize = 0;
    while i < canvases.len()
        invariant
            n == canvases@.len(),
            n == frames@.len(),
            i <= n,
            forall|j: int| 0 <= j < n ==> (#[trigger] canvases@[j]).wf(),
            bounds matches Some(b) ==> b.x0 < b.x1 && b.y0 < b.y1 && forall|j: int|
                0 <= j < n ==> b.x1 <= (#[trigger] canvases@[j]).width() && b.y1
                    <= canvases@[j].height(),
            out@.len() == i,
            forall|j: int| 0 <= j < i ==> (#[trigger] out@[j]).image.wf(),
            forall|j: int| 0 <= j < i ==> (#[trigger] out@[j]).delay_ms == frames@[j].delay_ms,
            forall|j: int|
                0 <= j < i ==> (match bounds {
                    Some(b) => paint::is_crop(&(#[trigger] out@[j]).image, &canvases@[j], b),
                    None => out@[j].image.same(&canvases@[j]),
                }),
        decreases n - i,
    {
        let image = match bounds {
            Some(b) => crop_to(&canvases[i], b),
            None => canvases[i].duplicate(),
        };
        out.push(Frame { image, delay_ms: frames[i].delay_ms });
        i = i + 1;
    }
    assert(are_cropped(out@, canvases@, frames@, &renderer.paint));
    assert(are_canvases(canvases@, frames@, renderer));
    Ok(out)
}

/// An encoded animation, with the number of its frames, the columns of their
/// grids and their size.
#[derive(Debug)]
pub struct Movie {
    pub file: Vec<u8>,
    pub frames: usize,
    pub cols: u32,
    pub width: u32,
    pub height: u32,
}

/// What the image command makes.
#[derive(Debug)]
pub enum Picture {
    Still(Still),
    Animation(Movie),
}

/// A picture, and what is to be said of it: that only its first frame was used,
/// and that its width was clamped.
#[derive(Debug)]
pub struct Painted {
    pub picture: Picture,
    pub truncated: Option<String>,
    pub clamped: Option<String>,
}

/// What is said when only the first frame of an animation is used.
pub open spec fn truncated_text(input: Seq<char>, frames: nat) -> Seq<char> {
    "note: '"@ + input + "' has "@ + text::decimal(frames)
        + " frames; writing frame 1 only (use a .gif output to animate)"@
}

/// Whether the frames of an input become a still.
pub open spec fn wants_still(frames: nat, output: Seq<char>) -> bool {
    frames == 1 || (frames > 1 && !paths::has_extension(output, "gif"@))
}

/// Whether the image command ended as it should for a still.
pub open spec fn is_still_result(
    r: Result<Painted, PipelineError>,
    frames: Seq<Frame>,
    input: Seq<char>,
    renderer: &Renderer,
) -> bool {
    match r {
        Ok(painted) => {
            &&& engine::convert_error(&frames[0].image, &renderer.engine) is None
            &&& painted.picture matches Picture::Still(still)
            &&& is_still_of(&still, &frames[0].image, renderer)
            &&& is_note(
                painted.truncated,
                if frames.len() > 1 {
                    Some(truncated_text(input, frames.len()))
                } else {
                    None
                },
            )
            &&& is_note(painted.clamped, spec_clamped_note(still.cols, renderer.engine.width))
        },
        Err(e) => fails_with(e, &frames[0].image, renderer),
    }
}

/// Whether an encoded animation is what becomes of painted frames.
pub open spec fn is_movie(
    movie: &Movie,
    out: Seq<Frame>,
    frames: Seq<Frame>,
    renderer: &Renderer,
) -> bool {
    &&& is_animation(out, frames, renderer)
    &&& anim::is_gif_of(Ok(movie.file), out)
    &&& movie.frames == frames.len()
    &&& movie.cols == engine::grid_geometry(&frames.last().image, &renderer.engine).cols
    &&& movie.width == out[0].image.width()
    &&& movie.height == out[0].image.height()
}

/// Whether the image command ended as it should for an animation.
pub open spec fn is_animation_result(
    r: Result<Painted, PipelineError>,
    frames: Seq<Frame>,
    renderer: &Renderer,
) -> bool {
    match r {
        Ok(painted) => {
            &&& painted.picture matches Picture::Animation(movie)
            &&& painted.truncated is None
            &&& is_note(painted.clamped, spec_clamped_note(movie.cols, renderer.engine.width))
            &&& exists|out: Seq<Frame>| #[trigger] is_movie(&movie, out, frames, renderer)
        },
        Err(e) => animation_fails_with(e, frames, renderer) || (e matches PipelineError::Anim(a)
            && exists|out: Seq<Frame>| #[trigger]
            is_animation(out, frames, renderer) && anim::is_gif_of(Err(a), out)),
    }
}

/// Whether the image command ended as it should, for the frames of its input.
pub open spec fn is_painted(
    r: Result<Painted, PipelineError>,
    frames: Seq<Frame>,
    input: Seq<char>,
    output: Seq<char>,
    renderer: &Renderer,
) -> bool {
    if wants_still(frames.len(), output) {
        is_still_result(r, frames, input, renderer)
    } else {
        is_animation_result(r, frames, renderer)
    }
}

/// What to say when only the first frame of an animation is used.
fn note_truncated(input: &str, frames: usize) -> (r: String)
    ensures
        r@ == truncated_text(input@, frames as nat),
{
    let mut out = "note: '".to_owned();
    out.append(input);
    out.append("' has ");
    text::push_decimal(&mut out, frames as u64);
    out.append(" frames; writing frame 1 only (use a .gif output to animate)");
    out
}

/// The image command, from the frames of its input to the picture.
pub fn paint_frames(frames: &Vec<Frame>, input: &str, output: &str, renderer: &Renderer) -> (r: Result<
    Painted,
    PipelineError,
>)
    requires
        renderer.wf(),
        forall|i: int| 0 <= i < frames@.len() ==> (#[trigger] frames@[i]).image.wf(),
    ensures
        is_painted(r, frames@, input@, output@, renderer),
{
    let n = frames.len();
    if n == 1 || (n > 1 && !wants_gif(output)) {
        let still = match render_still(&frames[0].image, renderer) {
            Ok(still) => still,
            Err(e) => {
                return Err(e);
            },
        };
        let truncated = if n > 1 {
            Some(note_truncated(input, n))
        } else {
            None
        };
        let clamped = note_clamped_width(still.cols, renderer.engine.width);
        return Ok(Painted { picture: Picture::Still(still), truncated, clamped });
    }
    let out = match render_animation(frames, renderer) {
        Ok(out) => out,
        Err(e) => {
            return Err(e);
        },
    };
    let file = match write_gif_to(&out) {
        Ok(file) => file,
        Err(e) => {
            assert(is_animation(out@, frames@, renderer) && anim::is_gif_of(Err(e), out@));
            return Err(PipelineError::Anim(e));
        },
    };
    let ghost canvases = choose|canvases: Seq<RgbaImage>| #[trigger]
        are_canvases(canvases, frames@, renderer) && canvases.len() == frames@.len()
            && first_uneven(canvases, 0) is None && are_cropped(
            out@,
            canvases,
            frames@,
            &renderer.paint,
        );
    proof {
        assert(out@.len() == frames@.len());
        assert(is_canvas_of(&canvases[n - 1], &frames@[n - 1].image, renderer));
    }
    let (width, height) = out[0].image.dimensions();
    let (w, h) = frames[n - 1].image.dimensions();
    let cols = Geometry::new(w, h, renderer.engine.width, renderer.engine.aspect).cols;
    let movie = Movie { file, frames: n, cols, width, height };
    assert(is_movie(&movie, out@, frames@, renderer));
    let clamped = note_clamped_width(cols, renderer.engine.width);
    Ok(Painted { picture: Picture::Animation(movie), truncated: None, clamped })
}

/// Whether the image command ended as it should, for what its decoder gave.
pub open spec fn is_img_result(
    r: Result<Painted, PipelineError>,
    decoded: Result<Vec<Frame>, InputError>,
    input: Seq<char>,
    output: Seq<char>,
    renderer: &Renderer,
) -> bool {
    match decoded {
        Err(e) => r == Err::<Painted, PipelineError>(PipelineError::Input(e)),
        Ok(frames) => is_painted(r, frames@, input, output, renderer),
    }
}

/// The image command, from the bytes of its input to the picture.
pub fn run_img(
    bytes: &[u8],
    drawing: Drawing,
    input: &str,
    output: &str,
    renderer: &Renderer,
) -> (r: Result<Painted, PipelineError>)
    requires
        renderer.wf(),
    ensures
        exists|decoded: Result<Vec<Frame>, InputError>| #[trigger]
            input::is_frames(
                decoded,
                bytes@,
                drawing,
                target_px(renderer.engine.width),
            ) && is_img_result(
                r,
                decoded,
                input@,
                output@,
                renderer,
            ),
{
    let decoded = decode_frames(bytes, drawing, svg_target_px(renderer.engine.width));
    let ghost first = decoded;
    assert(input::is_frames(first, bytes@, drawing, target_px(renderer.engine.width)));
    let frames = match decoded {
        Ok(frames) => frames,
        Err(e) => {
            let r = Err(PipelineError::Input(e));
            assert(is_img_result(r, first, input@, output@, renderer));
            return r;
        },
    };
    let r = paint_frames(&frames, input, output, renderer);
    assert(is_img_result(r, first, input@, output@, renderer));
    r
}

/// How wide the column of names is in the list of charsets.
pub const NAME_WIDTH: usize = 12;

/// The density ramp that a run of increasingly filled braille cells produces.
pub const BRAILLE_SAMPLE: &'static str = "⣿⡿⠿⠟⠛⠋⠉⠁⠀";

/// What the list of charsets shows of a charset.
pub open spec fn sample_of(charset: &Charset) -> Seq<char> {
    match charset {
        Charset::Ramp(ramp) => ramp@,
        Charset::Braille => BRAILLE_SAMPLE@,
    }
}

/// The line of a charset in the list: its name, filled up with spaces, a space
/// and the sample.
pub open spec fn charset_line(name: Seq<char>, charset: &Charset) -> Seq<char> {
    let fill = if name.len() < NAME_WIDTH {
        (NAME_WIDTH - name.len()) as nat
    } else {
        0
    };
    name + Seq::new(fill, |i: int| ' ') + " "@ + sample_of(charset)
}

/// The line of a charset in the list.
pub fn describe_charset(name: &str, charset: &Charset) -> (r: String)
    ensures
        r@ == charset_line(name@, charset),
{
    let mut out = name.to_owned();
    let mut len = text::chars_of(name).len();
    let ghost start = len;
    while len < NAME_WIDTH
        invariant
            start == name@.len(),
            start <= len,
            len <= NAME_WIDTH || len == start,
            out@ == name@ + Seq::new((len - start) as nat, |i: int| ' '),
        decreases NAME_WIDTH - len,
    {
        out.push(' ');
        assert(out@ =~= name@ + Seq::new((len + 1 - start) as nat, |i: int| ' '));
        len = len + 1;
    }
    out.append(" ");
    match charset {
        Charset::Ramp(ramp) => {
            let sample = text::string_of(ramp, 0, ramp.len());
            assert(sample@ =~= ramp@);
            out.append(sample.as_str());
        },
        Charset::Braille => {
            out.append(BRAILLE_SAMPLE);
        },
    }
    out
}

/// Whether a line is the one of a named charset.
pub open spec fn is_listed(line: Seq<char>, name: Seq<char>, fonts: Seq<Seq<u8>>) -> bool {
    exists|c: Charset| #[trigger]
        charset::is_tried(Ok(c), name, fonts) && line == charset_line(name, &c)
}

/// The list of built-in charsets, a line for each.
pub fn run_charsets(embedded: &FontStack) -> (r: Result<Vec<String>, ResolveError>)
    ensures
        match r {
            Ok(lines) => {
                &&& lines@.len() == NAMED.len()
                &&& forall|i: int|
                    0 <= i < lines@.len() ==> is_listed(
                        (#[trigger] lines@[i])@,
                        NAMED[i]@,
                        embedded@,
                    )
            },
            Err(e) => exists|i: int|
                0 <= i < NAMED.len() && charset::is_tried(
                    Err(e),
                    (#[trigger] NAMED[i])@,
                    embedded@,
                ),
        },
{
    let names = NAMED;
    let mut lines: Vec<String> = Vec::new();
    let mut i: usize = 0;
    while i < 15
        invariant
            i <= 15,
            names == NAMED,
            lines@.len() == i,
            forall|j: int|
                0 <= j < i ==> is_listed((#[trigger] lines@[j])@, NAMED[j]@, embedded@),
        decreases 15 - i,
    {
        let name = names[i];
        match try_resolve(name, embedded) {
            Ok(charset) => {
                let line = describe_charset(name, &charset);
                assert(is_listed(line@, NAMED[i as int]@, embedded@));
                lines.push(line);
            },
            Err(e) => {
                assert(charset::is_tried(Err(e), NAMED[i as int]@, embedded@));
                return Err(e);
            },
        }
        i = i + 1;
    }
    Ok(lines)
}

} // verus!
