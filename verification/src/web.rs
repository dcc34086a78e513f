//! What a browser calls.
//!
//! The engine is pure computation over a pixel buffer, so the whole pipeline runs
//! in a page; the bindings themselves are made by the program around the library.

use crate::charset;
use crate::charset::{try_resolve, NAMED};
use crate::engine;
use crate::engine::{convert, AsciiGrid, Options, DEFAULT_ALPHA_THRESHOLD};
use crate::float::Single;
use crate::font::FontStack;
use crate::input;
use crate::input::{decode_still, svg_target_px, Drawing};
use crate::mcp::VERSION;
use crate::pipeline;
use crate::pipeline::{CommonArgs, PipelineError, TxtArgs};
use crate::pixels::RgbaImage;
use crate::render;
use crate::render::{to_json, to_text};
use vstd::prelude::*;

verus! {

/// A converted image, with the options that were used.
#[derive(Debug)]
pub struct Converted {
    pub grid: AsciiGrid,
    pub opts: Options,
}

/// Whether conversion options are the ones that a page asks for.
pub open spec fn are_web_options(opts: &Options, width: u32, invert: bool) -> bool {
    &&& opts.width == width
    &&& opts.invert == invert
    &&& opts.aspect == (Single { bits: engine::TWO })
    &&& opts.alpha_threshold == DEFAULT_ALPHA_THRESHOLD
    &&& opts.matte == Some(pipeline::text_matte(invert))
    &&& opts.braille_threshold is None
}

/// Whether a conversion ended as it should, for the options and for what the
/// decoder gave.
pub open spec fn is_outcome(
    r: Result<Converted, PipelineError>,
    decoded: Result<RgbaImage, input::InputError>,
    opts: &Options,
) -> bool {
    match decoded {
        Err(e) => r == Err::<Converted, PipelineError>(PipelineError::Input(e)),
        Ok(image) => match engine::convert_error(&image, opts) {
            Some(e) => r == Err::<Converted, PipelineError>(PipelineError::Convert(e)),
            None => {
                &&& r matches Ok(converted)
                &&& converted.opts == opts
                &&& engine::is_conversion(&converted.grid, &image, opts)
            },
        },
    }
}

/// Whether a conversion ended as it should for the bytes of a file.
pub open spec fn is_converted(
    r: Result<Converted, PipelineError>,
    bytes: Seq<u8>,
    drawing: Drawing,
    width: u32,
    name: Seq<char>,
    invert: bool,
    fonts: Seq<Seq<u8>>,
) -> bool {
    match r {
        Err(PipelineError::Charset(e)) => charset::is_tried(Err(e), name, fonts),
        _ => exists|opts: Options, decoded: Result<RgbaImage, input::InputError>|
            {
                &&& charset::is_tried(Ok(opts.charset), name, fonts)
                &&& are_web_options(&opts, width, invert)
                &&& input::is_still(decoded, bytes, drawing, pipeline::target_px(width))
                &&& #[trigger] is_outcome(r, decoded, &opts)
            },
    }
}

/// Converts the bytes of a file.
pub fn convert_bytes(
    bytes: &[u8],
    drawing: Drawing,
    width: u32,
    name: &str,
    invert: bool,
    embedded: &FontStack,
) -> (r: Result<Converted, PipelineError>)
    ensures
        is_converted(r, bytes@, drawing, width, name@, invert, embedded@),
        r matches Ok(converted) ==> converted.grid.wf(),
{
    let charset = match try_resolve(name, embedded) {
        Ok(charset) => charset,
        Err(e) => {
            return Err(PipelineError::Charset(e));
        },
    };
    let opts = Options {
        width,
        charset,
        invert,
        aspect: Single { bits: engine::TWO },
        alpha_threshold: DEFAULT_ALPHA_THRESHOLD,
        matte: Some(pipeline::matte_for_text(invert)),
        braille_threshold: None,
    };
    let decoded = decode_still(bytes, drawing, svg_target_px(width));
    let ghost (used, first) = (opts, decoded);
    let image = match decoded {
        Ok(image) => image,
        Err(e) => {
            let r = Err(PipelineError::Input(e));
            assert(is_outcome(r, first, &used));
            return r;
        },
    };
    let r = match convert(&image, &opts) {
        Ok(grid) => Ok(Converted { grid, opts }),
        Err(e) => Err(PipelineError::Convert(e)),
    };
    assert(is_outcome(r, first, &used));
    r
}

/// Turns image bytes (PNG, JPEG, GIF, WebP, BMP or SVG) into ASCII text, where `drawing`
/// was drawn of an SVG document.
///
/// `charset` takes the same values as the option of the command line, including
/// `braille` and `custom:<chars>`.
pub fn image_to_ascii(
    bytes: &[u8],
    drawing: Drawing,
    width: u32,
    charset: &str,
    invert: bool,
    embedded: &FontStack,
) -> (r: Result<String, PipelineError>)
    ensures
        exists|c: Result<Converted, PipelineError>| #[trigger]
            is_converted(c, bytes@, drawing, width, charset@, invert, embedded@) && match (c, r) {
                (Ok(converted), Ok(s)) => s@ == render::text_rows(
                    &converted.grid,
                    converted.grid.rows as nat,
                ),
                (Err(a), Err(b)) => a == b,
                _ => false,
            },
{
    let c = convert_bytes(bytes, drawing, width, charset, invert, embedded);
    let ghost first = c;
    assert(is_converted(first, bytes@, drawing, width, charset@, invert, embedded@));
    match c {
        Ok(converted) => Ok(to_text(&converted.grid)),
        Err(e) => Err(e),
    }
}

/// The same conversion as a JSON document (a string, so the caller decides
/// whether to parse it).
pub fn image_to_json(
    bytes: &[u8],
    drawing: Drawing,
    width: u32,
    charset: &str,
    invert: bool,
    include_colors: bool,
    embedded: &FontStack,
) -> (r: Result<String, PipelineError>)
    ensures
        exists|c: Result<Converted, PipelineError>| #[trigger]
            is_converted(c, bytes@, drawing, width, charset@, invert, embedded@) && match (c, r) {
                (Ok(converted), Ok(s)) => s@ == render::json_document(
                    &converted.grid,
                    &converted.opts.charset,
                    invert,
                    include_colors,
                ),
                (Err(a), Err(b)) => a == b,
                _ => false,
            },
{
    let c = convert_bytes(bytes, drawing, width, charset, invert, embedded);
    let ghost first = c;
    assert(is_converted(first, bytes@, drawing, width, charset@, invert, embedded@));
    match c {
        Ok(converted) => Ok(
            to_json(&converted.grid, &converted.opts.charset, invert, include_colors),
        ),
        Err(e) => Err(e),
    }
}

/// Built-in charset names, for populating a picker.
pub fn charset_names() -> (r: Vec<String>)
    ensures
        r@.len() == NAMED.len(),
        forall|i: int| 0 <= i < r@.len() ==> (#[trigger] r@[i])@ == NAMED[i]@,
{
    let names = NAMED;
    let mut out: Vec<String> = Vec::new();
    let mut i: usize = 0;
    while i < 15
        invariant
            i <= 15,
            names == NAMED,
            out@.len() == i,
            forall|j: int| 0 <= j < i ==> (#[trigger] out@[j])@ == NAMED[j]@,
        decreases 15 - i,
    {
        out.push(names[i].to_owned());
        i = i + 1;
    }
    out
}

/// The version of the library.
pub fn version() -> (r: String)
    ensures
        r@ == VERSION@,
{
    VERSION.to_owned()
}

/// A page gets the document that the text command writes: its options are those of
/// the command with its defaults, and so is the document with colors.
pub proof fn law_pages_get_the_document_of_the_command(
    opts: &Options,
    width: u32,
    common: &CommonArgs,
    args: &TxtArgs,
    grid: &AsciiGrid,
)
    requires
        common.alpha_threshold == DEFAULT_ALPHA_THRESHOLD,
        common.threshold is None,
        args.aspect == (Single { bits: engine::TWO }),
        args.json,
    ensures
        are_web_options(opts, width, args.invert) == pipeline::are_txt_options(
            opts,
            width,
            common,
            args,
        ),
        are_web_options(opts, width, args.invert) ==> pipeline::txt_of(grid, opts, args)
            == render::json_document(grid, &opts.charset, args.invert, true),
{
}

} // verus!
