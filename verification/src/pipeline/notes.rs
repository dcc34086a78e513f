//! What commands say.

use crate::anim::AnimError;
use crate::charset::Charset;
use crate::engine;
use crate::engine::sampling;
use crate::json::reading;
use crate::paint::{Background, PaintError};
use crate::paths;
use crate::pipeline;
use crate::pipeline::{CommonArgs, RenderArgs, Renderer};
use crate::text;
use crate::video::VideoError;
use vstd::prelude::*;

verus! {

/// A width is noted if and only if fewer columns came out than were asked for, and the note
/// names both.
pub proof fn law_clamped_widths_are_noted(
    cols: u32,
    requested: u32,
) -> (parts: (Seq<char>, Seq<char>))
    ensures
        match pipeline::spec_clamped_note(cols, requested) {
            Some(note) => {
                &&& cols < requested
                &&& note == "note: --width "@ + parts.0 + " clamped to image width ("@ + parts.1
                    + " columns)"@
                &&& reading::read_number(parts.0) == Some(requested as int)
                &&& reading::read_number(parts.1) == Some(cols as int)
            },
            None => cols >= requested,
        },
{
    reading::law_numbers_read_back(requested as nat);
    reading::law_numbers_read_back(cols as nat);
    (text::decimal(requested as nat), text::decimal(cols as nat))
}

/// Samples stand below each other in the list of charsets: behind the name and a space, in the
/// column after twelve characters and a space where the name is not longer, and what fills
/// the gap is spaces. The sample of a ramp is the ramp.
pub proof fn law_samples_stand_in_a_column(name: Seq<char>, charset: &Charset)
    ensures
        ({
            let line = pipeline::charset_line(name, charset);
            let at = if name.len() < 12 {
                13
            } else {
                name.len() as int + 1
            };
            &&& line.take(name.len() as int) == name
            &&& forall|i: int| name.len() <= i < at ==> #[trigger] line[i] == ' '
            &&& charset matches Charset::Ramp(ramp) ==> line.skip(at) == ramp@
            &&& at <= line.len()
        }),
{
    reveal_strlit(" ");
    let line = pipeline::charset_line(name, charset);
    let at = if name.len() < 12 {
        13
    } else {
        name.len() as int + 1
    };
    assert(line.take(name.len() as int) =~= name);
    assert(line.skip(at) =~= pipeline::sample_of(charset));
}

/// What shows through a picture reads as a blank: over the surface that text is composited onto,
/// invisible cells have the luma of the last character of the ramp, inverted or not.
pub proof fn law_mattes_read_as_the_end_of_the_ramp(n: usize, invert: bool)
    requires
        0 < n < 0x20_0000_0000_0000,
    ensures
        engine::ramp_index(sampling::spec_luma(pipeline::text_matte(invert)), n, invert) == n - 1,
{
    engine::laws::law_black_is_the_first_character(n);
    engine::laws::law_white_is_the_last_character(n);
}

/// SVG documents are drawn with eight pixels for a column, as far as there are numbers for it.
pub proof fn law_documents_get_eight_pixels_a_column(width: u32)
    ensures
        width < 0x2000_0000 ==> pipeline::target_px(width) == 8 * width,
        width >= 0x2000_0000 ==> pipeline::target_px(width) == u32::MAX,
{
}

/// Messages on sizes name them, width before height: that of a canvas that is too large, those of
/// two frames that differ, and that of a stream without pixels.
pub proof fn law_messages_name_sizes(w: u64, h: u64, a: u32, b: u32, c: u32, d: u32) -> (parts: (
    Seq<char>,
    Seq<char>,
    (Seq<char>, Seq<char>, Seq<char>, Seq<char>),
))
    ensures
        reading::read_number(parts.0) == Some(w as int),
        reading::read_number(parts.1) == Some(h as int),
        ({
            let (a1, b1, c1, d1) = parts.2;
            &&& reading::read_number(a1) == Some(a as int)
            &&& reading::read_number(b1) == Some(b as int)
            &&& reading::read_number(c1) == Some(c as int)
            &&& reading::read_number(d1) == Some(d as int)
            &&& AnimError::Ragged(a, b, c, d).spec_message()
                == "every frame must share one size; got "@ + a1 + "x"@ + b1 + " after "@ + c1
                + "x"@ + d1
            &&& VideoError::NoPixels(a, b).spec_message() == "video stream is "@ + a1 + "x"@ + b1
        }),
        PaintError::CanvasTooLarge(w, h).spec_message() == "output canvas "@ + parts.0 + "x"@
            + parts.1 + " exceeds 500000000 pixels; lower --width or --font-px"@,
{
    reading::law_numbers_read_back(w as nat);
    reading::law_numbers_read_back(h as nat);
    reading::law_numbers_read_back(a as nat);
    reading::law_numbers_read_back(b as nat);
    reading::law_numbers_read_back(c as nat);
    reading::law_numbers_read_back(d as nat);
    (
        text::decimal(w as nat),
        text::decimal(h as nat),
        (
            text::decimal(a as nat),
            text::decimal(b as nat),
            text::decimal(c as nat),
            text::decimal(d as nat),
        ),
    )
}

/// An animation stays one only where it is written as a GIF; elsewhere its first frame becomes
/// a still, and so does an input of one frame.
pub proof fn law_only_gifs_move(frames: nat, dir: Seq<char>, stem: Seq<char>, ext: Seq<char>)
    requires
        dir.len() == 0 || dir.last() == '/',
        stem.len() > 0,
        paths::laws::free_of(stem, '/'),
        paths::laws::free_of(ext, '/'),
        paths::laws::free_of(ext, '.'),
        stem != seq!['.'] || ext.len() > 0,
        frames > 0,
    ensures
        pipeline::wants_still(frames, dir + (stem + seq!['.'] + ext)) == (frames == 1
            || paths::lowered(ext) != "gif"@),
{
    let none = Seq::<char>::empty();
    let path = dir + (stem + seq!['.'] + ext);
    paths::laws::law_extensions_follow_the_last_dot(dir, stem, ext, none);
    assert(path + none =~= path);
}

/// Pictures follow their arguments. Where these are left out, conversions are inverted on all
/// backgrounds but white, and cells have the aspect that they are painted in, so that pictures
/// keep their proportions.
pub proof fn law_pictures_follow_their_arguments(
    renderer: &Renderer,
    common: &CommonArgs,
    args: &RenderArgs,
    width: u32,
)
    requires
        renderer.follows(common, args, width),
    ensures
        renderer.engine.width == width,
        args.invert matches Some(invert) ==> renderer.engine.invert == invert,
        args.invert is None ==> renderer.engine.invert == (args.background != Background::White),
        args.aspect matches Some(aspect) ==> renderer.engine.aspect == aspect,
        args.aspect is None ==> renderer.engine.aspect == renderer.paint.metrics.aspect(),
        renderer.engine.alpha_threshold == common.alpha_threshold,
        renderer.engine.braille_threshold == common.threshold,
        renderer.engine.matte is None <==> args.background == Background::Transparent,
        renderer.paint.background == args.background,
        renderer.paint.colored == args.color,
        renderer.paint.crop != args.no_crop,
        renderer.paint.font_px == args.font_px,
{
}

} // verus!
