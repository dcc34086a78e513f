//! What holds of a whole video.

use crate::engine;
use crate::engine::{AsciiGrid, Options};
use crate::float::Single;
use crate::paint;
use crate::paint::{Bounds, PaintOptions};
use crate::pixels::RgbaImage;
use crate::video;
use vstd::prelude::*;

verus! {

/// Frames have the size that their crop box or their canvas has, made even.
pub proof fn lemma_frame_size(
    r: &RgbaImage,
    source: &RgbaImage,
    fonts: Seq<Seq<u8>>,
    eopts: &Options,
    popts: &PaintOptions,
    overlay: Single,
    before: Option<Bounds>,
    next: Option<Bounds>,
)
    requires
        video::is_video_frame(r, source, fonts, eopts, popts, overlay, before, next),
    ensures
        popts.crop ==> next is Some,
        popts.crop && before is Some ==> next == before,
        (r.width(), r.height()) == video::frame_size(
            source.width(),
            source.height(),
            eopts,
            popts,
            next,
        ),
{
    let (grid, canvas, kept) = choose|grid: AsciiGrid, canvas: RgbaImage, kept: RgbaImage|
        #![trigger engine::is_conversion(&grid, source, eopts), paint::is_canvas(
            &canvas,
            &grid,
            fonts,
            popts,
        ), video::is_finished(r, &kept, source, overlay)]
        {
            &&& engine::is_conversion(&grid, source, eopts)
            &&& paint::paint_error(&grid, fonts, popts) is None
            &&& paint::is_canvas(&canvas, &grid, fonts, popts)
            &&& video::is_next_box(next, before, &canvas, popts)
            &&& video::is_kept(&kept, &canvas, next, popts)
            &&& video::is_finished(r, &kept, source, overlay)
        };
    assert(video::is_kept(&kept, &canvas, next, popts));
    let even = choose|even: RgbaImage| #[trigger]
        video::is_even_part(&even, &kept) && if (Single { bits: 0 }).less(overlay) {
            video::is_overlaid(r, &even, source, overlay)
        } else {
            r.same(&even)
        };
    assert(video::is_even_part(&even, &kept));
}

/// Every frame of a video has the same size: a frame that follows another one,
/// from a source of the same size and with the same options, is as large as it
/// is. Both sides are even, but for a side of a single pixel.
pub proof fn law_frames_share_one_size(
    first: &RgbaImage,
    second: &RgbaImage,
    source: &RgbaImage,
    follower: &RgbaImage,
    fonts: Seq<Seq<u8>>,
    eopts: &Options,
    popts: &PaintOptions,
    overlay: Single,
    start: Option<Bounds>,
    between: Option<Bounds>,
    end: Option<Bounds>,
)
    requires
        source.width() == follower.width(),
        source.height() == follower.height(),
        video::is_video_frame(first, source, fonts, eopts, popts, overlay, start, between),
        video::is_video_frame(second, follower, fonts, eopts, popts, overlay, between, end),
    ensures
        second.width() == first.width(),
        second.height() == first.height(),
        first.width() % 2 == 0 || first.width() == 1,
        first.height() % 2 == 0 || first.height() == 1,
        popts.crop ==> end == between,
{
    lemma_frame_size(first, source, fonts, eopts, popts, overlay, start, between);
    lemma_frame_size(second, follower, fonts, eopts, popts, overlay, between, end);
}

} // verus!
