//! What holds of whole commands.

use crate::anim;
use crate::input::Frame;
use crate::paint;
use crate::paint::{Bounds, PaintOptions};
use crate::pipeline;
use crate::pipeline::Renderer;
use crate::pixels::RgbaImage;
use vstd::prelude::*;

verus! {

/// Images of which none is uneven all have the size of the first one.
proof fn lemma_even(images: Seq<RgbaImage>, from: int, i: int)
    requires
        0 <= from <= i < images.len(),
        pipeline::first_uneven(images, from) is None,
    ensures
        images[i].width() == images[0].width(),
        images[i].height() == images[0].height(),
    decreases i - from,
{
    if from < i {
        lemma_even(images, from + 1, i);
    }
}

/// Frames that all have the size of the first one hold no odd one.
proof fn lemma_no_odd(frames: Seq<Frame>, from: int)
    requires
        from >= 0,
        forall|i: int|
            0 <= i < frames.len() ==> (#[trigger] frames[i]).image.width()
                == frames[0].image.width() && frames[i].image.height() == frames[0].image.height(),
    ensures
        anim::first_odd(frames, from) is None,
    decreases frames.len() - from,
{
    if from < frames.len() {
        lemma_no_odd(frames, from + 1);
    }
}

/// The frames of a painted animation share one size.
proof fn lemma_cropped_sizes(
    out: Seq<Frame>,
    canvases: Seq<RgbaImage>,
    frames: Seq<Frame>,
    opts: &PaintOptions,
    i: int,
)
    requires
        pipeline::are_cropped(out, canvases, frames, opts),
        pipeline::first_uneven(canvases, 0) is None,
        0 <= i < out.len(),
    ensures
        out[i].image.width() == out[0].image.width(),
        out[i].image.height() == out[0].image.height(),
{
    lemma_even(canvases, 0, i);
    let n = canvases.len() as int;
    if opts.crop && pipeline::any_content(canvases, opts.background, n) {
        let b = choose|b: Bounds| #[trigger]
            pipeline::is_shared_box(b, canvases, opts.background, n) && forall|j: int|
                0 <= j < n ==> paint::is_crop(&(#[trigger] out[j]).image, &canvases[j], b);
        assert(paint::is_crop(&out[0].image, &canvases[0], b));
        assert(paint::is_crop(&out[i].image, &canvases[i], b));
    } else {
        assert(out[0].image.same(&canvases[0]));
        assert(out[i].image.same(&canvases[i]));
    }
}

/// Every frame of an animation lands on the same canvas: there are as many as the
/// source has, with its delays, and all have one size, so that they can be
/// encoded.
pub proof fn law_animation_frames_share_one_size(
    out: Seq<Frame>,
    frames: Seq<Frame>,
    renderer: &Renderer,
)
    requires
        pipeline::is_animation(out, frames, renderer),
    ensures
        out.len() == frames.len(),
        forall|i: int|
            0 <= i < out.len() ==> {
                &&& (#[trigger] out[i]).delay_ms == frames[i].delay_ms
                &&& out[i].image.width() == out[0].image.width()
                &&& out[i].image.height() == out[0].image.height()
            },
        anim::first_odd(out, 0) is None,
{
    let canvases = choose|canvases: Seq<RgbaImage>| #[trigger]
        pipeline::are_canvases(canvases, frames, renderer) && canvases.len() == frames.len()
            && pipeline::first_uneven(canvases, 0) is None && pipeline::are_cropped(
            out,
            canvases,
            frames,
            &renderer.paint,
        );
    assert(pipeline::are_cropped(out, canvases, frames, &renderer.paint));
    assert forall|i: int| 0 <= i < out.len() implies {
        &&& (#[trigger] out[i]).delay_ms == frames[i].delay_ms
        &&& out[i].image.width() == out[0].image.width()
        &&& out[i].image.height() == out[0].image.height()
    } by {
        lemma_cropped_sizes(out, canvases, frames, &renderer.paint, i);
    }
    lemma_no_odd(out, 0);
}

/// Whether every drawn pixel of every canvas is found again in the frame, moved by
/// the same distance in all of them.
pub open spec fn all_kept(
    out: Seq<Frame>,
    canvases: Seq<RgbaImage>,
    opts: &PaintOptions,
    dx: int,
    dy: int,
) -> bool {
    forall|i: int, x: int, y: int|
        0 <= i < canvases.len() && 0 <= x < canvases[i].width() && 0 <= y < canvases[i].height()
            && paint::is_drawn(#[trigger] canvases[i].pixel(x, y), opts.background) ==> {
            &&& 0 <= x - dx < out[i].image.width()
            &&& 0 <= y - dy < out[i].image.height()
            &&& out[i].image.pixel(x - dx, y - dy) == canvases[i].pixel(x, y)
        }
}

/// Cropping an animation keeps every frame whole: what is drawn on the canvas of
/// any frame is in the result, and all frames are moved by the same distance.
pub proof fn law_animation_cropping_keeps_every_frame_whole(
    out: Seq<Frame>,
    canvases: Seq<RgbaImage>,
    frames: Seq<Frame>,
    opts: &PaintOptions,
)
    requires
        pipeline::are_cropped(out, canvases, frames, opts),
    ensures
        exists|dx: int, dy: int| #[trigger] all_kept(out, canvases, opts, dx, dy),
{
    let n = canvases.len() as int;
    if opts.crop && pipeline::any_content(canvases, opts.background, n) {
        let b = choose|b: Bounds| #[trigger]
            pipeline::is_shared_box(b, canvases, opts.background, n) && forall|j: int|
                0 <= j < n ==> paint::is_crop(&(#[trigger] out[j]).image, &canvases[j], b);
        assert forall|i: int, x: int, y: int|
            0 <= i < canvases.len() && 0 <= x < canvases[i].width() && 0 <= y
                < canvases[i].height() && paint::is_drawn(
                #[trigger] canvases[i].pixel(x, y),
                opts.background,
            ) implies {
            &&& 0 <= x - b.x0 < out[i].image.width()
            &&& 0 <= y - b.y0 < out[i].image.height()
            &&& out[i].image.pixel(x - b.x0, y - b.y0) == canvases[i].pixel(x, y)
        } by {
            assert(b.holds(x, y));
            assert(paint::is_crop(&out[i].image, &canvases[i], b));
            assert(out[i].image.pixel(x - b.x0, y - b.y0) == canvases[i].pixel(
                b.x0 + (x - b.x0),
                b.y0 + (y - b.y0),
            ));
        }
        assert(all_kept(out, canvases, opts, b.x0 as int, b.y0 as int));
    } else {
        assert forall|i: int, x: int, y: int|
            0 <= i < canvases.len() && 0 <= x < canvases[i].width() && 0 <= y
                < canvases[i].height() && paint::is_drawn(
                #[trigger] canvases[i].pixel(x, y),
                opts.background,
            ) implies {
            &&& 0 <= x - 0 < out[i].image.width()
            &&& 0 <= y - 0 < out[i].image.height()
            &&& out[i].image.pixel(x - 0, y - 0) == canvases[i].pixel(x, y)
        } by {
            assert(out[i].image.same(&canvases[i]));
        }
        assert(all_kept(out, canvases, opts, 0, 0));
    }
}

/// The canvas that an animation is refused for is the first one whose size is not that of the
/// first canvas of all.
pub proof fn law_first_uneven_canvas(images: Seq<RgbaImage>, from: int)
    requires
        0 <= from <= images.len(),
    ensures
        match pipeline::first_uneven(images, from) {
            Some(i) => {
                &&& from <= i < images.len()
                &&& (images[i].width() != images[0].width() || images[i].height()
                    != images[0].height())
                &&& forall|j: int|
                    from <= j < i ==> (#[trigger] images[j]).width() == images[0].width()
                        && images[j].height() == images[0].height()
            },
            None => forall|j: int|
                from <= j < images.len() ==> (#[trigger] images[j]).width() == images[0].width()
                    && images[j].height() == images[0].height(),
        },
    decreases images.len() - from,
{
    if from < images.len() {
        law_first_uneven_canvas(images, from + 1);
    }
}

} // verus!
