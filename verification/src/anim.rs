//! Animated GIF output.
//!
//! The engine is per-frame and stateless, so animation is just "convert every
//! frame with the same settings and keep the timing"; the only subtlety is that
//! every frame must come out the same size (see [`crate::paint::Bounds`]).

use crate::input;
use crate::input::Frame;
use crate::paint::{crop_to, Bounds};
use crate::paths;
use crate::pixels::RgbaImage;
use crate::text;
use image::codecs::gif::{GifEncoder, Repeat};
use image::Delay;
use vstd::prelude::*;

pub mod laws;

verus! {

/// Encoder speed (1 is best quality, 30 is fastest). ASCII frames are
/// flat-colored, so a middling setting already quantizes cleanly.
pub const SPEED: i32 = 10;

/// Why no GIF was written.
#[derive(Debug, Clone, Copy, PartialEq, Eq, Structural)]
pub enum AnimError {
    /// There are no frames.
    Empty,
    /// A frame has another size than the first one: width and height of the odd
    /// one, then of the first one.
    Ragged(u32, u32, u32, u32),
    /// The encoder rejects the frames.
    Encode,
}

impl AnimError {
    /// What the error says to a user.
    pub open spec fn spec_message(self) -> Seq<char> {
        match self {
            AnimError::Empty => "no frames to encode"@,
            AnimError::Ragged(a, b, w, h) => "every frame must share one size; got "@
                + text::decimal(a as nat) + "x"@ + text::decimal(b as nat) + " after "@
                + text::decimal(w as nat) + "x"@ + text::decimal(h as nat),
            AnimError::Encode => "failed to encode frames"@,
        }
    }

    /// What the error says to a user.
    pub fn message(&self) -> (r: String)
        ensures
            r@ == self.spec_message(),
    {
        match self {
            AnimError::Empty => "no frames to encode".to_owned(),
            AnimError::Ragged(a, b, w, h) => {
                let mut out = "every frame must share one size; got ".to_owned();
                text::push_decimal(&mut out, *a as u64);
                out.append("x");
                text::push_decimal(&mut out, *b as u64);
                out.append(" after ");
                text::push_decimal(&mut out, *w as u64);
                out.append("x");
                text::push_decimal(&mut out, *h as u64);
                out
            },
            AnimError::Encode => "failed to encode frames".to_owned(),
        }
    }
}

// The file that an encoder writes for frames, each given as delay in
// milliseconds, width, height and bytes, at a speed; nothing where it rejects
// them.
pub uninterp spec fn gif_file(frames: Seq<(u32, u32, u32, Seq<u8>)>, speed: i32) -> Option<Seq<u8>>;

impl View for Frame {
    type V = (u32, u32, u32, Seq<u8>);

    open spec fn view(&self) -> (u32, u32, u32, Seq<u8>) {
        (self.delay_ms, self.image.width(), self.image.height(), self.image@)
    }
}

/// The plain values of frames.
pub open spec fn frame_values(frames: Seq<Frame>) -> Seq<(u32, u32, u32, Seq<u8>)> {
    frames.map_values(|f: Frame| f@)
}

/// The largest side that a frame of a GIF can have.
pub const MAX_SIDE: u32 = 65535;

/// Whether the format has room for the sides of frames.
pub open spec fn has_room(frames: Seq<(u32, u32, u32, Seq<u8>)>) -> bool {
    forall|i: int|
        0 <= i < frames.len() ==> (#[trigger] frames[i]).1 <= MAX_SIDE && frames[i].2 <= MAX_SIDE
}

/// Whether there are frames, and all of them have pixels and one size.
pub open spec fn one_size(frames: Seq<(u32, u32, u32, Seq<u8>)>) -> bool {
    &&& frames.len() > 0
    &&& frames[0].1 > 0
    &&& frames[0].2 > 0
    &&& forall|i: int|
        0 <= i < frames.len() ==> (#[trigger] frames[i]).1 == frames[0].1 && frames[i].2
            == frames[0].2
}

/// A delay in milliseconds, in the resolution and the range of the format: whole
/// hundredths of a second, at most 65535 of them.
pub open spec fn stored_delay(delay_ms: u32) -> u32 {
    if delay_ms / 10 > 65535 {
        655350
    } else {
        (delay_ms / 10 * 10) as u32
    }
}

/// The colors of a buffer of pixels.
pub open spec fn colors_of(data: Seq<u8>) -> Set<Seq<u8>> {
    Set::new(
        |c: Seq<u8>|
            exists|i: int|
                #![trigger data.subrange(4 * i, 4 * i + 4)]
                0 <= i && 4 * i + 4 <= data.len() && c == data.subrange(4 * i, 4 * i + 4),
    )
}

/// Whether a buffer of pixels is opaque and has no more colors than the palette
/// of a frame.
pub open spec fn fits_palette(data: Seq<u8>) -> bool {
    &&& forall|i: int| 0 <= i < data.len() && i % 4 == 3 ==> #[trigger] data[i] == 255
    &&& colors_of(data).finite()
    &&& colors_of(data).len() <= 256
}

/// Whether a file decodes to frames of the same number, sizes and, as far as the
/// format stores them, delays, and to the same pixels where a palette can hold
/// them.
pub open spec fn reads_back(file: Seq<u8>, frames: Seq<(u32, u32, u32, Seq<u8>)>) -> bool {
    &&& input::spec_is_gif(file)
    &&& input::gif_frames(file) matches Ok(raw)
    &&& raw.len() == frames.len()
    &&& forall|i: int|
        0 <= i < frames.len() ==> {
            &&& (#[trigger] raw[i]).0 == stored_delay(frames[i].0)
            &&& raw[i].1 == 1
            &&& raw[i].2 == frames[i].1
            &&& raw[i].3 == frames[i].2
            &&& fits_palette(frames[i].3) ==> raw[i].4 == frames[i].3
        }
}

/// `GifEncoder::new_with_speed`, `set_repeat` with no end, and `encode_frames`.
///
/// Trusted: the file is a function of the frames and of the speed; writing to
/// memory fails only for sides that the format has no room for; and frames of one
/// size decode back, with their delays cut to hundredths of a second and, where
/// they are opaque and have at most 256 colors, with the same pixels. What becomes
/// of other pixels is not claimed: their colors are quantized and their alpha is
/// reduced to a mask.
#[verifier::external_body]
fn encode_gif(frames: &Vec<Frame>, speed: i32) -> (r: Option<Vec<u8>>)
    requires
        1 <= speed <= 30,
        forall|i: int| 0 <= i < frames@.len() ==> (#[trigger] frames@[i]).image.wf(),
    ensures
        match r {
            Some(file) => {
                &&& gif_file(frame_values(frames@), speed) == Some(file@)
                &&& has_room(frame_values(frames@))
                &&& one_size(frame_values(frames@)) ==> reads_back(
                    file@,
                    frame_values(frames@),
                )
            },
            None => gif_file(frame_values(frames@), speed) is None && !has_room(
                frame_values(frames@),
            ),
        },
{
    let mut out = Vec::new();
    let mut encoder = GifEncoder::new_with_speed(&mut out, speed);
    encoder.set_repeat(Repeat::Infinite).ok()?;
    encoder.encode_frames(frames.iter().map(|f| {
        let (w, h) = f.image.dimensions();
        let buffer = image::RgbaImage::from_raw(w, h, f.image.as_raw().clone());
        let delay = Delay::from_numer_denom_ms(f.delay_ms, 1);
        image::Frame::from_parts(buffer.unwrap_or_default(), 0, 0, delay)
    })).ok()?;
    drop(encoder);
    Some(out)
}

/// The index of the first frame that has another size than the first one.
pub open spec fn first_odd(frames: Seq<Frame>, from: int) -> Option<int>
    decreases frames.len() - from,
{
    if from < 0 || from >= frames.len() {
        None
    } else if frames[from].image.width() != frames[0].image.width()
        || frames[from].image.height() != frames[0].image.height() {
        Some(from)
    } else {
        first_odd(frames, from + 1)
    }
}

/// The frames with delays of at least one millisecond.
pub open spec fn timed_values(frames: Seq<Frame>) -> Seq<(u32, u32, u32, Seq<u8>)> {
    frames.map_values(
        |f: Frame|
            (
                if f.delay_ms < 1 {
                    1u32
                } else {
                    f.delay_ms
                },
                f.image.width(),
                f.image.height(),
                f.image@,
            ),
    )
}

/// What encoding frames gives.
pub open spec fn is_gif_of(r: Result<Vec<u8>, AnimError>, frames: Seq<Frame>) -> bool {
    if frames.len() == 0 {
        r matches Err(AnimError::Empty)
    } else {
        match first_odd(frames, 0) {
            Some(i) => r == Err::<Vec<u8>, AnimError>(
                AnimError::Ragged(
                    frames[i].image.width(),
                    frames[i].image.height(),
                    frames[0].image.width(),
                    frames[0].image.height(),
                ),
            ),
            None => match gif_file(timed_values(frames), SPEED) {
                Some(file) => r matches Ok(bytes) && bytes@ == file && has_room(
                    timed_values(frames),
                ),
                None => r matches Err(AnimError::Encode) && !has_room(timed_values(frames)),
            },
        }
    }
}

/// Frames of which none is odd all have the size of the first one.
proof fn lemma_one_size(frames: Seq<Frame>, from: int, i: int)
    requires
        0 <= from <= i < frames.len(),
        first_odd(frames, from) is None,
    ensures
        frames[i].image.width() == frames[0].image.width(),
        frames[i].image.height() == frames[0].image.height(),
    decreases i - from,
{
    if from < i {
        lemma_one_size(frames, from + 1, i);
    }
}

/// Encodes frames as an animated GIF that loops forever.
pub fn write_gif_to(frames: &Vec<Frame>) -> (r: Result<Vec<u8>, AnimError>)
    requires
        forall|i: int| 0 <= i < frames@.len() ==> (#[trigger] frames@[i]).image.wf(),
    ensures
        is_gif_of(r, frames@),
        match r {
            Ok(file) => frames@[0].image.width() > 0 && frames@[0].image.height() > 0
                ==> reads_back(file@, timed_values(frames@)),
            Err(_) => true,
        },
{
    if frames.len() == 0 {
        return Err(AnimError::Empty);
    }
    let (w, h) = frames[0].image.dimensions();
    let mut timed: Vec<Frame> = Vec::new();
    let mut i: usize = 0;
    while i < frames.len()
        invariant
            frames@.len() > 0,
            forall|j: int| 0 <= j < frames@.len() ==> (#[trigger] frames@[j]).image.wf(),
            w == frames@[0].image.width(),
            h == frames@[0].image.height(),
            i <= frames@.len(),
            first_odd(frames@, 0) == first_odd(frames@, i as int),
            timed@.len() == i,
            forall|j: int| 0 <= j < i ==> (#[trigger] timed@[j]).image.wf(),
            frame_values(timed@) =~= timed_values(frames@).take(i as int),
        decreases frames@.len() - i,
    {
        let (a, b) = frames[i].image.dimensions();
        if a != w || b != h {
            return Err(AnimError::Ragged(a, b, w, h));
        }
        let delay_ms = if frames[i].delay_ms < 1 {
            1
        } else {
            frames[i].delay_ms
        };
        timed.push(Frame { image: frames[i].image.duplicate(), delay_ms });
        i = i + 1;
    }
    assert(timed_values(frames@).take(frames@.len() as int) =~= timed_values(frames@));
    proof {
        let all = timed_values(frames@);
        assert forall|i: int| 0 <= i < all.len() implies (#[trigger] all[i]).1 == all[0].1
            && all[i].2 == all[0].2 by {
            lemma_one_size(frames@, 0, i);
        }
    }
    match encode_gif(&timed, SPEED) {
        Some(file) => Ok(file),
        None => Err(AnimError::Encode),
    }
}

/// Does this output path want a GIF?
pub fn wants_gif(path: &str) -> (r: bool)
    ensures
        r == paths::has_extension(path@, "gif"@),
{
    paths::is_extension(&paths::extension(path), "gif")
}

/// Whether an output path names a format that keeps an alpha channel, or none.
pub open spec fn spec_keeps_alpha(path: Seq<char>) -> bool {
    ||| paths::spec_extension(path) is None
    ||| paths::has_extension(path, "png"@)
    ||| paths::has_extension(path, "gif"@)
    ||| paths::has_extension(path, "webp"@)
}

/// Does the format of this output path keep an alpha channel? Stills for formats
/// that lack one are written without it.
pub fn keeps_alpha(path: &str) -> (r: bool)
    ensures
        r == spec_keeps_alpha(path@),
{
    let ext = paths::extension(path);
    ext.is_none() || paths::is_extension(&ext, "png") || paths::is_extension(&ext, "gif")
        || paths::is_extension(&ext, "webp")
}

/// The largest even number that is not above `n`, but at least 1 where `n` is.
pub open spec fn evened(n: u32) -> u32 {
    if n == 1 {
        1
    } else {
        (n - n % 2) as u32
    }
}

/// Drops the last row or column of an image when odd: h.264 with yuv420p needs
/// even dimensions, and cropping beats padding with a stripe of background.
pub fn to_even(image: &RgbaImage) -> (r: RgbaImage)
    requires
        image.wf(),
        (image.width() > 0 && image.height() > 0) || (image.width() % 2 == 0 && image.height() % 2
            == 0),
    ensures
        r.wf(),
        r.width() == evened(image.width()),
        r.height() == evened(image.height()),
        forall|x: int, y: int|
            0 <= x < r.width() && 0 <= y < r.height() ==> #[trigger] r.pixel(x, y) == image.pixel(
                x,
                y,
            ),
{
    let (w, h) = image.dimensions();
    if w % 2 == 0 && h % 2 == 0 {
        let r = image.duplicate();
        assert forall|x: int, y: int| 0 <= x < r.width() && 0 <= y < r.height() implies #[trigger] r.pixel(
            x,
            y,
        ) == image.pixel(x, y) by {}
        return r;
    }
    let even_w = if w == 1 {
        1
    } else {
        w - w % 2
    };
    let even_h = if h == 1 {
        1
    } else {
        h - h % 2
    };
    crop_to(image, Bounds { x0: 0, y0: 0, x1: even_w, y1: even_h })
}

/// The delay that a frame comes back with: one too short for the format to store counts
/// as none.
pub open spec fn returned_delay(delay_ms: u32) -> u32 {
    if delay_ms < 10 {
        input::DEFAULT_DELAY_MS
    } else {
        stored_delay(delay_ms)
    }
}

/// An animation that was written decodes back: to as many frames, all of the same
/// size, each shown for as many hundredths of a second as before, as far as the format
/// stores them; and frames that are opaque and have at most 256 colors come back pixel
/// by pixel.
pub proof fn law_written_animations_decode_back(
    file: Seq<u8>,
    frames: Seq<Frame>,
    decoded: Result<Vec<Frame>, input::InputError>,
    drawing: input::Drawing,
    target_px: u32,
)
    requires
        reads_back(file, timed_values(frames)),
        input::is_frames(decoded, file, drawing, target_px),
    ensures
        decoded matches Ok(back) && back@.len() == frames.len() && forall|i: int|
            0 <= i < frames.len() ==> {
                &&& (#[trigger] back@[i]).image.width() == frames[i].image.width()
                &&& back@[i].image.height() == frames[i].image.height()
                &&& back@[i].delay_ms == returned_delay(frames[i].delay_ms)
                &&& fits_palette(frames[i].image@) ==> back@[i].image@ == frames[i].image@
            },
{
    let back = decoded->Ok_0;
    let raw = input::gif_frames(file)->Ok_0;
    assert forall|i: int| 0 <= i < frames.len() implies {
        &&& (#[trigger] back@[i]).image.width() == frames[i].image.width()
        &&& back@[i].image.height() == frames[i].image.height()
        &&& back@[i].delay_ms == returned_delay(frames[i].delay_ms)
        &&& fits_palette(frames[i].image@) ==> back@[i].image@ == frames[i].image@
    } by {
        assert(input::is_frame(&back@[i], raw[i]));
        assert(raw[i].0 == stored_delay(timed_values(frames)[i].0));
    }
}

} // verus!
