//! Video to ASCII video, with an external program doing the codec work.
//!
//! Raw RGBA frames come and go over pipes, so the engine itself is untouched.
//! This module holds what is decided on the way: what a probe of the input says,
//! when a frame is complete, how a frame is rendered, and how the encoder is
//! called.

use crate::anim;
use crate::anim::to_even;
use crate::engine;
use crate::engine::geometry;
use crate::engine::{convert, AsciiGrid, ConvertError, Options};
use crate::float::{Double, Single};
use crate::font::FontStack;
use crate::paint;
use crate::paint::{content_bounds, crop_to, paint_canvas, Bounds, PaintError, PaintOptions};
use crate::paths;
use crate::pixels;
use crate::pixels::RgbaImage;
use crate::text;
use vstd::prelude::*;

pub mod exact;
pub mod laws;
pub mod reading;
pub mod sizes;

verus! {

/// What a probe says about the input.
#[derive(Debug, Clone, Copy, PartialEq, Eq, Structural)]
pub struct Spec {
    pub width: u32,
    pub height: u32,
    pub fps: Double,
}

/// Knobs that only apply to video.
#[derive(Debug, Clone, Copy)]
pub struct VideoOptions {
    /// Output frame rate; `None` keeps the source's.
    pub fps: Option<Double>,
    /// Inset the source video in the corner at this fraction of the output width
    /// (0 disables).
    pub overlay: Single,
    /// Encoder quality (lower is better); ignored for GIF output.
    pub crf: u8,
}

impl Default for VideoOptions {
    fn default() -> (r: Self)
        ensures
            r.fps is None,
            r.overlay.bits == 0,
            r.crf == 20,
    {
        VideoOptions { fps: None, overlay: Single { bits: 0 }, crf: 20 }
    }
}

/// What a conversion produced.
#[derive(Debug, Clone, Copy, PartialEq, Eq, Structural)]
pub struct Stats {
    pub frames: u64,
    pub width: u32,
    pub height: u32,
}

/// Why a video was not converted.
#[derive(Debug, Clone, Copy, PartialEq, Eq, Structural)]
pub enum VideoError {
    /// The probe printed nothing.
    NoOutput,
    BadWidth,
    BadHeight,
    BadFps,
    ZeroDenominator,
    /// The stream has no pixels.
    NoPixels(u32, u32),
    /// The stream reports a rate that is not a positive number.
    BadRate(Double),
    /// The rate that was asked for is not a positive number.
    BadRequest,
    /// The overlay is not between 0 and 1.
    BadOverlay,
    Convert(ConvertError),
    Paint(PaintError),
    /// The inset, or what it is made from, is too large to be resized.
    OverlayTooLarge,
}

/// The encodings of one and of a half.
pub const ONE: u32 = 0x3f80_0000;

pub const HALF: u32 = 0x3f00_0000;

// The shortest decimal notation of a 64-bit floating-point number.
pub uninterp spec fn double_text(bits: u64) -> Seq<char>;

// The encoding of the 64-bit floating-point number that a text stands for, some encoding
// where it stands for "not a number".
pub uninterp spec fn double_value(text: Seq<char>) -> Option<u64>;

// The bytes of an image, given by its bytes and its size, after it was resized
// with a triangle filter.
pub uninterp spec fn resized(data: Seq<u8>, width: u32, height: u32, to_width: u32, to_height: u32) -> Seq<
    u8,
>;

/// The text that `Display` of a 64-bit floating-point number writes.
///
/// Trusted: the text is a function of the encoding. `bytemuck::cast` turns the
/// encoding into the number; the call of `serde_json::Number::from_f64` has no
/// other use than to fix the type of the number.
#[verifier::external_body]
fn display_double(bits: u64) -> (r: String)
    ensures
        r@ == double_text(bits),
{
    let v = bytemuck::cast(bits);
    let _ = serde_json::Number::from_f64(v);
    format!("{v}")
}

/// `str::parse` for a 64-bit floating-point number.
///
/// Trusted: the number, if there is one, is a function of the text; but which of the
/// encodings of "not a number" comes out is left open. The call of
/// `serde_json::Number::from_f64` has no other use than to fix the type of the number.
#[verifier::external_body]
fn parse_double(s: &str) -> (r: Option<u64>)
    ensures
        match (r, double_value(s@)) {
            (Some(a), Some(b)) => a == b || ((Double { bits: a }).is_nan() && (Double {
                bits: b,
            }).is_nan()),
            (None, None) => true,
            _ => false,
        },
{
    let v = s.parse().ok()?;
    let _ = serde_json::Number::from_f64(v);
    Some(v.to_bits())
}

/// `image::imageops::resize` with a triangle filter.
///
/// Trusted: the bytes of the result are a function of the bytes and sizes, and
/// there are four for every pixel. Where [`resizable`] holds, no pixel is a mean of
/// nothing, and the call returns.
#[verifier::external_body]
fn resize(image: &RgbaImage, width: u32, height: u32) -> (r: Vec<u8>)
    requires
        image.wf(),
        resizable(image.width(), image.height(), width, height),
        4 * (width * height) <= isize::MAX,
    ensures
        r@ == resized(image@, image.width(), image.height(), width, height),
        r@.len() == 4 * (width * height),
{
    let (w, h) = image.dimensions();
    let source = image::RgbaImage::from_raw(w, h, image.as_raw().clone()).unwrap_or_default();
    image::imageops::resize(&source, width, height, image::imageops::FilterType::Triangle).into_raw()
}

impl VideoError {
    /// What the error says to a user.
    pub open spec fn spec_message(self) -> Seq<char> {
        match self {
            VideoError::NoOutput => "ffprobe returned nothing"@,
            VideoError::BadWidth => "bad width"@,
            VideoError::BadHeight => "bad height"@,
            VideoError::BadFps => "bad fps"@,
            VideoError::ZeroDenominator => "frame rate has a zero denominator"@,
            VideoError::NoPixels(w, h) => "video stream is "@ + text::decimal(w as nat) + "x"@
                + text::decimal(h as nat),
            VideoError::BadRate(fps) => "video stream reports "@ + double_text(fps.bits) + " fps"@,
            VideoError::BadRequest => "--fps must be a positive number"@,
            VideoError::BadOverlay => "--overlay must be between 0 (off) and 1"@,
            VideoError::Convert(e) => e.spec_message(),
            VideoError::Paint(e) => e.spec_message(),
            VideoError::OverlayTooLarge => "the overlay is too large"@,
        }
    }

    /// What the error says to a user.
    pub fn message(&self) -> (r: String)
        ensures
            r@ == self.spec_message(),
    {
        match self {
            VideoError::NoOutput => "ffprobe returned nothing".to_owned(),
            VideoError::BadWidth => "bad width".to_owned(),
            VideoError::BadHeight => "bad height".to_owned(),
            VideoError::BadFps => "bad fps".to_owned(),
            VideoError::ZeroDenominator => "frame rate has a zero denominator".to_owned(),
            VideoError::NoPixels(w, h) => {
                let mut out = "video stream is ".to_owned();
                text::push_decimal(&mut out, *w as u64);
                out.append("x");
                text::push_decimal(&mut out, *h as u64);
                out
            },
            VideoError::BadRate(fps) => {
                let mut out = "video stream reports ".to_owned();
                out.append(display_double(fps.bits).as_str());
                out.append(" fps");
                out
            },
            VideoError::BadRequest => "--fps must be a positive number".to_owned(),
            VideoError::BadOverlay => "--overlay must be between 0 (off) and 1".to_owned(),
            VideoError::Convert(e) => e.message(),
            VideoError::Paint(e) => e.message(),
            VideoError::OverlayTooLarge => "the overlay is too large".to_owned(),
        }
    }
}

/// The first line from index `from` on that is not blank, without the white space
/// around it.
pub open spec fn first_line(s: Seq<char>, from: int) -> Option<Seq<char>>
    decreases s.len() - from,
{
    if from < 0 || from >= s.len() {
        None
    } else {
        let end = text::index_from(s, '\n', from);
        let line = text::trimmed(s.subrange(from, end));
        if line.len() > 0 {
            Some(line)
        } else if from <= end < s.len() {
            first_line(s, end + 1)
        } else {
            None
        }
    }
}

/// What stands before the first `c`.
pub open spec fn before(s: Seq<char>, c: char) -> Seq<char> {
    s.take(text::index_from(s, c, 0))
}

/// What stands behind the first `c`, nothing where there is none.
pub open spec fn behind(s: Seq<char>, c: char) -> Seq<char> {
    let i = text::index_from(s, c, 0);
    if i < s.len() {
        s.skip(i + 1)
    } else {
        Seq::empty()
    }
}

/// Whether a rate is a positive number.
pub open spec fn rate_ok(fps: Double) -> bool {
    fps.is_finite() && (Double { bits: 0 }).less(fps)
}

/// Whether a number is zero.
pub open spec fn is_zero(v: Double) -> bool {
    v.at_most((Double { bits: 0 })) && (Double { bits: 0 }).at_most(v)
}

/// The encoding of "not a number" that is used here.
pub const NAN: u64 = 0x7ff8_0000_0000_0000;

/// The number that a text stands for.
pub open spec fn number_of(s: Seq<char>) -> Option<Double> {
    match double_value(s) {
        Some(bits) => Some(
            if (Double { bits }).is_nan() {
                Double { bits: NAN }
            } else {
                Double { bits }
            },
        ),
        None => None,
    }
}

/// The rate that a text stands for: a number, or a ratio of two.
pub open spec fn parsed_rate(s: Seq<char>) -> Result<Double, VideoError> {
    if text::index_from(s, '/', 0) < s.len() {
        match (number_of(before(s, '/')), number_of(behind(s, '/'))) {
            (Some(n), Some(d)) => if is_zero(d) {
                Err(VideoError::ZeroDenominator)
            } else {
                Ok(n.over(d))
            },
            _ => Err(VideoError::BadFps),
        }
    } else {
        match number_of(s) {
            Some(v) => Ok(v),
            None => Err(VideoError::BadFps),
        }
    }
}

/// What `width,height,rate` stands for.
pub open spec fn parsed_probe(s: Seq<char>) -> Result<Spec, VideoError> {
    match first_line(s, 0) {
        None => Err(VideoError::NoOutput),
        Some(line) => {
            let second = behind(line, ',');
            let width = text::spec_parse_u32(text::trimmed(before(line, ',')));
            let height = text::spec_parse_u32(text::trimmed(before(second, ',')));
            let rate = parsed_rate(text::trimmed(before(behind(second, ','), ',')));
            match (width, height, rate) {
                (None, _, _) => Err(VideoError::BadWidth),
                (_, None, _) => Err(VideoError::BadHeight),
                (_, _, Err(e)) => Err(e),
                (Some(width), Some(height), Ok(fps)) => if width == 0 || height == 0 {
                    Err(VideoError::NoPixels(width, height))
                } else if !rate_ok(fps) {
                    Err(VideoError::BadRate(fps))
                } else {
                    Ok(Spec { width, height, fps })
                },
            }
        },
    }
}

/// Whether a rate is a positive number.
fn check_rate(fps: Double) -> (r: bool)
    ensures
        r == rate_ok(fps),
{
    let zero = Double { bits: 0 };
    fps.is_finite() && zero.less(fps)
}

/// Splits at the first `c`: what stands before it, and what stands behind it.
fn split_at_first(s: &Vec<char>, c: char) -> (r: (Vec<char>, Vec<char>))
    ensures
        r.0@ == before(s@, c),
        r.1@ == behind(s@, c),
{
    let i = text::find(s, c, 0);
    let head = text::part_of(s, 0, i);
    assert(head@ =~= before(s@, c));
    if i < s.len() {
        (head, text::tail_of(s, i + 1))
    } else {
        let none: Vec<char> = Vec::new();
        (head, none)
    }
}

/// A copy without the white space around it.
fn trim_all(s: &Vec<char>) -> (r: Vec<char>)
    ensures
        r@ == text::trimmed(s@),
{
    let (a, b) = text::trim(s, 0, s.len());
    assert(s@.subrange(0, s@.len() as int) =~= s@);
    text::part_of(s, a, b)
}

/// The number that characters stand for.
fn parse_chars(s: &Vec<char>) -> (r: Option<Double>)
    ensures
        r == number_of(s@),
{
    let all = text::string_of(s, 0, s.len());
    assert(all@ =~= s@);
    match parse_double(all.as_str()) {
        Some(bits) => {
            let v = Double { bits };
            if v.is_nan() {
                Some(Double { bits: NAN })
            } else {
                Some(v)
            }
        },
        None => None,
    }
}

/// The rate that characters stand for.
fn parse_rate(s: &Vec<char>) -> (r: Result<Double, VideoError>)
    ensures
        r == parsed_rate(s@),
{
    if text::find(s, '/', 0) < s.len() {
        let (n, d) = split_at_first(s, '/');
        match (parse_chars(&n), parse_chars(&d)) {
            (Some(n), Some(d)) => {
                let zero = Double { bits: 0 };
                if d.at_most(zero) && zero.at_most(d) {
                    Err(VideoError::ZeroDenominator)
                } else {
                    Ok(n.over(d))
                }
            },
            _ => Err(VideoError::BadFps),
        }
    } else {
        match parse_chars(s) {
            Some(v) => Ok(v),
            None => Err(VideoError::BadFps),
        }
    }
}

/// The first line that is not blank.
fn find_line(chars: &Vec<char>) -> (r: Option<Vec<char>>)
    ensures
        match (r, first_line(chars@, 0)) {
            (Some(v), Some(s)) => v@ == s,
            (None, None) => true,
            _ => false,
        },
{
    let mut from: usize = 0;
    while from < chars.len()
        invariant
            from <= chars@.len() + 1,
            first_line(chars@, 0) == first_line(chars@, from as int),
        decreases chars@.len() + 1 - from,
    {
        let end = text::find(chars, '\n', from);
        let (a, b) = text::trim(chars, from, end);
        if a < b {
            assert(chars@.subrange(a as int, b as int).len() > 0);
            return Some(text::part_of(chars, a, b));
        }
        assert(chars@.subrange(a as int, b as int).len() == 0);
        if end == chars.len() {
            assert(first_line(chars@, end + 1) is None);
            return None;
        }
        from = end + 1;
    }
    None
}

/// Parses `width,height,num/den` as the probe prints it.
pub fn parse_probe(output: &str) -> (r: Result<Spec, VideoError>)
    ensures
        r == parsed_probe(output@),
{
    let chars = text::chars_of(output);
    let line = match find_line(&chars) {
        Some(line) => line,
        None => {
            return Err(VideoError::NoOutput);
        },
    };
    let (first, rest) = split_at_first(&line, ',');
    let width = match text::parse_u32(&trim_all(&first)) {
        Some(width) => width,
        None => {
            return Err(VideoError::BadWidth);
        },
    };
    let (second, rest) = split_at_first(&rest, ',');
    let height = match text::parse_u32(&trim_all(&second)) {
        Some(height) => height,
        None => {
            return Err(VideoError::BadHeight);
        },
    };
    let (third, _) = split_at_first(&rest, ',');
    let fps = match parse_rate(&trim_all(&third)) {
        Ok(fps) => fps,
        Err(e) => {
            return Err(e);
        },
    };
    if width == 0 || height == 0 {
        return Err(VideoError::NoPixels(width, height));
    }
    if !check_rate(fps) {
        return Err(VideoError::BadRate(fps));
    }
    Ok(Spec { width, height, fps })
}

/// The rate of the output: the one asked for, or else that of the source.
pub open spec fn spec_output_fps(opts: &VideoOptions, spec: &Spec) -> Result<Double, VideoError> {
    let fps = match opts.fps {
        Some(fps) => fps,
        None => spec.fps,
    };
    let off = Single { bits: 0 };
    if !rate_ok(fps) {
        Err(VideoError::BadRequest)
    } else if !(off.at_most(opts.overlay) && opts.overlay.less((Single { bits: paint::ONE }))) {
        Err(VideoError::BadOverlay)
    } else {
        Ok(fps)
    }
}

/// The rate of the output, where the options are acceptable.
pub fn output_fps(opts: &VideoOptions, spec: &Spec) -> (r: Result<Double, VideoError>)
    ensures
        r == spec_output_fps(opts, spec),
{
    let fps = match opts.fps {
        Some(fps) => fps,
        None => spec.fps,
    };
    if !check_rate(fps) {
        return Err(VideoError::BadRequest);
    }
    let off = Single { bits: 0 };
    if !(off.at_most(opts.overlay) && opts.overlay.less(Single { bits: paint::ONE })) {
        return Err(VideoError::BadOverlay);
    }
    Ok(fps)
}

/// What came of one attempt to read from the decoder.
#[derive(Debug, Clone, Copy, PartialEq, Eq, Structural)]
pub enum ReadEvent {
    /// So many bytes arrived; none at the end of the stream.
    Bytes(usize),
    /// The attempt was interrupted.
    Interrupted,
    /// The attempt failed.
    Failed,
}

/// What to do next to fill a frame.
#[derive(Debug, Clone, Copy, PartialEq, Eq, Structural)]
pub enum ReadStep {
    /// Read on, behind so many bytes.
    More(usize),
    /// The frame is complete.
    Complete,
    /// The stream ended.
    Ended,
    /// Reading failed.
    Failed,
}

/// What to do next to fill a frame of `len` bytes of which `filled` are there, after an attempt
/// to read.
pub open spec fn spec_read_frame(filled: usize, len: usize, event: ReadEvent) -> ReadStep {
    match event {
        ReadEvent::Bytes(n) => if n == 0 {
            ReadStep::Ended
        } else if filled + n == len {
            ReadStep::Complete
        } else {
            ReadStep::More((filled + n) as usize)
        },
        ReadEvent::Interrupted => ReadStep::More(filled),
        ReadEvent::Failed => ReadStep::Failed,
    }
}

/// Fills a buffer of `len` bytes with exactly one frame, of which `filled` bytes
/// are there: what to do after an attempt to read.
///
/// A partial frame means the decoder died mid-write; the stream counts as
/// finished then, rather than encoding a torn frame.
pub fn read_frame(filled: usize, len: usize, event: ReadEvent) -> (r: ReadStep)
    requires
        filled < len,
        event matches ReadEvent::Bytes(n) ==> filled + n <= len,
    ensures
        r == (match event {
            ReadEvent::Bytes(n) => if n == 0 {
                ReadStep::Ended
            } else if filled + n == len {
                ReadStep::Complete
            } else {
                ReadStep::More((filled + n) as usize)
            },
            ReadEvent::Interrupted => ReadStep::More(filled),
            ReadEvent::Failed => ReadStep::Failed,
        }),
        r matches ReadStep::More(n) ==> filled <= n < len,
        r == spec_read_frame(filled, len, event),
{
    match event {
        ReadEvent::Bytes(n) => {
            if n == 0 {
                ReadStep::Ended
            } else if filled + n == len {
                ReadStep::Complete
            } else {
                ReadStep::More(filled + n)
            }
        },
        ReadEvent::Interrupted => ReadStep::More(filled),
        ReadEvent::Failed => ReadStep::Failed,
    }
}

/// How many pixels of a side make up one of the side that it is resized to.
pub open spec fn side_ratio(from: u32, to: u32) -> Single {
    Single::from_u64(from as u64).over(Single::from_u64(to as u64))
}

/// How far from its center a pixel of a resized side reaches.
pub open spec fn side_spread(from: u32, to: u32) -> Single {
    if side_ratio(from, to).less((Single { bits: ONE })) {
        Single { bits: ONE }
    } else {
        side_ratio(from, to)
    }
}

/// The center of pixel `at` of a resized side.
pub open spec fn side_center(from: u32, to: u32, at: u32) -> Single {
    Single::from_u64(at as u64).plus((Single { bits: HALF })).times(side_ratio(from, to))
}

/// The first pixel that pixel `at` of a resized side is a mean of.
pub open spec fn side_first(from: u32, to: u32, at: u32) -> int {
    let n = side_center(from, to, at).minus(side_spread(from, to)).floor().to_i64();
    if n < 0 {
        0
    } else if n > from - 1 {
        from - 1
    } else {
        n as int
    }
}

/// The pixel after the last one that pixel `at` of a resized side is a mean of.
pub open spec fn side_after(from: u32, to: u32, at: u32) -> int {
    let n = side_center(from, to, at).plus(side_spread(from, to)).ceil().to_i64();
    if n < side_first(from, to, at) + 1 {
        side_first(from, to, at) + 1
    } else if n > from {
        from as int
    } else {
        n as int
    }
}

/// Whether pixel `i` has a weight in pixel `at` of a resized side: whether it is nearer to
/// the center than the spread.
pub open spec fn has_weight(from: u32, to: u32, at: u32, i: int) -> bool {
    let d = Single::from_u64(i as u64).minus(
        side_center(from, to, at).minus((Single { bits: HALF })),
    ).over(side_spread(from, to));
    (Single { bits: ONE }).negated().less(d) && d.less((Single { bits: ONE }))
}

/// Whether some pixel has a weight in pixel `at` of a resized side.
pub open spec fn is_covered(from: u32, to: u32, at: u32) -> bool {
    exists|i: int|
        side_first(from, to, at) <= i < side_after(from, to, at) && #[trigger] has_weight(
            from,
            to,
            at,
            i,
        )
}

/// Whether every pixel of a resized side is a mean of something. On sides of millions of
/// pixels, where 32-bit numbers are too coarse for a center, some may not be.
pub open spec fn side_covered(from: u32, to: u32) -> bool {
    forall|at: u32| at < to ==> #[trigger] is_covered(from, to, at)
}

/// Whether an image can be resized: there is nothing to do, or every pixel is a mean of
/// something and what lies between the two sizes can be held in memory.
pub open spec fn resizable(from_w: u32, from_h: u32, to_w: u32, to_h: u32) -> bool {
    ||| from_w == 0 || from_h == 0
    ||| from_w == to_w && from_h == to_h
    ||| 16 * (from_w * to_h) <= isize::MAX && side_covered(from_h, to_h) && side_covered(
        from_w,
        to_w,
    )
}

/// Whether every pixel of a resized side is a mean of something.
fn is_side_covered(from: u32, to: u32) -> (r: bool)
    requires
        from > 0,
    ensures
        r == side_covered(from, to),
{
    let (one, half) = (Single { bits: ONE }, Single { bits: HALF });
    let ratio = Single::from_u64(from as u64).over(Single::from_u64(to as u64));
    let spread = if ratio.less(one) {
        one
    } else {
        ratio
    };
    let low = one.negated();
    let mut at: u32 = 0;
    while at < to
        invariant
            at <= to,
            from > 0,
            one.bits == ONE,
            half.bits == HALF,
            ratio == side_ratio(from, to),
            spread == side_spread(from, to),
            low == one.negated(),
            forall|j: u32| j < at ==> #[trigger] is_covered(from, to, j),
        decreases to - at,
    {
        let center = Single::from_u64(at as u64).plus(half).times(ratio);
        let n = center.minus(spread).floor().to_i64();
        let first: i64 = if n < 0 {
            0
        } else if n > from as i64 - 1 {
            from as i64 - 1
        } else {
            n
        };
        let n = center.plus(spread).ceil().to_i64();
        let after: i64 = if n < first + 1 {
            first + 1
        } else if n > from as i64 {
            from as i64
        } else {
            n
        };
        let middle = center.minus(half);
        let mut found = false;
        let mut i = first;
        while i < after && !found
            invariant
                0 <= first <= i <= after,
                after <= from,
                one.bits == ONE,
                half.bits == HALF,
                low == one.negated(),
                spread == side_spread(from, to),
                middle == side_center(from, to, at).minus(half),
                first == side_first(from, to, at),
                after == side_after(from, to, at),
                found ==> is_covered(from, to, at),
                !found ==> forall|j: int| first <= j < i ==> !#[trigger] has_weight(from, to, at, j),
            decreases
                after - i + if found {
                    0int
                } else {
                    1int
                },
        {
            let d = Single::from_u64(i as u64).minus(middle).over(spread);
            if low.less(d) && d.less(one) {
                assert(has_weight(from, to, at, i as int));
                found = true;
            } else {
                i = i + 1;
            }
        }
        if !found {
            assert(!is_covered(from, to, at));
            return false;
        }
        at = at + 1;
    }
    true
}

/// Whether an image can be resized.
pub fn is_resizable(from_w: u32, from_h: u32, to_w: u32, to_h: u32) -> (r: bool)
    ensures
        r == resizable(from_w, from_h, to_w, to_h),
{
    if from_w == 0 || from_h == 0 || (from_w == to_w && from_h == to_h) {
        return true;
    }
    proof {
        pixels::lemma_size(from_w, to_h);
    }
    16 * (from_w as u128 * to_h as u128) <= isize::MAX as u128 && is_side_covered(from_h, to_h)
        && is_side_covered(from_w, to_w)
}

/// How wide the inset is on a canvas of the given width.
pub open spec fn inset_width(canvas: u32, ratio: Single) -> u32 {
    let w = Single::from_u64(canvas as u64).times(ratio).to_u32();
    if w < 1 {
        1
    } else {
        w
    }
}

/// How tall an inset is that keeps the proportions of its source.
pub open spec fn inset_height(w: u32, source_w: u32, source_h: u32) -> u32 {
    let h = Single::from_u64(w as u64).times(Single::from_u64(source_h as u64)).over(
        Single::from_u64(source_w as u64),
    ).to_u32();
    if h < 1 {
        1
    } else {
        h
    }
}

/// The size of an inset on a canvas of the given width.
fn inset_size(canvas: u32, source_w: u32, source_h: u32, ratio: Single) -> (r: (u32, u32))
    ensures
        r.0 == inset_width(canvas, ratio),
        r.1 == inset_height(r.0, source_w, source_h),
{
    let w = Single::from_u64(canvas as u64).times(ratio).to_u32();
    let w = if w < 1 {
        1
    } else {
        w
    };
    let h = Single::from_u64(w as u64).times(Single::from_u64(source_h as u64)).over(
        Single::from_u64(source_w as u64),
    ).to_u32();
    if h < 1 {
        (w, 1)
    } else {
        (w, h)
    }
}

/// Whether an inset fits onto a canvas of the given size, but cannot be made from its
/// source.
pub open spec fn inset_fails(
    width: u32,
    height: u32,
    source_w: u32,
    source_h: u32,
    ratio: Single,
) -> bool {
    let w = inset_width(width, ratio);
    let h = inset_height(w, source_w, source_h);
    w <= width && h <= height && !resizable(source_w, source_h, w, h)
}

/// Whether an inset fits onto a canvas.
pub open spec fn inset_fits(canvas: &RgbaImage, source: &RgbaImage, ratio: Single) -> bool {
    let w = inset_width(canvas.width(), ratio);
    w <= canvas.width() && inset_height(w, source.width(), source.height()) <= canvas.height()
}

/// Pixel (`x`, `y`) of a buffer of the given width.
pub open spec fn buffer_pixel(data: Seq<u8>, width: u32, x: int, y: int) -> [u8; 4] {
    let at = 4 * pixels::pixel_index(width, x, y);
    [data[at], data[at + 1], data[at + 2], data[at + 3]]
}

/// Whether an image is a canvas with its source pasted into the bottom-right
/// corner, or left out where it does not fit.
pub open spec fn is_overlaid(
    r: &RgbaImage,
    canvas: &RgbaImage,
    source: &RgbaImage,
    ratio: Single,
) -> bool {
    let w = inset_width(canvas.width(), ratio);
    let h = inset_height(w, source.width(), source.height());
    let thumb = resized(source@, source.width(), source.height(), w, h);
    let (left, top) = (canvas.width() - w, canvas.height() - h);
    &&& r.wf()
    &&& r.width() == canvas.width()
    &&& r.height() == canvas.height()
    &&& forall|x: int, y: int|
        0 <= x < r.width() && 0 <= y < r.height() ==> #[trigger] r.pixel(x, y) == if inset_fits(
            canvas,
            source,
            ratio,
        ) && left <= x && top <= y {
            buffer_pixel(thumb, w, x - left, y - top)
        } else {
            canvas.pixel(x, y)
        }
}

/// Pastes the source frame into the bottom-right corner.
pub fn overlay_source(canvas: &mut RgbaImage, source: &RgbaImage, ratio: Single)
    requires
        old(canvas).wf(),
        source.wf(),
        !inset_fails(
            old(canvas).width(),
            old(canvas).height(),
            source.width(),
            source.height(),
            ratio,
        ),
        4 * (old(canvas).width() * old(canvas).height()) <= isize::MAX,
    ensures
        is_overlaid(final(canvas), old(canvas), source, ratio),
{
    let ghost start = *canvas;
    let (cw, ch) = canvas.dimensions();
    let (sw, sh) = source.dimensions();
    let (w, h) = inset_size(cw, sw, sh, ratio);
    if w > cw || h > ch {
        return;
    }
    proof {
        assert(w * h <= cw * ch) by (nonlinear_arith)
            requires
                0 <= w <= cw,
                0 <= h <= ch,
        ;
    }
    proof {
        canvas.lemma_bytes();
    }
    let thumb = resize(source, w, h);
    let (left, top) = (cw - w, ch - h);
    let ghost area = thumb@;
    let mut y: u32 = 0;
    while y < h
        invariant
            w <= cw,
            h <= ch,
            left == cw - w,
            top == ch - h,
            thumb@ == area,
            area.len() == 4 * (w * h),
            canvas.wf(),
            canvas.width() == cw,
            canvas.height() == ch,
            y <= h,
            forall|px: int, py: int|
                0 <= px < cw && 0 <= py < ch ==> #[trigger] canvas.pixel(px, py) == if left <= px
                    && top <= py && py < top + y {
                    buffer_pixel(area, w, px - left, py - top)
                } else {
                    start.pixel(px, py)
                },
        decreases h - y,
    {
        let mut x: u32 = 0;
        while x < w
            invariant
                w <= cw,
                h <= ch,
                left == cw - w,
                top == ch - h,
                thumb@ == area,
                area.len() == 4 * (w * h),
                canvas.wf(),
                canvas.width() == cw,
                canvas.height() == ch,
                y < h,
                x <= w,
                forall|px: int, py: int|
                    0 <= px < cw && 0 <= py < ch ==> #[trigger] canvas.pixel(px, py) == if left
                        <= px && top <= py && (py < top + y || (py == top + y && px < left + x)) {
                        buffer_pixel(area, w, px - left, py - top)
                    } else {
                        start.pixel(px, py)
                    },
            decreases w - x,
        {
            proof {
                pixels::lemma_index(w, h, x as int, y as int);
                assert(thumb@.len() == thumb.len());
            }
            let at = (4 * (y as u128 * w as u128 + x as u128)) as usize;
            let p = [thumb[at], thumb[at + 1], thumb[at + 2], thumb[at + 3]];
            assert(p =~= buffer_pixel(area, w, x as int, y as int));
            let ghost prior = *canvas;
            canvas.put_pixel(left + x, top + y, p);
            proof {
                assert forall|px: int, py: int|
                    0 <= px < cw && 0 <= py < ch implies #[trigger] canvas.pixel(px, py) == if left
                    <= px && top <= py && (py < top + y || (py == top + y && px < left + x + 1)) {
                    buffer_pixel(area, w, px - left, py - top)
                } else {
                    start.pixel(px, py)
                } by {
                    if !(px == left + x && py == top + y) {
                        assert(canvas.pixel(px, py) == prior.pixel(px, py));
                    }
                }
            }
            x = x + 1;
        }
        y = y + 1;
    }
}

/// Whether a crop box lies inside the canvas that sources of the given size are
/// painted on.
pub open spec fn box_fits(b: Bounds, width: u32, height: u32, eopts: &Options, popts: &PaintOptions) -> bool {
    let g = geometry::Geometry::of(width, height, eopts.width, eopts.aspect);
    &&& b.x0 < b.x1 <= popts.metrics.width * g.cols
    &&& b.y0 < b.y1 <= popts.metrics.height * g.rows
}

/// The crop box after a frame: the one there was, or else what is drawn on this
/// canvas, or all of it where nothing is.
pub open spec fn is_next_box(
    next: Option<Bounds>,
    before: Option<Bounds>,
    canvas: &RgbaImage,
    popts: &PaintOptions,
) -> bool {
    if !popts.crop || before is Some {
        next == before
    } else if paint::has_content(canvas, popts.background) {
        next matches Some(b) && paint::is_content_box(b, canvas, popts.background)
    } else {
        next == Some(Bounds { x0: 0, y0: 0, x1: canvas.width(), y1: canvas.height() })
    }
}

/// Whether an image is the part of a canvas that is kept.
pub open spec fn is_kept(r: &RgbaImage, canvas: &RgbaImage, b: Option<Bounds>, popts: &PaintOptions) -> bool {
    if popts.crop {
        b matches Some(b) && paint::is_crop(r, canvas, b)
    } else {
        r.same(canvas)
    }
}

/// Whether an image is another one without the last row or column that is odd.
pub open spec fn is_even_part(r: &RgbaImage, image: &RgbaImage) -> bool {
    &&& r.wf()
    &&& r.width() == anim::evened(image.width())
    &&& r.height() == anim::evened(image.height())
    &&& forall|x: int, y: int|
        0 <= x < r.width() && 0 <= y < r.height() ==> #[trigger] r.pixel(x, y) == image.pixel(x, y)
}

/// Whether an image is a kept part of a canvas, made even and overlaid.
pub open spec fn is_finished(
    r: &RgbaImage,
    kept: &RgbaImage,
    source: &RgbaImage,
    overlay: Single,
) -> bool {
    exists|even: RgbaImage| #[trigger]
        is_even_part(&even, kept) && if (Single { bits: 0 }).less(overlay) {
            is_overlaid(r, &even, source, overlay)
        } else {
            r.same(&even)
        }
}

/// Whether an image is a frame of the output: the source converted, painted,
/// cropped, made even and overlaid.
pub open spec fn is_video_frame(
    r: &RgbaImage,
    source: &RgbaImage,
    fonts: Seq<Seq<u8>>,
    eopts: &Options,
    popts: &PaintOptions,
    overlay: Single,
    before: Option<Bounds>,
    next: Option<Bounds>,
) -> bool {
    exists|grid: AsciiGrid, canvas: RgbaImage, kept: RgbaImage|
        #![trigger engine::is_conversion(&grid, source, eopts), paint::is_canvas(
            &canvas,
            &grid,
            fonts,
            popts,
        ), is_finished(r, &kept, source, overlay)]
        {
            &&& engine::is_conversion(&grid, source, eopts)
            &&& paint::paint_error(&grid, fonts, popts) is None
            &&& paint::is_canvas(&canvas, &grid, fonts, popts)
            &&& is_next_box(next, before, &canvas, popts)
            &&& is_kept(&kept, &canvas, next, popts)
            &&& is_finished(r, &kept, source, overlay)
        }
}

/// The size of a frame: that of its crop box, or else that of its canvas, made
/// even.
pub open spec fn frame_size(
    width: u32,
    height: u32,
    eopts: &Options,
    popts: &PaintOptions,
    bounds: Option<Bounds>,
) -> (u32, u32) {
    let g = geometry::Geometry::of(width, height, eopts.width, eopts.aspect);
    let (w, h) = if popts.crop {
        let b = bounds->0;
        ((b.x1 - b.x0) as u32, (b.y1 - b.y0) as u32)
    } else {
        (
            paint::low_bits((popts.metrics.width * g.cols) as nat),
            paint::low_bits((popts.metrics.height * g.rows) as nat),
        )
    };
    (anim::evened(w), anim::evened(h))
}

/// Whether a crop box is the one after a frame was painted.
pub open spec fn is_box_after(
    next: Option<Bounds>,
    before: Option<Bounds>,
    source: &RgbaImage,
    fonts: Seq<Seq<u8>>,
    eopts: &Options,
    popts: &PaintOptions,
) -> bool {
    exists|grid: AsciiGrid, canvas: RgbaImage|
        #![trigger engine::is_conversion(&grid, source, eopts), paint::is_canvas(
            &canvas,
            &grid,
            fonts,
            popts,
        )]
        {
            &&& engine::is_conversion(&grid, source, eopts)
            &&& paint::paint_error(&grid, fonts, popts) is None
            &&& paint::is_canvas(&canvas, &grid, fonts, popts)
            &&& is_next_box(next, before, &canvas, popts)
        }
}

/// Whether a source is to be overlaid but cannot be resized for its frame.
pub open spec fn overlay_too_large(
    source: &RgbaImage,
    eopts: &Options,
    popts: &PaintOptions,
    overlay: Single,
    next: Option<Bounds>,
) -> bool {
    let (w, h) = frame_size(source.width(), source.height(), eopts, popts, next);
    (Single { bits: 0 }).less(overlay) && inset_fails(
        w,
        h,
        source.width(),
        source.height(),
        overlay,
    )
}

/// Whether rendering a frame ended as it should.
pub open spec fn is_frame_result(
    r: Result<RgbaImage, VideoError>,
    source: &RgbaImage,
    fonts: Seq<Seq<u8>>,
    eopts: &Options,
    popts: &PaintOptions,
    overlay: Single,
    before: Option<Bounds>,
    next: Option<Bounds>,
) -> bool {
    match r {
        Ok(image) => {
            &&& image.wf()
            &&& engine::convert_error(source, eopts) is None
            &&& is_video_frame(&image, source, fonts, eopts, popts, overlay, before, next)
            &&& !overlay_too_large(source, eopts, popts, overlay, next)
        },
        Err(VideoError::Convert(e)) => {
            &&& engine::convert_error(source, eopts) == Some(e)
            &&& next == before
        },
        Err(VideoError::Paint(e)) => {
            &&& engine::convert_error(source, eopts) is None
            &&& next == before
            &&& exists|grid: AsciiGrid| #[trigger]
                engine::is_conversion(&grid, source, eopts) && paint::paint_error(
                    &grid,
                    fonts,
                    popts,
                ) == Some(e)
        },
        Err(e) => {
            &&& e == VideoError::OverlayTooLarge
            &&& engine::convert_error(source, eopts) is None
            &&& is_box_after(next, before, source, fonts, eopts, popts)
            &&& overlay_too_large(source, eopts, popts, overlay, next)
        },
    }
}

/// Renders one frame of a video.
///
/// Cropping, if enabled, is measured once on the first frame and reused: every
/// frame of a video has to be the same size.
pub fn convert_frame(
    source: &RgbaImage,
    fonts: &FontStack,
    eopts: &Options,
    popts: &PaintOptions,
    overlay: Single,
    bounds: &mut Option<Bounds>,
) -> (r: Result<RgbaImage, VideoError>)
    requires
        source.wf(),
        popts.metrics.wf(),
        *old(bounds) matches Some(b) ==> box_fits(b, source.width(), source.height(), eopts, popts),
    ensures
        *final(bounds) matches Some(b) ==> box_fits(
            b,
            source.width(),
            source.height(),
            eopts,
            popts,
        ),
        is_frame_result(r, source, fonts@, eopts, popts, overlay, *old(bounds), *final(bounds)),
{
    let ghost first = *bounds;
    let grid = match convert(source, eopts) {
        Ok(grid) => grid,
        Err(e) => {
            return Err(VideoError::Convert(e));
        },
    };
    assert(engine::is_conversion(&grid, source, eopts));
    let canvas = match paint_canvas(&grid, fonts, popts) {
        Ok(canvas) => canvas,
        Err(e) => {
            return Err(VideoError::Paint(e));
        },
    };
    proof {
        geometry::lemma_fits(source.width(), source.height(), eopts.width, eopts.aspect);
        paint::lemma_cell_area(&grid, popts, 0, 0);
        let (w, c) = (popts.metrics.width as int, grid.cols as int);
        let (h, r) = (popts.metrics.height as int, grid.rows as int);
        assert(w * c >= 1 && h * r >= 1) by (nonlinear_arith)
            requires
                w >= 1,
                c >= 1,
                h >= 1,
                r >= 1,
        ;
    }
    let kept = if popts.crop {
        let b = match *bounds {
            Some(b) => b,
            None => match content_bounds(&canvas, popts.background) {
                Some(b) => {
                    proof {
                        let y = choose|y: int|
                            0 <= y < canvas.height() && paint::is_drawn(
                                #[trigger] canvas.pixel(b.x0 as int, y),
                                popts.background,
                            );
                        assert(paint::has_content(&canvas, popts.background));
                    }
                    b
                },
                None => Bounds { x0: 0, y0: 0, x1: canvas.width(), y1: canvas.height() },
            },
        };
        *bounds = Some(b);
        crop_to(&canvas, b)
    } else {
        canvas.duplicate()
    };
    let ghost next = *bounds;
    assert(is_next_box(next, first, &canvas, popts));
    assert(is_kept(&kept, &canvas, next, popts));
    let mut image = to_even(&kept);
    assert(is_even_part(&image, &kept));
    let ghost even = image;
    proof {
        let size = frame_size(source.width(), source.height(), eopts, popts, next);
        assert(image.width() == size.0 && image.height() == size.1);
    }
    let off = Single { bits: 0 };
    if off.less(overlay) {
        proof {
            pixels::lemma_size(source.width(), image.height());
            pixels::lemma_size(image.width(), image.height());
            let (iw, ih) = (image.width() as int, image.height() as int);
            let (cw, ch) = (canvas.width() as int, canvas.height() as int);
            let sw = source.width() as int;
            assert(sw * ih <= sw * ch && iw * ih <= cw * ch) by (nonlinear_arith)
                requires
                    0 <= iw <= cw,
                    0 <= ih <= ch,
                    sw >= 0,
            ;
        }
        let (w, h) = inset_size(image.width(), source.width(), source.height(), overlay);
        if w <= image.width() && h <= image.height() && !is_resizable(
            source.width(),
            source.height(),
            w,
            h,
        ) {
            return Err(VideoError::OverlayTooLarge);
        }
        overlay_source(&mut image, source, overlay);
    } else {
        assert(image.same(&even));
    }
    assert(is_finished(&image, &kept, source, overlay));
    Ok(image)
}

/// Why a conversion ended without a result.
#[derive(Debug, Clone, Copy, PartialEq, Eq, Structural)]
pub enum Failure {
    Decoder,
    NoFrames,
    Encoder,
}

impl Failure {
    /// What the failure says to a user.
    pub open spec fn spec_message(self, input: Seq<char>, output: Seq<char>) -> Seq<char> {
        match self {
            Failure::Decoder => "ffmpeg failed to decode '"@ + input + "'"@,
            Failure::NoFrames => "'"@ + input + "' produced no frames"@,
            Failure::Encoder => "ffmpeg failed to write '"@ + output + "'"@,
        }
    }

    /// What the failure says to a user.
    pub fn message(&self, input: &str, output: &str) -> (r: String)
        ensures
            r@ == self.spec_message(input@, output@),
    {
        match self {
            Failure::Decoder => {
                let mut out = "ffmpeg failed to decode '".to_owned();
                out.append(input);
                out.append("'");
                out
            },
            Failure::NoFrames => {
                let mut out = "'".to_owned();
                out.append(input);
                out.append("' produced no frames");
                out
            },
            Failure::Encoder => {
                let mut out = "ffmpeg failed to write '".to_owned();
                out.append(output);
                out.append("'");
                out
            },
        }
    }
}

/// A conversion under way: what is known of the input, how the output is made, the
/// crop box once it was measured, and what was produced so far.
#[derive(Debug, Clone, Copy)]
pub struct Session {
    pub spec: Spec,
    pub fps: Double,
    pub overlay: Single,
    pub bounds: Option<Bounds>,
    pub stats: Stats,
}

/// Whether an image has the size and the bytes of a raw frame.
pub open spec fn is_source(source: &RgbaImage, spec: &Spec, raw: Seq<u8>) -> bool {
    &&& source.width() == spec.width
    &&& source.height() == spec.height
    &&& source@ == raw
}

impl Session {
    /// Whether the session fits the options: the crop box lies on the canvas, and
    /// what was produced has the size that every frame has.
    pub open spec fn wf(&self, eopts: &Options, popts: &PaintOptions) -> bool {
        let (w, h) = (self.spec.width, self.spec.height);
        &&& self.bounds matches Some(b) ==> box_fits(b, w, h, eopts, popts)
        &&& self.stats.frames > 0 ==> {
            &&& popts.crop ==> self.bounds is Some
            &&& (self.stats.width, self.stats.height) == frame_size(w, h, eopts, popts, self.bounds)
        }
    }

    /// Starts a conversion, where the options are acceptable.
    pub fn start(spec: Spec, opts: &VideoOptions) -> (r: Result<Session, VideoError>)
        ensures
            match r {
                Ok(s) => {
                    &&& spec_output_fps(opts, &spec) == Ok::<_, VideoError>(s.fps)
                    &&& s.spec == spec
                    &&& s.overlay == opts.overlay
                    &&& s.bounds is None
                    &&& s.stats == (Stats { frames: 0, width: 0, height: 0 })
                    &&& forall|eopts: Options, popts: PaintOptions| #[trigger] s.wf(&eopts, &popts)
                },
                Err(e) => spec_output_fps(opts, &spec) == Err::<Double, _>(e),
            },
    {
        match output_fps(opts, &spec) {
            Ok(fps) => Ok(
                Session {
                    spec,
                    fps,
                    overlay: opts.overlay,
                    bounds: None,
                    stats: Stats { frames: 0, width: 0, height: 0 },
                },
            ),
            Err(e) => Err(e),
        }
    }

    /// Renders the next frame from its raw bytes.
    pub fn next_frame(
        &mut self,
        raw: Vec<u8>,
        fonts: &FontStack,
        eopts: &Options,
        popts: &PaintOptions,
    ) -> (r: Result<RgbaImage, VideoError>)
        requires
            old(self).wf(eopts, popts),
            popts.metrics.wf(),
            raw@.len() == 4 * (old(self).spec.width * old(self).spec.height),
            old(self).stats.frames < u64::MAX,
        ensures
            final(self).wf(eopts, popts),
            final(self).spec == old(self).spec,
            final(self).fps == old(self).fps,
            final(self).overlay == old(self).overlay,
            exists|source: RgbaImage| #[trigger]
                is_source(&source, &old(self).spec, raw@) && is_frame_result(
                    r,
                    &source,
                    fonts@,
                    eopts,
                    popts,
                    old(self).overlay,
                    old(self).bounds,
                    final(self).bounds,
                ),
            match r {
                Ok(image) => {
                    &&& image.wf()
                    &&& final(self).stats == (Stats {
                        frames: (old(self).stats.frames + 1) as u64,
                        width: image.width(),
                        height: image.height(),
                    })
                    &&& old(self).stats.frames > 0 ==> {
                        &&& final(self).stats.width == old(self).stats.width
                        &&& final(self).stats.height == old(self).stats.height
                    }
                },
                Err(_) => final(self).stats == old(self).stats,
            },
    {
        let source = match RgbaImage::from_raw(self.spec.width, self.spec.height, raw) {
            Some(source) => source,
            None => {
                assert(false);
                RgbaImage::new(0, 0)
            },
        };
        assert(is_source(&source, &self.spec, raw@));
        let ghost before = *self;
        let mut bounds = self.bounds;
        let r = convert_frame(&source, fonts, eopts, popts, self.overlay, &mut bounds);
        self.bounds = bounds;
        if let Ok(image) = &r {
            proof {
                laws::lemma_frame_size(
                    image,
                    &source,
                    fonts@,
                    eopts,
                    popts,
                    before.overlay,
                    before.bounds,
                    bounds,
                );
            }
            let (width, height) = image.dimensions();
            self.stats = Stats { frames: self.stats.frames + 1, width, height };
        }
        r
    }

    /// What the end of the decoder means: whether it failed, or gave no frames.
    pub fn after_decoding(&self, success: bool) -> (r: Option<Failure>)
        ensures
            r == (if !success {
                Some(Failure::Decoder)
            } else if self.stats.frames == 0 {
                Some(Failure::NoFrames)
            } else {
                None
            }),
    {
        if !success {
            Some(Failure::Decoder)
        } else if self.stats.frames == 0 {
            Some(Failure::NoFrames)
        } else {
            None
        }
    }

    /// What the end of the encoder means: what was produced, or that it failed.
    pub fn after_encoding(&self, success: bool) -> (r: Result<Stats, Failure>)
        ensures
            r == (if success {
                Ok(self.stats)
            } else {
                Err(Failure::Encoder)
            }),
    {
        if success {
            Ok(self.stats)
        } else {
            Err(Failure::Encoder)
        }
    }
}

/// The arguments that every encoder call starts with.
pub open spec fn encoder_head(width: u32, height: u32, fps: Double) -> Seq<Seq<char>> {
    seq![
        "-v"@,
        "error"@,
        "-y"@,
        "-f"@,
        "rawvideo"@,
        "-pix_fmt"@,
        "rgba"@,
        "-s"@,
        text::decimal(width as nat) + "x"@ + text::decimal(height as nat),
        "-framerate"@,
        double_text(fps.bits),
        "-i"@,
        "-"@,
        "-an"@,
    ]
}

/// The arguments that choose the codec.
pub open spec fn encoder_codec(gif: bool, crf: u8) -> Seq<Seq<char>> {
    if gif {
        seq![
            "-vf"@,
            "split[a][b];[a]palettegen=stats_mode=diff[p];[b][p]paletteuse=dither=bayer"@,
            "-loop"@,
            "0"@,
        ]
    } else {
        seq![
            "-c:v"@,
            "libx264"@,
            "-preset"@,
            "medium"@,
            "-crf"@,
            text::decimal(crf as nat),
            "-pix_fmt"@,
            "yuv420p"@,
        ]
    }
}

/// The texts of strings.
pub open spec fn texts(v: Seq<String>) -> Seq<Seq<char>> {
    v.map_values(|s: String| s@)
}

/// Appends a string.
fn push_text(out: &mut Vec<String>, s: &str)
    ensures
        texts(final(out)@) == texts(old(out)@).push(s@),
{
    out.push(s.to_owned());
    assert(texts(out@) =~= texts(old(out)@).push(s@));
}

/// The arguments of the encoder, up to the output path: raw RGBA frames in, an
/// encoded file out.
///
/// For a GIF, a shared palette generated from the whole clip beats a guess per
/// frame, which dithers ASCII art to mud.
pub fn encoder_args(output: &str, width: u32, height: u32, fps: Double, crf: u8) -> (r: Vec<String>)
    ensures
        texts(r@) == encoder_head(width, height, fps) + encoder_codec(
            paths::has_extension(output@, "gif"@),
            crf,
        ),
{
    let mut out: Vec<String> = Vec::new();
    assert(texts(out@) =~= Seq::<Seq<char>>::empty());
    push_text(&mut out, "-v");
    push_text(&mut out, "error");
    push_text(&mut out, "-y");
    push_text(&mut out, "-f");
    push_text(&mut out, "rawvideo");
    push_text(&mut out, "-pix_fmt");
    push_text(&mut out, "rgba");
    push_text(&mut out, "-s");
    let mut size = String::new();
    text::push_decimal(&mut size, width as u64);
    size.append("x");
    text::push_decimal(&mut size, height as u64);
    assert(size@ =~= text::decimal(width as nat) + "x"@ + text::decimal(height as nat));
    push_text(&mut out, size.as_str());
    push_text(&mut out, "-framerate");
    push_text(&mut out, display_double(fps.bits).as_str());
    push_text(&mut out, "-i");
    push_text(&mut out, "-");
    push_text(&mut out, "-an");
    assert(texts(out@) =~= encoder_head(width, height, fps));
    let gif = anim::wants_gif(output);
    if gif {
        push_text(&mut out, "-vf");
        push_text(
            &mut out,
            "split[a][b];[a]palettegen=stats_mode=diff[p];[b][p]paletteuse=dither=bayer",
        );
        push_text(&mut out, "-loop");
        push_text(&mut out, "0");
    } else {
        push_text(&mut out, "-c:v");
        push_text(&mut out, "libx264");
        push_text(&mut out, "-preset");
        push_text(&mut out, "medium");
        push_text(&mut out, "-crf");
        let mut quality = String::new();
        text::push_decimal(&mut quality, crf as u64);
        assert(quality@ =~= text::decimal(crf as nat));
        push_text(&mut out, quality.as_str());
        push_text(&mut out, "-pix_fmt");
        push_text(&mut out, "yuv420p");
    }
    assert(texts(out@) =~= encoder_head(width, height, fps) + encoder_codec(gif, crf));
    out
}

} // verus!
