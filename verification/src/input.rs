//! Input decoding: raster stills, SVG, and animated GIF frames.
//!
//! Everything upstream of [`crate::engine`] lands here so the engine keeps taking
//! one plain [`RgbaImage`] and nothing else.

use crate::float::{Double, Single};
use crate::pixels;
use crate::pixels::RgbaImage;
use image::codecs::gif::GifDecoder;
use image::AnimationDecoder;
use std::io::Cursor;
use vstd::arithmetic::div_mod::*;
use vstd::prelude::*;

pub mod exact;
pub mod sniffing;

verus! {

/// One frame of an animation.
#[derive(Debug, Clone)]
pub struct Frame {
    pub image: RgbaImage,
    /// Display time in milliseconds.
    pub delay_ms: u32,
}

/// Delay used when a GIF frame declares none.
pub const DEFAULT_DELAY_MS: u32 = 100;

/// Never rasterize an SVG smaller than this: thin strokes would vanish.
pub const MIN_SVG_PX: u32 = 256;

/// Nor larger than this, however many columns were asked for.
pub const MAX_SVG_PX: u32 = 8192;

/// The longest side that a document can be drawn at.
pub const MAX_SVG_SIDE: u32 = 429_496_729;

/// How many bytes of a document are searched for its start, and for its root.
pub const HEAD: usize = 1024;

pub const SEARCH: usize = 8192;

/// The encodings of 0.5 and of 255.
pub const HALF: u64 = 0x3fe0_0000_0000_0000;

pub const FULL: u64 = 0x406f_e000_0000_0000;

/// Why an input was not decoded.
#[derive(Debug, Clone, Copy, PartialEq, Eq, Structural)]
pub enum InputError {
    NotAnImage,
    NotAGif,
    BadFrames,
    BadSvg,
    NoSize,
    TooLarge,
}

impl InputError {
    /// What the error says to a user.
    pub open spec fn spec_message(self) -> Seq<char> {
        match self {
            InputError::NotAnImage => "input is not a supported image format (PNG/JPEG/GIF/WebP/BMP/SVG)"@,
            InputError::NotAGif => "input is not a readable GIF"@,
            InputError::BadFrames => "failed to decode GIF frames"@,
            InputError::BadSvg => "failed to parse SVG"@,
            InputError::NoSize => "SVG has no intrinsic size"@,
            InputError::TooLarge => "SVG raster target is too large to allocate"@,
        }
    }

    /// What the error says to a user.
    pub fn message(&self) -> (r: String)
        ensures
            r@ == self.spec_message(),
    {
        match self {
            InputError::NotAnImage => {
                "input is not a supported image format (PNG/JPEG/GIF/WebP/BMP/SVG)".to_owned()
            },
            InputError::NotAGif => "input is not a readable GIF".to_owned(),
            InputError::BadFrames => "failed to decode GIF frames".to_owned(),
            InputError::BadSvg => "failed to parse SVG".to_owned(),
            InputError::NoSize => "SVG has no intrinsic size".to_owned(),
            InputError::TooLarge => "SVG raster target is too large to allocate".to_owned(),
        }
    }
}

/// Whether `part` stands in `bytes` at index `at`.
pub open spec fn stands_at(bytes: Seq<u8>, at: int, part: Seq<u8>) -> bool {
    0 <= at && at + part.len() <= bytes.len() && bytes.subrange(at, at + part.len()) == part
}

/// The byte order mark, encoded in UTF-8.
pub open spec fn byte_order_mark() -> Seq<u8> {
    seq![0xefu8, 0xbbu8, 0xbfu8]
}

/// The index after all byte order marks from index `at` on.
pub open spec fn after_marks(bytes: Seq<u8>, at: int) -> int
    decreases bytes.len() - at,
{
    if stands_at(bytes, at, byte_order_mark()) {
        after_marks(bytes, at + 3)
    } else {
        at
    }
}

/// The number of bytes of the white space character at index `at`, or 0 where
/// there is none.
pub open spec fn space_len(bytes: Seq<u8>, at: int) -> int {
    let a = bytes[at];
    let b = bytes[at + 1];
    let c = bytes[at + 2];
    if at < 0 || at >= bytes.len() {
        0
    } else if (0x09 <= a <= 0x0d) || a == 0x20 {
        1
    } else if at + 1 < bytes.len() && a == 0xc2 && (b == 0x85 || b == 0xa0) {
        2
    } else if at + 2 < bytes.len() && ((a == 0xe1 && b == 0x9a && c == 0x80) || (a == 0xe2 && b
        == 0x80 && ((0x80 <= c <= 0x8a) || c == 0xa8 || c == 0xa9 || c == 0xaf)) || (a == 0xe2 && b
        == 0x81 && c == 0x9f) || (a == 0xe3 && b == 0x80 && c == 0x80)) {
        3
    } else {
        0
    }
}

/// The index after all white space from index `at` on.
pub open spec fn after_space(bytes: Seq<u8>, at: int) -> int
    decreases bytes.len() - at,
{
    if space_len(bytes, at) > 0 {
        after_space(bytes, at + space_len(bytes, at))
    } else {
        at
    }
}

/// The first `n` bytes, or all of them where there are fewer.
pub open spec fn head(bytes: Seq<u8>, n: int) -> Seq<u8> {
    if bytes.len() < n {
        bytes
    } else {
        bytes.take(n)
    }
}

/// The opening of an SVG element.
pub open spec fn svg_tag() -> Seq<u8> {
    seq![0x3cu8, 0x73u8, 0x76u8, 0x67u8]
}

/// The opening of an XML declaration.
pub open spec fn xml_tag() -> Seq<u8> {
    seq![0x3cu8, 0x3fu8, 0x78u8, 0x6du8, 0x6cu8]
}

/// The opening of a comment.
pub open spec fn comment_tag() -> Seq<u8> {
    seq![0x3cu8, 0x21u8, 0x2du8, 0x2du8]
}

/// Whether `part` stands anywhere in `bytes`.
pub open spec fn occurs(bytes: Seq<u8>, part: Seq<u8>) -> bool {
    exists|at: int| #[trigger] stands_at(bytes, at, part)
}

/// Whether bytes look like an SVG document: behind byte order marks and white
/// space they open an SVG element, or they open a declaration or a comment and an
/// SVG element follows.
pub open spec fn spec_is_svg(bytes: Seq<u8>) -> bool {
    let start = head(bytes, HEAD as int);
    let at = after_space(start, after_marks(start, 0));
    ||| stands_at(start, at, svg_tag())
    ||| (stands_at(start, at, xml_tag()) || stands_at(start, at, comment_tag())) && occurs(
        head(bytes, SEARCH as int),
        svg_tag(),
    )
}

/// Whether bytes start like a GIF.
pub open spec fn spec_is_gif(bytes: Seq<u8>) -> bool {
    stands_at(bytes, 0, seq![0x47u8, 0x49u8, 0x46u8, 0x38u8, 0x37u8, 0x61u8]) || stands_at(
        bytes,
        0,
        seq![0x47u8, 0x49u8, 0x46u8, 0x38u8, 0x39u8, 0x61u8],
    )
}

/// Whether `part` stands in the first `len` bytes at index `at`.
fn found_at(bytes: &[u8], len: usize, at: usize, part: &[u8]) -> (r: bool)
    requires
        len <= bytes@.len(),
    ensures
        r == stands_at(bytes@.take(len as int), at as int, part@),
{
    let n = part.len();
    let ghost s = bytes@.take(len as int);
    if at > len || len - at < n {
        return false;
    }
    let mut i: usize = 0;
    while i < n
        invariant
            n == part@.len(),
            i <= n,
            at + n <= len <= bytes@.len(),
            s == bytes@.take(len as int),
            forall|j: int| 0 <= j < i ==> s[at + j] == part@[j],
        decreases n - i,
    {
        if bytes[at + i] != part[i] {
            assert(s.subrange(at as int, at + n)[i as int] != part@[i as int]);
            return false;
        }
        i = i + 1;
    }
    assert(s.subrange(at as int, at + n) =~= part@);
    true
}

/// The number of bytes of the white space character at index `at` of the first
/// `len` bytes.
fn space_at(bytes: &[u8], len: usize, at: usize) -> (r: usize)
    requires
        len <= bytes@.len(),
    ensures
        r == space_len(bytes@.take(len as int), at as int),
        r > 0 ==> at + r <= len,
{
    if at >= len {
        return 0;
    }
    let a = bytes[at];
    if (0x09 <= a && a <= 0x0d) || a == 0x20 {
        return 1;
    }
    if len - at < 2 {
        return 0;
    }
    let b = bytes[at + 1];
    if a == 0xc2 && (b == 0x85 || b == 0xa0) {
        return 2;
    }
    if len - at < 3 {
        return 0;
    }
    let c = bytes[at + 2];
    if (a == 0xe1 && b == 0x9a && c == 0x80) || (a == 0xe2 && b == 0x80 && ((0x80 <= c && c <= 0x8a)
        || c == 0xa8 || c == 0xa9 || c == 0xaf)) || (a == 0xe2 && b == 0x81 && c == 0x9f) || (a
        == 0xe3 && b == 0x80 && c == 0x80) {
        3
    } else {
        0
    }
}

/// Does this look like an SVG document?
///
/// Sniffed rather than trusted to the extension, because standard input has no
/// extension and neither do a lot of downloaded files.
pub fn is_svg(bytes: &[u8]) -> (r: bool)
    ensures
        r == spec_is_svg(bytes@),
{
    let len = if bytes.len() < HEAD {
        bytes.len()
    } else {
        HEAD
    };
    let ghost start = head(bytes@, HEAD as int);
    assert(start =~= bytes@.take(len as int));
    let mark: [u8; 3] = [0xef, 0xbb, 0xbf];
    assert(mark@ =~= byte_order_mark());
    let mut at: usize = 0;
    while found_at(bytes, len, at, &mark)
        invariant
            mark@ == byte_order_mark(),
            start == bytes@.take(len as int),
            len <= bytes@.len(),
            at <= len,
            after_marks(start, 0) == after_marks(start, at as int),
        decreases len - at,
    {
        at = at + 3;
    }
    let ghost first = at as int;
    let mut n = space_at(bytes, len, at);
    while n > 0
        invariant
            start == bytes@.take(len as int),
            len <= bytes@.len(),
            at <= len,
            n == space_len(start, at as int),
            n > 0 ==> at + n <= len,
            after_space(start, first) == after_space(start, at as int),
        decreases len - at,
    {
        at = at + n;
        n = space_at(bytes, len, at);
    }
    let svg: [u8; 4] = [0x3c, 0x73, 0x76, 0x67];
    let xml: [u8; 5] = [0x3c, 0x3f, 0x78, 0x6d, 0x6c];
    let comment: [u8; 4] = [0x3c, 0x21, 0x2d, 0x2d];
    assert(svg@ =~= svg_tag());
    assert(xml@ =~= xml_tag());
    assert(comment@ =~= comment_tag());
    if found_at(bytes, len, at, &svg) {
        return true;
    }
    if !(found_at(bytes, len, at, &xml) || found_at(bytes, len, at, &comment)) {
        return false;
    }
    let limit = if bytes.len() < SEARCH {
        bytes.len()
    } else {
        SEARCH
    };
    let ghost all = head(bytes@, SEARCH as int);
    assert(all =~= bytes@.take(limit as int));
    let ghost gap = at as int;
    let mut i: usize = 0;
    while i < limit
        invariant
            start == head(bytes@, HEAD as int),
            all == head(bytes@, SEARCH as int),
            gap == after_space(start, after_marks(start, 0)),
            !stands_at(start, gap, svg_tag()),
            stands_at(start, gap, xml_tag()) || stands_at(start, gap, comment_tag()),
            svg@ == svg_tag(),
            all == bytes@.take(limit as int),
            limit <= bytes@.len(),
            i <= limit,
            forall|j: int| 0 <= j < i ==> !#[trigger] stands_at(all, j, svg_tag()),
        decreases limit - i,
    {
        if found_at(bytes, limit, i, &svg) {
            assert(stands_at(all, i as int, svg_tag()));
            return true;
        }
        i = i + 1;
    }
    false
}

/// Does this look like a GIF (possibly animated)?
pub fn is_gif(bytes: &[u8]) -> (r: bool)
    ensures
        r == spec_is_gif(bytes@),
{
    let old_head: [u8; 6] = [0x47, 0x49, 0x46, 0x38, 0x37, 0x61];
    let new_head: [u8; 6] = [0x47, 0x49, 0x46, 0x38, 0x39, 0x61];
    assert(old_head@ =~= seq![0x47u8, 0x49u8, 0x46u8, 0x38u8, 0x37u8, 0x61u8]);
    assert(new_head@ =~= seq![0x47u8, 0x49u8, 0x46u8, 0x38u8, 0x39u8, 0x61u8]);
    assert(bytes@.take(bytes@.len() as int) =~= bytes@);
    let n = bytes.len();
    found_at(bytes, n, 0, &old_head) || found_at(bytes, n, 0, &new_head)
}

// The image that a raster file holds, as width, height and bytes of straight
// red, green, blue and alpha.
pub uninterp spec fn raster_pixels(bytes: Seq<u8>) -> Option<(u32, u32, Seq<u8>)>;

// The frames that a GIF file holds, each as numerator and denominator of its
// delay in milliseconds, width, height and bytes; or whether already its header
// was unreadable.
pub uninterp spec fn gif_frames(bytes: Seq<u8>) -> Result<
    Seq<(u32, u32, u32, u32, Seq<u8>)>,
    bool,
>;

/// A decoded frame before its delay is settled.
pub struct RawFrame {
    pub num: u32,
    pub den: u32,
    pub width: u32,
    pub height: u32,
    pub data: Vec<u8>,
}

impl View for RawFrame {
    type V = (u32, u32, u32, u32, Seq<u8>);

    open spec fn view(&self) -> (u32, u32, u32, u32, Seq<u8>) {
        (self.num, self.den, self.width, self.height, self.data@)
    }
}

/// `image::load_from_memory`, then `DynamicImage::to_rgba8`.
///
/// Trusted: what comes out is a function of the bytes, and the buffer holds four
/// bytes for every pixel.
#[verifier::external_body]
fn load_raster(bytes: &[u8]) -> (r: Option<(u32, u32, Vec<u8>)>)
    ensures
        match r {
            Some((width, height, data)) => {
                &&& raster_pixels(bytes@) == Some((width, height, data@))
                &&& data@.len() == 4 * (width * height)
            },
            None => raster_pixels(bytes@) is None,
        },
{
    let decoded = image::load_from_memory(bytes).ok()?.to_rgba8();
    Some((decoded.width(), decoded.height(), decoded.into_raw()))
}

/// `GifDecoder::new`, then `AnimationDecoder::into_frames` and
/// `Frames::collect_frames`.
///
/// Trusted: what comes out is a function of the bytes, and the buffer of every
/// frame holds four bytes for every pixel.
#[verifier::external_body]
fn load_gif(bytes: &[u8]) -> (r: Result<Vec<RawFrame>, bool>)
    ensures
        match r {
            Ok(frames) => {
                &&& gif_frames(bytes@) == Ok::<_, bool>(frames@.map_values(|f: RawFrame| f@))
                &&& forall|i: int|
                    0 <= i < frames@.len() ==> (#[trigger] frames@[i]).data@.len() == 4 * (
                    frames@[i].width * frames@[i].height)
            },
            Err(e) => gif_frames(bytes@) == Err::<Seq<(u32, u32, u32, u32, Seq<u8>)>, bool>(e),
        },
{
    let decoder = GifDecoder::new(Cursor::new(bytes)).map_err(|_| true)?;
    let frames = decoder.into_frames().collect_frames().map_err(|_| false)?;
    Ok(frames.into_iter().map(|f| {
        let (num, den) = f.delay().numer_denom_ms();
        let image = f.into_buffer();
        RawFrame { num, den, width: image.width(), height: image.height(), data: image.into_raw() }
    }).collect())
}

/// The width that an SVG is rasterized at.
pub open spec fn svg_width(target_px: u32) -> u32 {
    if target_px < MIN_SVG_PX {
        MIN_SVG_PX
    } else if target_px > MAX_SVG_PX {
        MAX_SVG_PX
    } else {
        target_px
    }
}

/// The scale that brings a document of the given width to its raster width.
pub open spec fn svg_scale(size_w: Single, target_px: u32) -> Single {
    Single::from_u64(svg_width(target_px) as u64).over(size_w)
}

/// The height that keeps the aspect ratio of a document.
pub open spec fn svg_height(size_w: Single, size_h: Single, target_px: u32) -> u32 {
    let n = size_h.times(svg_scale(size_w, target_px)).nearest_u64();
    if n < 1 {
        1
    } else if n > u32::MAX {
        u32::MAX
    } else {
        n as u32
    }
}

/// Whether a document has a size.
pub open spec fn has_size(size_w: Single, size_h: Single) -> bool {
    !size_w.at_most((Single { bits: 0 })) && !size_h.at_most((Single { bits: 0 }))
}

/// How large to rasterize a document, and at which scale, or why it cannot be; where
/// `size` is the size of the document, if it could be read.
pub open spec fn spec_svg_job(size: Option<(Single, Single)>, target_px: u32) -> Result<
    (u32, u32, Single),
    InputError,
> {
    match size {
        None => Err(InputError::BadSvg),
        Some((w, h)) => if !has_size(w, h) {
            Err(InputError::NoSize)
        } else if svg_height(w, h, target_px) > MAX_SVG_SIDE {
            Err(InputError::TooLarge)
        } else {
            Ok((svg_width(target_px), svg_height(w, h, target_px), svg_scale(w, target_px)))
        },
    }
}

/// How large to rasterize a document, and at which scale, or why it cannot be; where
/// `size` is the size of the document, if it could be read.
///
/// Vector input has no native resolution, so render exactly as much detail as the
/// requested character grid can consume.
pub fn svg_job(size: Option<(Single, Single)>, target_px: u32) -> (r: Result<
    (u32, u32, Single),
    InputError,
>)
    ensures
        r == spec_svg_job(size, target_px),
{
    let (size_w, size_h) = match size {
        Some(size) => size,
        None => {
            return Err(InputError::BadSvg);
        },
    };
    let zero = Single { bits: 0 };
    if size_w.at_most(zero) || size_h.at_most(zero) {
        return Err(InputError::NoSize);
    }
    let width = if target_px < MIN_SVG_PX {
        MIN_SVG_PX
    } else if target_px > MAX_SVG_PX {
        MAX_SVG_PX
    } else {
        target_px
    };
    let scale = Single::from_u64(width as u64).over(size_w);
    let n = size_h.times(scale).nearest_u64();
    let height = if n < 1 {
        1
    } else if n > u32::MAX as u64 {
        u32::MAX
    } else {
        n as u32
    };
    if height > MAX_SVG_SIDE {
        return Err(InputError::TooLarge);
    }
    Ok((width, height, scale))
}

/// A color channel without the alpha that it was multiplied by.
pub open spec fn straight_channel(c: u8, alpha: u8) -> u8 {
    let a = Double::from_u64(alpha as u64).over((Double { bits: FULL }));
    let n = Double::from_u64(c as u64).over(a).plus((Double { bits: HALF })).to_u64();
    if n > 255 {
        255
    } else {
        n as u8
    }
}

/// Byte `i` of a buffer with straight alpha.
pub open spec fn straight_byte(data: Seq<u8>, i: int) -> u8 {
    let alpha = data[i - i % 4 + 3];
    if i % 4 == 3 || alpha == 255 {
        data[i]
    } else {
        straight_channel(data[i], alpha)
    }
}

/// Turns premultiplied alpha into straight alpha.
pub fn straighten(data: Vec<u8>) -> (r: Vec<u8>)
    requires
        data@.len() % 4 == 0,
    ensures
        r@ == Seq::new(data@.len(), |i: int| straight_byte(data@, i)),
{
    let mut out: Vec<u8> = Vec::new();
    let mut i: usize = 0;
    while i < data.len()
        invariant
            i <= data@.len(),
            i % 4 == 0,
            data@.len() % 4 == 0,
            out@ =~= Seq::new(i as nat, |j: int| straight_byte(data@, j)),
        decreases data@.len() - i,
    {
        let alpha = data[i + 3];
        if alpha == 255 {
            out.push(data[i]);
            out.push(data[i + 1]);
            out.push(data[i + 2]);
        } else {
            let a = Double::from_u64(alpha as u64).over(Double { bits: FULL });
            out.push(straight(data[i], a));
            out.push(straight(data[i + 1], a));
            out.push(straight(data[i + 2], a));
        }
        out.push(alpha);
        i = i + 4;
    }
    assert(out@ =~= Seq::new(data@.len(), |i: int| straight_byte(data@, i)));
    out
}

/// A color channel without the alpha that it was multiplied by, as a fraction.
fn straight(c: u8, a: Double) -> (r: u8)
    ensures
        forall|alpha: u8|
            a == #[trigger] Double::from_u64(alpha as u64).over((Double { bits: FULL })) ==> r
                == straight_channel(c, alpha),
{
    let n = Double::from_u64(c as u64).over(a).plus(Double { bits: HALF }).to_u64();
    if n > 255 {
        255
    } else {
        n as u8
    }
}

/// What becomes of the pixels that were drawn of a document: the image with straight
/// alpha, or an error where they could not be drawn.
pub open spec fn is_finished(
    r: Result<RgbaImage, InputError>,
    width: u32,
    height: u32,
    drawn: Option<Vec<u8>>,
) -> bool {
    match drawn {
        Some(data) if data@.len() == 4 * (width * height) => {
            &&& r matches Ok(image)
            &&& image.wf()
            &&& image.width() == width
            &&& image.height() == height
            &&& image@ == Seq::new(data@.len(), |i: int| straight_byte(data@, i))
        },
        _ => r matches Err(InputError::TooLarge),
    }
}

/// What becomes of the pixels that were drawn of a document.
pub fn finish_svg(width: u32, height: u32, drawn: Option<Vec<u8>>) -> (r: Result<
    RgbaImage,
    InputError,
>)
    ensures
        is_finished(r, width, height, drawn),
{
    match drawn {
        Some(data) => {
            proof {
                pixels::lemma_size(width, height);
            }
            if data.len() as u128 != 4 * (width as u128 * height as u128) {
                return Err(InputError::TooLarge);
            }
            let out = straighten(data);
            match RgbaImage::from_raw(width, height, out) {
                Some(image) => Ok(image),
                None => Err(InputError::TooLarge),
            }
        },
        None => Err(InputError::TooLarge),
    }
}

/// What was read and drawn of an SVG document.
///
/// A document can refer to files, so reading it is left to the caller, who draws what
/// [`svg_job`] says.
#[derive(Debug)]
pub struct Drawing {
    /// The size of the document, if it could be read.
    pub size: Option<(Single, Single)>,
    /// The pixels drawn of it, if they could be: red, green, blue and alpha,
    /// premultiplied.
    pub pixels: Option<Vec<u8>>,
}

impl Drawing {
    /// What is drawn of an input that is no document.
    pub fn none() -> (r: Drawing)
        ensures
            r.size is None,
            r.pixels is None,
    {
        Drawing { size: None, pixels: None }
    }
}

/// What decoding a document gives.
pub open spec fn is_svg_image(
    r: Result<RgbaImage, InputError>,
    drawing: Drawing,
    target_px: u32,
) -> bool {
    match spec_svg_job(drawing.size, target_px) {
        Ok((width, height, _)) => is_finished(r, width, height, drawing.pixels),
        Err(e) => r == Err::<RgbaImage, InputError>(e),
    }
}

/// Rasterizes an SVG at `target_px` wide, preserving its aspect ratio.
pub fn decode_svg(drawing: Drawing, target_px: u32) -> (r: Result<RgbaImage, InputError>)
    ensures
        is_svg_image(r, drawing, target_px),
        r matches Ok(image) ==> image.wf() && image.width() == svg_width(target_px)
            && image.height() > 0,
{
    match svg_job(drawing.size, target_px) {
        Ok((width, height, _)) => finish_svg(width, height, drawing.pixels),
        Err(e) => Err(e),
    }
}

/// Whether an image is what a raster file holds.
pub open spec fn is_raster(image: &RgbaImage, bytes: Seq<u8>) -> bool {
    &&& image.wf()
    &&& raster_pixels(bytes) == Some((image.width(), image.height(), image@))
}

/// What decoding a still image gives. Raster files give what they hold, and SVG
/// documents what was drawn of them.
pub open spec fn is_still(
    r: Result<RgbaImage, InputError>,
    bytes: Seq<u8>,
    drawing: Drawing,
    target_px: u32,
) -> bool {
    if spec_is_svg(bytes) {
        is_svg_image(r, drawing, target_px)
    } else {
        match r {
            Ok(image) => is_raster(&image, bytes),
            Err(e) => raster_pixels(bytes) is None && e == InputError::NotAnImage,
        }
    }
}

/// Decodes a still image, of which `drawing` was drawn if it is an SVG document.
///
/// `target_px` is the width an SVG should be rasterized at; raster formats ignore
/// it, since they come with a resolution of their own.
pub fn decode_still(bytes: &[u8], drawing: Drawing, target_px: u32) -> (r: Result<
    RgbaImage,
    InputError,
>)
    ensures
        is_still(r, bytes@, drawing, target_px),
        r matches Ok(image) ==> image.wf(),
{
    if is_svg(bytes) {
        return decode_svg(drawing, target_px);
    }
    match load_raster(bytes) {
        Some((width, height, data)) => match RgbaImage::from_raw(width, height, data) {
            Some(image) => Ok(image),
            None => Err(InputError::NotAnImage),
        },
        None => Err(InputError::NotAnImage),
    }
}

/// The delay of a frame, from its ratio: the default where the frame declares none,
/// which a decoder reads as a ratio of nothing, and else at least one millisecond.
pub open spec fn settled_delay(num: u32, den: u32) -> u32 {
    let d = if den == 0 || num == 0 {
        DEFAULT_DELAY_MS
    } else {
        num / den
    };
    if d < 1 {
        1
    } else {
        d
    }
}

/// Whether a frame is a decoded one with its delay settled.
pub open spec fn is_frame(frame: &Frame, raw: (u32, u32, u32, u32, Seq<u8>)) -> bool {
    &&& frame.image.wf()
    &&& frame.image.width() == raw.2
    &&& frame.image.height() == raw.3
    &&& frame.image@ == raw.4
    &&& frame.delay_ms == settled_delay(raw.0, raw.1)
}

/// Settles the delays of decoded frames.
pub fn settle_frames(raw: Vec<RawFrame>) -> (r: Vec<Frame>)
    requires
        forall|i: int|
            0 <= i < raw@.len() ==> (#[trigger] raw@[i]).data@.len() == 4 * (raw@[i].width
                * raw@[i].height),
    ensures
        r@.len() == raw@.len(),
        forall|i: int| 0 <= i < r@.len() ==> is_frame(&#[trigger] r@[i], raw@[i]@),
{
    let mut rest = raw;
    let ghost all = rest@;
    let mut out: Vec<Frame> = Vec::new();
    while rest.len() > 0
        invariant
            all.len() == out@.len() + rest@.len(),
            rest@ =~= all.take(rest@.len() as int),
            forall|i: int|
                0 <= i < all.len() ==> (#[trigger] all[i]).data@.len() == 4 * (all[i].width
                    * all[i].height),
            forall|i: int|
                0 <= i < out@.len() ==> is_frame(&#[trigger] out@[i], all[all.len() - 1 - i]@),
        decreases rest@.len(),
    {
        let ghost at = rest@.len() - 1;
        if let Some(f) = rest.pop() {
            assert(f == all[at]);
            let d = if f.den == 0 || f.num == 0 {
                DEFAULT_DELAY_MS
            } else {
                f.num / f.den
            };
            let delay_ms = if d < 1 {
                1
            } else {
                d
            };
            let (width, height) = (f.width, f.height);
            match RgbaImage::from_raw(width, height, f.data) {
                Some(image) => {
                    out.push(Frame { image, delay_ms });
                },
                None => {
                    assert(false);
                    out.push(Frame { image: RgbaImage::new(0, 0), delay_ms });
                },
            }
        }
    }
    let ghost backward = out@;
    let mut r: Vec<Frame> = Vec::new();
    while out.len() > 0
        invariant
            backward.len() == all.len(),
            backward.len() == r@.len() + out@.len(),
            out@ =~= backward.take(out@.len() as int),
            forall|i: int|
                0 <= i < backward.len() ==> is_frame(
                    &#[trigger] backward[i],
                    all[all.len() - 1 - i]@,
                ),
            forall|i: int| 0 <= i < r@.len() ==> is_frame(&#[trigger] r@[i], all[i]@),
        decreases out@.len(),
    {
        let ghost at = out@.len() - 1;
        if let Some(f) = out.pop() {
            assert(f == backward[at]);
            r.push(f);
        }
    }
    r
}

/// What decoding the frames of an input gives.
pub open spec fn is_frames(
    r: Result<Vec<Frame>, InputError>,
    bytes: Seq<u8>,
    drawing: Drawing,
    target_px: u32,
) -> bool {
    if spec_is_gif(bytes) {
        match (r, gif_frames(bytes)) {
            (Ok(frames), Ok(raw)) => {
                &&& frames@.len() == raw.len()
                &&& forall|i: int| 0 <= i < raw.len() ==> is_frame(&#[trigger] frames@[i], raw[i])
            },
            (Err(e), Err(header)) => e == if header {
                InputError::NotAGif
            } else {
                InputError::BadFrames
            },
            _ => false,
        }
    } else {
        match r {
            Ok(frames) => {
                &&& frames@.len() == 1
                &&& is_still(Ok(frames@[0].image), bytes, drawing, target_px)
                &&& frames@[0].delay_ms == DEFAULT_DELAY_MS
            },
            Err(e) => is_still(Err(e), bytes, drawing, target_px),
        }
    }
}

/// Decodes every frame of an animation, or a single frame for a still.
pub fn decode_frames(bytes: &[u8], drawing: Drawing, target_px: u32) -> (r: Result<
    Vec<Frame>,
    InputError,
>)
    ensures
        is_frames(r, bytes@, drawing, target_px),
        r matches Ok(frames) ==> forall|i: int|
            0 <= i < frames@.len() ==> (#[trigger] frames@[i]).image.wf(),
{
    if !is_gif(bytes) {
        return match decode_still(bytes, drawing, target_px) {
            Ok(image) => {
                let mut frames: Vec<Frame> = Vec::new();
                frames.push(Frame { image, delay_ms: DEFAULT_DELAY_MS });
                Ok(frames)
            },
            Err(e) => Err(e),
        };
    }
    match load_gif(bytes) {
        Ok(raw) => Ok(settle_frames(raw)),
        Err(header) => Err(
            if header {
                InputError::NotAGif
            } else {
                InputError::BadFrames
            },
        ),
    }
}

/// Raster width to rasterize an SVG at for a `cols`-wide character grid.
///
/// Eight source pixels per cell is plenty for cell averaging, and for braille it
/// still leaves four pixels per dot.
pub fn svg_target_px(cols: u32) -> (r: u32)
    ensures
        r == (if cols * 8 > u32::MAX {
            u32::MAX as int
        } else {
            cols * 8
        }),
{
    if cols > u32::MAX / 8 {
        u32::MAX
    } else {
        cols * 8
    }
}

} // verus!
