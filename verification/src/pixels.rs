//! The pixel buffer that everything upstream of the engine ends in.

use vstd::arithmetic::div_mod::*;
use vstd::prelude::*;

verus! {

/// An image of red, green, blue and alpha bytes, row by row, with straight
/// (not premultiplied) alpha.
#[derive(Clone, Debug)]
pub struct RgbaImage {
    width: u32,
    height: u32,
    data: Vec<u8>,
}

/// The index of a pixel in row-major order.
pub open spec fn pixel_index(width: u32, x: int, y: int) -> int {
    y * width + x
}

impl View for RgbaImage {
    type V = Seq<u8>;

    closed spec fn view(&self) -> Seq<u8> {
        self.data@
    }
}

impl RgbaImage {
    pub closed spec fn spec_width(&self) -> u32 {
        self.width
    }

    pub closed spec fn spec_height(&self) -> u32 {
        self.height
    }

    /// Whether the buffer holds four bytes for every pixel.
    pub open spec fn wf(&self) -> bool {
        self@.len() == 4 * (self.spec_width() * self.spec_height())
    }

    /// The pixel in column `x` of row `y`.
    pub open spec fn pixel(&self, x: int, y: int) -> [u8; 4] {
        let at = 4 * pixel_index(self.spec_width(), x, y);
        [self@[at], self@[at + 1], self@[at + 2], self@[at + 3]]
    }

    /// Whether two images have the same size and the same pixels.
    pub open spec fn same(&self, other: &RgbaImage) -> bool {
        &&& self.spec_width() == other.spec_width()
        &&& self.spec_height() == other.spec_height()
        &&& self@ == other@
    }

    /// An image has no more bytes than a vector can hold.
    pub proof fn lemma_bytes(&self)
        ensures
            self@.len() <= usize::MAX,
    {
        assert(self.data.len() == self.data@.len());
    }

    /// The number of columns.
    #[verifier::when_used_as_spec(spec_width)]
    pub fn width(&self) -> (r: u32)
        ensures
            r == self.spec_width(),
    {
        self.width
    }

    /// The number of rows.
    #[verifier::when_used_as_spec(spec_height)]
    pub fn height(&self) -> (r: u32)
        ensures
            r == self.spec_height(),
    {
        self.height
    }

    /// Number of columns and number of rows.
    pub fn dimensions(&self) -> (r: (u32, u32))
        ensures
            r == (self.width(), self.height()),
    {
        (self.width, self.height)
    }

    /// The bytes of the image.
    pub fn as_raw(&self) -> (r: &Vec<u8>)
        ensures
            r@ == self@,
    {
        &self.data
    }

    /// The bytes of the image.
    pub fn into_raw(self) -> (r: Vec<u8>)
        ensures
            r@ == self@,
    {
        self.data
    }

    /// An image of the given size over `data`, or `None` where `data` is not
    /// exactly four bytes for every pixel.
    pub fn from_raw(width: u32, height: u32, data: Vec<u8>) -> (r: Option<RgbaImage>)
        ensures
            match r {
                Some(image) => {
                    &&& data@.len() == 4 * (width * height)
                    &&& image.wf()
                    &&& image.width() == width
                    &&& image.height() == height
                    &&& image@ == data@
                },
                None => data@.len() != 4 * (width * height),
            },
    {
        proof {
            lemma_size(width, height);
        }
        if data.len() as u128 == 4 * (width as u128 * height as u128) {
            Some(RgbaImage { width, height, data })
        } else {
            None
        }
    }

    /// An image in which every pixel is `pixel`.
    pub fn from_pixel(width: u32, height: u32, pixel: [u8; 4]) -> (r: RgbaImage)
        requires
            4 * (width * height) <= usize::MAX,
        ensures
            r.wf(),
            r.width() == width,
            r.height() == height,
            forall|x: int, y: int|
                0 <= x < width && 0 <= y < height ==> #[trigger] r.pixel(x, y) == pixel,
    {
        proof {
            lemma_size(width, height);
        }
        let count = (width as u64 * height as u64) as usize;
        let mut data: Vec<u8> = Vec::new();
        let mut i: usize = 0;
        while i < count
            invariant
                i <= count,
                data@.len() == 4 * i,
                forall|j: int| 0 <= j < data@.len() ==> #[trigger] data@[j] == pixel[j % 4],
            decreases count - i,
        {
            data.push(pixel[0]);
            data.push(pixel[1]);
            data.push(pixel[2]);
            data.push(pixel[3]);
            i = i + 1;
        }
        let r = RgbaImage { width, height, data };
        assert forall|x: int, y: int| 0 <= x < width && 0 <= y < height implies #[trigger] r.pixel(
            x,
            y,
        ) == pixel by {
            lemma_index(width, height, x, y);
            assert(r.pixel(x, y) =~= pixel);
        }
        r
    }

    /// An image of transparent black.
    pub fn new(width: u32, height: u32) -> (r: RgbaImage)
        requires
            4 * (width * height) <= usize::MAX,
        ensures
            r.wf(),
            r.width() == width,
            r.height() == height,
            forall|x: int, y: int|
                0 <= x < width && 0 <= y < height ==> #[trigger] r.pixel(x, y) == [
                    0u8,
                    0u8,
                    0u8,
                    0u8,
                ],
    {
        RgbaImage::from_pixel(width, height, [0, 0, 0, 0])
    }

    /// A copy of the image.
    pub fn duplicate(&self) -> (r: RgbaImage)
        ensures
            r.same(self),
    {
        let mut data: Vec<u8> = Vec::new();
        let mut i: usize = 0;
        while i < self.data.len()
            invariant
                i <= self.data@.len(),
                data@ =~= self.data@.take(i as int),
            decreases self.data@.len() - i,
        {
            data.push(self.data[i]);
            i = i + 1;
        }
        assert(data@ =~= self.data@);
        RgbaImage { width: self.width, height: self.height, data }
    }

    /// Where the bytes of a pixel start.
    fn offset(&self, x: u32, y: u32) -> (r: usize)
        requires
            self.wf(),
            x < self.width(),
            y < self.height(),
        ensures
            r == 4 * pixel_index(self.width(), x as int, y as int),
            r + 3 < self@.len(),
    {
        proof {
            lemma_size(self.width, self.height);
            lemma_index(self.width, self.height, x as int, y as int);
        }
        assert(self@.len() == self.data.len());
        (4 * (y as u128 * self.width as u128 + x as u128)) as usize
    }

    /// The pixel in column `x` of row `y`.
    pub fn get_pixel(&self, x: u32, y: u32) -> (r: [u8; 4])
        requires
            self.wf(),
            x < self.width(),
            y < self.height(),
        ensures
            r == self.pixel(x as int, y as int),
    {
        let at = self.offset(x, y);
        let r = [self.data[at], self.data[at + 1], self.data[at + 2], self.data[at + 3]];
        assert(r =~= self.pixel(x as int, y as int));
        r
    }

    /// Replaces the pixel in column `x` of row `y`.
    pub fn put_pixel(&mut self, x: u32, y: u32, pixel: [u8; 4])
        requires
            old(self).wf(),
            x < old(self).width(),
            y < old(self).height(),
        ensures
            final(self).wf(),
            final(self).width() == old(self).width(),
            final(self).height() == old(self).height(),
            final(self).pixel(x as int, y as int) == pixel,
            forall|i: int, j: int|
                0 <= i < old(self).width() && 0 <= j < old(self).height() && !(i == x && j == y)
                    ==> #[trigger] final(self).pixel(i, j) == old(self).pixel(i, j),
    {
        let ghost before = *self;
        let at = self.offset(x, y);
        self.data.set(at, pixel[0]);
        self.data.set(at + 1, pixel[1]);
        self.data.set(at + 2, pixel[2]);
        self.data.set(at + 3, pixel[3]);
        proof {
            assert(self.pixel(x as int, y as int) =~= pixel);
            assert forall|i: int, j: int|
                0 <= i < before.width() && 0 <= j < before.height() && !(i == x && j
                    == y) implies #[trigger] self.pixel(i, j) == before.pixel(i, j) by {
                lemma_index(before.width, before.height, i, j);
                lemma_index_injective(before.width, i, j, x as int, y as int);
                assert(self.pixel(i, j) =~= before.pixel(i, j));
            }
        }
    }
}

/// Sizes of images fit the widest integer.
pub proof fn lemma_size(width: u32, height: u32)
    ensures
        0 <= width * height <= 0xffff_fffe_0000_0001,
{
    assert(0 <= width * height <= 0xffff_ffff * 0xffff_ffff) by (nonlinear_arith)
        requires
            0 <= width <= 0xffff_ffff,
            0 <= height <= 0xffff_ffff,
    ;
}

/// Pixels lie inside the buffer.
pub proof fn lemma_index(width: u32, height: u32, x: int, y: int)
    requires
        0 <= x < width,
        0 <= y < height,
    ensures
        0 <= pixel_index(width, x, y) < width * height,
        y * width >= 0,
{
    assert(0 <= y * width && y * width + x < width * height) by (nonlinear_arith)
        requires
            0 <= x < width,
            0 <= y,
            y + 1 <= height,
    ;
}

/// Different pixels have different indices.
pub proof fn lemma_index_injective(width: u32, x: int, y: int, i: int, j: int)
    requires
        0 <= x < width,
        0 <= i < width,
    ensures
        pixel_index(width, x, y) == pixel_index(width, i, j) ==> x == i && y == j,
{
    lemma_fundamental_div_mod_converse(pixel_index(width, x, y), width as int, y, x);
    lemma_fundamental_div_mod_converse(pixel_index(width, i, j), width as int, j, i);
}

} // verus!
