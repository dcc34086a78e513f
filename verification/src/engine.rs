//! Core conversion: image to a grid of (character, average color) cells.

use crate::charset::{Charset, SIMPLE};
use crate::engine::braille::{band, braille_row, dither};
use crate::engine::geometry::Geometry;
use crate::engine::sampling::{sample, Sample};
use crate::float::{Double, Single};
use crate::pixels;
use crate::pixels::RgbaImage;
use crate::text;
use rayon::iter::{IntoParallelIterator, ParallelIterator};
use vstd::prelude::*;

pub mod braille;
pub mod cover;
pub mod diffusion;
pub mod exact;
pub mod geometry;
pub mod inverse;
pub mod laws;
pub mod means;
pub mod sampling;
pub mod tiling;
pub mod tones;

verus! {

/// Cells whose mean alpha falls below this are blank by default: low enough to
/// keep antialiased edges, high enough to erase a transparent background.
pub const DEFAULT_ALPHA_THRESHOLD: u8 = 64;

/// The encodings of 255 and of 2.
pub const FULL: u64 = 0x406f_e000_0000_0000;

pub const TWO: u32 = 0x4000_0000;

/// Conversion parameters.
#[derive(Debug, Clone)]
pub struct Options {
    /// Output width in characters (columns). Clamped to the image width.
    pub width: u32,
    /// How cells become characters: a dark to light ramp, or braille dots.
    pub charset: Charset,
    /// Flip the ramp (useful for light terminals and white backgrounds).
    pub invert: bool,
    /// Cell height as a multiple of cell width. Terminal glyphs are roughly
    /// twice as tall as wide, so 2 preserves the image's aspect ratio.
    pub aspect: Single,
    /// Cells whose mean alpha is below this render blank, whatever the charset
    /// or `invert` say: that is what keeps a cutout a cutout.
    pub alpha_threshold: u8,
    /// Composite semi-transparent pixels over this color before sampling, so
    /// edge tones match the surface the art lands on. `None` keeps the
    /// alpha-weighted source color, for transparent output targets.
    pub matte: Option<[u8; 3]>,
    /// Hard luma cutoff for braille dots. `None` dithers instead, which keeps
    /// sub-cell detail in flat regions. Ignored by ramp charsets.
    pub braille_threshold: Option<u8>,
}

impl Default for Options {
    fn default() -> (r: Self)
        ensures
            r.width == 100,
            r.charset matches Charset::Ramp(ramp) && ramp@ == SIMPLE@,
            !r.invert,
            r.aspect.bits == TWO,
            r.alpha_threshold == DEFAULT_ALPHA_THRESHOLD,
            r.matte == Some([255u8, 255u8, 255u8]),
            r.braille_threshold is None,
    {
        let matte = [255u8, 255u8, 255u8];
        assert(matte =~= [255u8, 255u8, 255u8]);
        Options {
            width: 100,
            charset: Charset::Ramp(text::chars_of(SIMPLE)),
            invert: false,
            aspect: Single { bits: TWO },
            alpha_threshold: DEFAULT_ALPHA_THRESHOLD,
            matte: Some(matte),
            braille_threshold: None,
        }
    }
}

/// Why an image was not converted.
#[derive(Debug, Clone, Copy, PartialEq, Eq, Structural)]
pub enum ConvertError {
    EmptyImage,
    ShortCharset,
    BadAspect,
}

impl ConvertError {
    /// What the error says to a user.
    pub open spec fn spec_message(self) -> Seq<char> {
        match self {
            ConvertError::EmptyImage => "input image is empty"@,
            ConvertError::ShortCharset => "charset needs at least 2 characters"@,
            ConvertError::BadAspect => "aspect must be a positive, finite number"@,
        }
    }

    /// What the error says to a user.
    pub fn message(&self) -> (r: String)
        ensures
            r@ == self.spec_message(),
    {
        match self {
            ConvertError::EmptyImage => "input image is empty".to_owned(),
            ConvertError::ShortCharset => "charset needs at least 2 characters".to_owned(),
            ConvertError::BadAspect => "aspect must be a positive, finite number".to_owned(),
        }
    }
}

/// What a conversion says of one cell.
#[derive(Clone, Copy, Debug)]
pub struct Cell {
    pub ch: char,
    pub color: [u8; 3],
    pub alpha: u8,
}

/// The result of a conversion: a row-major grid of characters plus the average
/// color and alpha of each source cell.
#[derive(Debug, Clone)]
pub struct AsciiGrid {
    pub cols: u32,
    pub rows: u32,
    pub chars: Vec<char>,
    pub colors: Vec<[u8; 3]>,
    /// Mean source alpha per cell; 255 everywhere for opaque inputs.
    pub alphas: Vec<u8>,
}

/// The index of a cell in row-major order.
pub open spec fn cell_index(cols: u32, row: int, col: int) -> int {
    row * cols + col
}

impl AsciiGrid {
    /// Whether there is one entry per cell.
    pub open spec fn wf(&self) -> bool {
        &&& self.chars@.len() == self.rows * self.cols
        &&& self.colors@.len() == self.rows * self.cols
        &&& self.alphas@.len() == self.rows * self.cols
    }

    /// The cell in column `col` of row `row`.
    pub open spec fn cell(&self, row: int, col: int) -> Cell {
        let i = cell_index(self.cols, row, col);
        Cell { ch: self.chars@[i], color: self.colors@[i], alpha: self.alphas@[i] }
    }

    /// The position of a cell.
    fn index(&self, row: u32, col: u32, Ghost(len): Ghost<usize>) -> (r: usize)
        requires
            cell_index(self.cols, row as int, col as int) < len,
        ensures
            r == cell_index(self.cols, row as int, col as int),
    {
        proof {
            pixels::lemma_size(row, self.cols);
        }
        (row as u64 * self.cols as u64 + col as u64) as usize
    }

    pub fn char_at(&self, row: u32, col: u32) -> (r: char)
        requires
            cell_index(self.cols, row as int, col as int) < self.chars@.len(),
        ensures
            r == self.chars@[cell_index(self.cols, row as int, col as int)],
    {
        self.chars[self.index(row, col, Ghost(self.chars.len()))]
    }

    pub fn color_at(&self, row: u32, col: u32) -> (r: [u8; 3])
        requires
            cell_index(self.cols, row as int, col as int) < self.colors@.len(),
        ensures
            r == self.colors@[cell_index(self.cols, row as int, col as int)],
    {
        self.colors[self.index(row, col, Ghost(self.colors.len()))]
    }

    pub fn alpha_at(&self, row: u32, col: u32) -> (r: u8)
        requires
            cell_index(self.cols, row as int, col as int) < self.alphas@.len(),
        ensures
            r == self.alphas@[cell_index(self.cols, row as int, col as int)],
    {
        self.alphas[self.index(row, col, Ghost(self.alphas.len()))]
    }

    /// Whether any cell carries partial transparency.
    pub open spec fn spec_has_alpha(&self) -> bool {
        exists|i: int| 0 <= i < self.alphas@.len() && #[trigger] self.alphas@[i] < 255
    }

    /// Whether any cell carries partial transparency.
    #[verifier::when_used_as_spec(spec_has_alpha)]
    pub fn has_alpha(&self) -> (r: bool)
        ensures
            r == self.spec_has_alpha(),
    {
        let mut i: usize = 0;
        while i < self.alphas.len()
            invariant
                i <= self.alphas@.len(),
                forall|j: int| 0 <= j < i ==> self.alphas@[j] == 255,
            decreases self.alphas@.len() - i,
        {
            if self.alphas[i] < 255 {
                return true;
            }
            i = i + 1;
        }
        false
    }
}

/// The index of the ramp character for a luma, in a ramp of `n` characters.
pub open spec fn ramp_index(luma: Double, n: usize, invert: bool) -> usize {
    let raw = luma.times(Double::from_u64(n as u64)).over(Double { bits: FULL }).to_u64();
    let i = if raw < n {
        raw as int
    } else {
        n - 1
    };
    if invert {
        (n - 1 - i) as usize
    } else {
        i as usize
    }
}

/// The cell of a ramp conversion, from the sample of its source pixels.
pub open spec fn ramp_cell(s: Sample, ramp: Seq<char>, invert: bool, threshold: u8) -> Cell {
    Cell {
        ch: if s.alpha < threshold {
            ' '
        } else {
            ramp[ramp_index(s.luma, ramp.len() as usize, invert) as int]
        },
        color: s.color,
        alpha: s.alpha,
    }
}

/// The geometry of a conversion.
pub open spec fn grid_geometry(image: &RgbaImage, opts: &Options) -> Geometry {
    Geometry::of(image.width(), image.height(), opts.width, opts.aspect)
}

/// The cell that a conversion puts into column `col` of row `row`.
pub open spec fn spec_cell(image: &RgbaImage, opts: &Options, row: int, col: int) -> Cell {
    let g = grid_geometry(image, opts);
    match opts.charset {
        Charset::Ramp(ramp) => {
            let span = g.span(row as u32, col as u32);
            ramp_cell(
                sampling::spec_sample(image, span, opts.matte),
                ramp@,
                opts.invert,
                opts.alpha_threshold,
            )
        },
        Charset::Braille => {
            let dots = braille::spec_dots(image, g, opts.matte);
            braille::spec_braille_cell(
                dots,
                braille::spec_lit(dots, g, opts),
                opts.alpha_threshold,
                g.cols,
                row,
                col,
            )
        },
    }
}

/// Whether an aspect cannot be used.
pub open spec fn bad_aspect(aspect: Single) -> bool {
    !aspect.is_finite() || aspect.at_most(Single { bits: 0 })
}

/// What keeps an image from being converted.
pub open spec fn convert_error(image: &RgbaImage, opts: &Options) -> Option<ConvertError> {
    if image.width() == 0 || image.height() == 0 {
        Some(ConvertError::EmptyImage)
    } else if opts.charset matches Charset::Ramp(ramp) && ramp@.len() < 2 {
        Some(ConvertError::ShortCharset)
    } else if bad_aspect(opts.aspect) {
        Some(ConvertError::BadAspect)
    } else {
        None
    }
}

/// What a conversion gives for an image that can be converted.
pub open spec fn is_conversion(grid: &AsciiGrid, image: &RgbaImage, opts: &Options) -> bool {
    let g = grid_geometry(image, opts);
    &&& grid.cols == g.cols
    &&& grid.rows == g.rows
    &&& grid.wf()
    &&& forall|row: int, col: int|
        0 <= row < g.rows && 0 <= col < g.cols ==> #[trigger] grid.cell(row, col) == spec_cell(
            image,
            opts,
            row,
            col,
        )
}

/// One row of output cells.
#[derive(Debug)]
pub struct Row {
    pub chars: Vec<char>,
    pub colors: Vec<[u8; 3]>,
    pub alphas: Vec<u8>,
}

impl Row {
    /// Whether the row has `cols` cells.
    pub open spec fn wf(&self, cols: u32) -> bool {
        &&& self.chars@.len() == cols
        &&& self.colors@.len() == cols
        &&& self.alphas@.len() == cols
    }

    /// The cell in column `col`.
    pub open spec fn cell(&self, col: int) -> Cell {
        Cell { ch: self.chars@[col], color: self.colors@[col], alpha: self.alphas@[col] }
    }

    /// A row without cells.
    pub fn new() -> (r: Row)
        ensures
            r.wf(0),
    {
        Row { chars: Vec::new(), colors: Vec::new(), alphas: Vec::new() }
    }

    /// Appends a cell.
    pub fn push(&mut self, cell: Cell)
        requires
            old(self).wf(old(self).chars@.len() as u32),
            old(self).chars@.len() < u32::MAX,
        ensures
            final(self).wf((old(self).chars@.len() + 1) as u32),
            final(self).cell(old(self).chars@.len() as int) == cell,
            forall|col: int|
                0 <= col < old(self).chars@.len() ==> #[trigger] final(self).cell(col) == old(self).cell(col),
    {
        self.chars.push(cell.ch);
        self.colors.push(cell.color);
        self.alphas.push(cell.alpha);
    }
}

/// Applies `f` to every row, in parallel.
///
/// Trusted: `rayon`'s `map` and `collect` on the parallel iterator of a range
/// call `f` once for each index of the range, and collect what the calls return
/// in the order of the indices.
#[verifier::external_body]
fn map_rows<T: Send, F: Fn(u32) -> T + Send + Sync>(rows: u32, f: F) -> (r: Vec<T>)
    requires
        forall|row: u32| row < rows ==> #[trigger] call_requires(f, (row,)),
    ensures
        r@.len() == rows,
        forall|row: u32| row < rows ==> #[trigger] call_ensures(f, (row,), r@[row as int]),
{
    (0..rows).into_par_iter().map(f).collect()
}

/// Puts rows of `cols` cells below each other.
pub fn assemble(rows: &Vec<Row>, cols: u32) -> (r: AsciiGrid)
    requires
        rows@.len() <= u32::MAX,
        forall|row: int| 0 <= row < rows@.len() ==> #[trigger] rows@[row].wf(cols),
    ensures
        r.cols == cols,
        r.rows == rows@.len(),
        r.wf(),
        forall|row: int, col: int|
            0 <= row < rows@.len() && 0 <= col < cols ==> #[trigger] r.cell(row, col)
                == rows@[row].cell(col),
{
    let mut grid = AsciiGrid {
        cols,
        rows: rows.len() as u32,
        chars: Vec::new(),
        colors: Vec::new(),
        alphas: Vec::new(),
    };
    let mut y: usize = 0;
    assert(0 * cols == 0) by (nonlinear_arith);
    while y < rows.len()
        invariant
            grid.cols == cols,
            grid.rows == rows@.len(),
            y <= rows@.len(),
            rows@.len() <= u32::MAX,
            forall|row: int| 0 <= row < rows@.len() ==> #[trigger] rows@[row].wf(cols),
            grid.chars@.len() == y * cols,
            grid.colors@.len() == y * cols,
            grid.alphas@.len() == y * cols,
            forall|row: int, col: int|
                0 <= row < y && 0 <= col < cols ==> #[trigger] grid.cell(row, col)
                    == rows@[row].cell(col),
        decreases rows@.len() - y,
    {
        let row = &rows[y];
        let ghost before = grid;
        assert(row.wf(cols));
        let mut x: u32 = 0;
        while x < cols
            invariant
                x <= cols,
                row.wf(cols),
                grid.cols == cols,
                grid.rows == before.rows,
                before.chars@.len() == y * cols,
                before.colors@.len() == y * cols,
                before.alphas@.len() == y * cols,
                grid.chars@ =~= before.chars@ + row.chars@.take(x as int),
                grid.colors@ =~= before.colors@ + row.colors@.take(x as int),
                grid.alphas@ =~= before.alphas@ + row.alphas@.take(x as int),
            decreases cols - x,
        {
            grid.chars.push(row.chars[x as usize]);
            grid.colors.push(row.colors[x as usize]);
            grid.alphas.push(row.alphas[x as usize]);
            x = x + 1;
        }
        proof {
            assert((y + 1) * cols == y * cols + cols) by (nonlinear_arith);
            assert forall|r: int, col: int| 0 <= r < y + 1 && 0 <= col
                < cols implies #[trigger] grid.cell(r, col) == rows@[r].cell(col) by {
                if r < y {
                    assert(0 <= r * cols && r * cols + col < y * cols) by (nonlinear_arith)
                        requires
                            0 <= r,
                            r + 1 <= y,
                            0 <= col < cols,
                    ;
                    assert(before.cell(r, col) == rows@[r].cell(col));
                }
            }
        }
        y = y + 1;
    }
    grid
}

/// Converts an RGBA image into an [`AsciiGrid`].
///
/// Each output cell averages a block of source pixels; the block's luma picks a
/// character and the block's mean color becomes the cell color. With
/// [`Charset::Braille`] each cell is instead sampled as a grid of dots, two wide
/// and four tall, and composed into one braille pattern.
///
/// Cells whose mean alpha is below [`Options::alpha_threshold`] come out blank,
/// so images with transparent backgrounds stay cutouts.
pub fn convert(image: &RgbaImage, opts: &Options) -> (r: Result<AsciiGrid, ConvertError>)
    requires
        image.wf(),
    ensures
        match r {
            Ok(grid) => convert_error(image, opts) is None && is_conversion(&grid, image, opts),
            Err(e) => convert_error(image, opts) == Some(e),
        },
{
    let (img_w, img_h) = image.dimensions();
    if img_w == 0 || img_h == 0 {
        return Err(ConvertError::EmptyImage);
    }
    if let Charset::Ramp(ramp) = &opts.charset {
        if ramp.len() < 2 {
            return Err(ConvertError::ShortCharset);
        }
    }
    if !opts.aspect.is_finite() || opts.aspect.at_most(Single { bits: 0 }) {
        return Err(ConvertError::BadAspect);
    }
    let geom = Geometry::new(img_w, img_h, opts.width, opts.aspect);
    Ok(
        match &opts.charset {
            Charset::Ramp(ramp) => convert_ramp(image, opts, &geom, ramp),
            Charset::Braille => convert_braille(image, opts, &geom),
        },
    )
}

/// One row of a ramp conversion.
fn ramp_row(
    image: &RgbaImage,
    opts: &Options,
    geom: &Geometry,
    ramp: &Vec<char>,
    row: u32,
) -> (out: Row)
    requires
        image.wf(),
        geom.fits(),
        geom.img_w == image.width(),
        geom.img_h == image.height(),
        row < geom.rows,
        ramp@.len() > 0,
    ensures
        out.wf(geom.cols),
        forall|col: int|
            0 <= col < geom.cols ==> #[trigger] out.cell(col) == ramp_cell(
                sampling::spec_sample(image, geom.span(row, col as u32), opts.matte),
                ramp@,
                opts.invert,
                opts.alpha_threshold,
            ),
{
    let n = ramp.len();
    let mut out = Row::new();
    let mut col: u32 = 0;
    while col < geom.cols
        invariant
            image.wf(),
            geom.fits(),
            geom.img_w == image.width(),
            geom.img_h == image.height(),
            row < geom.rows,
            n == ramp@.len(),
            n > 0,
            col <= geom.cols,
            out.wf(col),
            forall|c: int|
                0 <= c < col ==> #[trigger] out.cell(c) == ramp_cell(
                    sampling::spec_sample(image, geom.span(row, c as u32), opts.matte),
                    ramp@,
                    opts.invert,
                    opts.alpha_threshold,
                ),
        decreases geom.cols - col,
    {
        let s = sample(image, geom.cell_bounds(row, col), opts.matte);
        let ch = if s.alpha < opts.alpha_threshold {
            ' '
        } else {
            let raw = s.luma.times(Double::from_u64(n as u64)).over(Double { bits: FULL }).to_u64();
            let at: usize = if raw < n as u64 {
                raw as usize
            } else {
                n - 1
            };
            let at = if opts.invert {
                n - 1 - at
            } else {
                at
            };
            ramp[at]
        };
        out.push(Cell { ch, color: s.color, alpha: s.alpha });
        col = col + 1;
    }
    out
}

fn convert_ramp(image: &RgbaImage, opts: &Options, geom: &Geometry, ramp: &Vec<char>) -> (r:
    AsciiGrid)
    requires
        image.wf(),
        geom.fits(),
        *geom == grid_geometry(image, opts),
        ramp@.len() > 0,
        opts.charset == Charset::Ramp(*ramp),
    ensures
        is_conversion(&r, image, opts),
{
    let one = |row: u32| -> (out: Row)
        requires
            row < geom.rows,
        ensures
            out.wf(geom.cols),
            forall|col: int|
                0 <= col < geom.cols ==> #[trigger] out.cell(col) == ramp_cell(
                    sampling::spec_sample(image, geom.span(row, col as u32), opts.matte),
                    ramp@,
                    opts.invert,
                    opts.alpha_threshold,
                ),
        { ramp_row(image, opts, geom, ramp, row) };
    let rows = map_rows(geom.rows, one);
    proof {
        assert forall|row: int| 0 <= row < rows@.len() implies #[trigger] rows@[row].wf(
            geom.cols,
        ) by {
            assert(call_ensures(one, (row as u32,), rows@[row]));
        }
    }
    let r = assemble(&rows, geom.cols);
    proof {
        assert forall|row: int, col: int|
            0 <= row < geom.rows && 0 <= col < geom.cols implies #[trigger] r.cell(row, col)
            == spec_cell(image, opts, row, col) by {
            assert(call_ensures(one, (row as u32,), rows@[row]));
            assert(r.cell(row, col) == rows@[row].cell(col));
        }
    }
    r
}

/// Sub-cell sampling: every cell becomes a grid of dots, each turned on or off,
/// then packed into a braille pattern.
fn convert_braille(image: &RgbaImage, opts: &Options, geom: &Geometry) -> (r: AsciiGrid)
    requires
        image.wf(),
        geom.fits(),
        *geom == grid_geometry(image, opts),
        opts.charset is Braille,
    ensures
        is_conversion(&r, image, opts),
{
    // First, sample every dot, in raster order across the whole grid of dots.
    let one = |row: u32| -> (out: Vec<Sample>)
        requires
            row < geom.rows,
        ensures
            out@ == braille::spec_band(image, *geom, opts.matte, row as int),
        { band(image, geom, opts.matte, row) };
    let bands = map_rows(geom.rows, one);
    proof {
        assert forall|row: int| 0 <= row < bands@.len() implies #[trigger] bands@[row]@
            == braille::spec_band(image, *geom, opts.matte, row) by {
            assert(call_ensures(one, (row as u32,), bands@[row]));
        }
    }
    let dots = braille::flatten(&bands, Ghost(image), geom, Ghost(opts.matte));

    // Then decide which dots are ink.
    assert(geom.rows * (8 * geom.cols) == (2 * geom.cols) * (4 * geom.rows)) by (nonlinear_arith);
    let lit = match opts.braille_threshold {
        Some(t) => braille::cut(&dots, t, opts.invert, opts.alpha_threshold),
        None => dither(
            &dots,
            2 * geom.cols as u64,
            4 * geom.rows as u64,
            opts.invert,
            opts.alpha_threshold,
        ),
    };
    assert(lit@ == braille::spec_lit(dots@, *geom, opts));

    // Then pack the dots of each cell into one pattern.
    let pack = |row: u32| -> (out: Row)
        requires
            row < geom.rows,
        ensures
            out.wf(geom.cols),
            forall|col: int|
                0 <= col < geom.cols ==> #[trigger] out.cell(col) == braille::spec_braille_cell(
                    dots@,
                    lit@,
                    opts.alpha_threshold,
                    geom.cols,
                    row as int,
                    col,
                ),
        { braille_row(&dots, &lit, opts.alpha_threshold, geom, row) };
    let rows = map_rows(geom.rows, pack);
    proof {
        assert forall|row: int| 0 <= row < rows@.len() implies #[trigger] rows@[row].wf(
            geom.cols,
        ) by {
            assert(call_ensures(pack, (row as u32,), rows@[row]));
        }
    }
    let r = assemble(&rows, geom.cols);
    proof {
        assert forall|row: int, col: int|
            0 <= row < geom.rows && 0 <= col < geom.cols implies #[trigger] r.cell(row, col)
            == spec_cell(image, opts, row, col) by {
            assert(call_ensures(pack, (row as u32,), rows@[row]));
            assert(r.cell(row, col) == rows@[row].cell(col));
        }
    }
    r
}

} // verus!
