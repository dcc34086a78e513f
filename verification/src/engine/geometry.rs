//! Which source pixels a cell covers.

use crate::float;
use crate::float::code;
use crate::float::order;
use crate::float::ratio;
use crate::float::{Double, Single};
use vstd::arithmetic::div_mod::*;
use vstd::arithmetic::power2::*;
use vstd::prelude::*;

verus! {

/// The encoding of one.
pub const ONE: u64 = 0x3ff0_0000_0000_0000;

/// Cell geometry shared by both sampling modes.
#[derive(Clone, Copy, Debug)]
pub struct Geometry {
    pub img_w: u32,
    pub img_h: u32,
    pub cols: u32,
    pub rows: u32,
    pub cell_w: Double,
    pub cell_h: Double,
}

/// A rectangle of source pixels: `x1` and `y1` are outside it.
#[derive(Clone, Copy, Debug, PartialEq, Eq, Structural)]
pub struct Span {
    pub x0: u32,
    pub x1: u32,
    pub y0: u32,
    pub y1: u32,
}

impl Span {
    /// Whether the rectangle has a pixel and lies in an image of the given size.
    pub open spec fn within(self, width: u32, height: u32) -> bool {
        self.x0 < self.x1 <= width && self.y0 < self.y1 <= height
    }
}

/// How many columns an image gets: the width asked for, at least one and at
/// most one per pixel.
pub open spec fn spec_columns(img_w: u32, width: u32) -> u32 {
    if width < 1 {
        1
    } else if width > img_w {
        img_w
    } else {
        width
    }
}

/// The first pixel of the cell with index `at` along a side.
pub open spec fn spec_start(cell: Double, at: u32) -> u32 {
    Double::from_u64(at as u64).times(cell).to_u32()
}

/// The pixel after the last one of the cell with index `at` along a side of
/// `size` pixels.
pub open spec fn spec_stop(cell: Double, at: u32, size: u32) -> u32 {
    let end = spec_start(cell, (at + 1) as u32);
    let end = if end < size {
        end
    } else {
        size
    };
    let least = spec_start(cell, at) + 1;
    if end < least {
        least as u32
    } else {
        end
    }
}

impl Geometry {
    /// The geometry of an image for a requested width and an aspect.
    pub open spec fn of(img_w: u32, img_h: u32, width: u32, aspect: Single) -> Geometry {
        let cols = spec_columns(img_w, width);
        let cell_w = Double::from_u64(img_w as u64).over(Double::from_u64(cols as u64));
        let cell_h = cell_w.times(aspect.to_double()).max(Double { bits: ONE });
        let rows = Double::from_u64(img_h as u64).over(cell_h).to_u32();
        Geometry {
            img_w,
            img_h,
            cols,
            rows: if rows < 1 {
                1
            } else {
                rows
            },
            cell_w,
            cell_h,
        }
    }

    /// Whether every cell starts inside the image.
    pub open spec fn fits(self) -> bool {
        &&& 1 <= self.cols <= self.img_w
        &&& 1 <= self.rows <= self.img_h
        &&& forall|col: u32|
            col < self.cols ==> #[trigger] spec_start(self.cell_w, col) < self.img_w
        &&& forall|row: u32|
            row < self.rows ==> #[trigger] spec_start(self.cell_h, row) < self.img_h
    }

    /// The source pixels of a cell.
    pub open spec fn span(self, row: u32, col: u32) -> Span {
        Span {
            x0: spec_start(self.cell_w, col),
            x1: spec_stop(self.cell_w, col, self.img_w),
            y0: spec_start(self.cell_h, row),
            y1: spec_stop(self.cell_h, row, self.img_h),
        }
    }

    /// The geometry of an image for a requested width and an aspect.
    pub fn new(img_w: u32, img_h: u32, width: u32, aspect: Single) -> (r: Geometry)
        requires
            img_w > 0,
            img_h > 0,
        ensures
            r == Geometry::of(img_w, img_h, width, aspect),
            r.fits(),
    {
        let cols = if width < 1 {
            1
        } else if width > img_w {
            img_w
        } else {
            width
        };
        let cell_w = Double::from_u64(img_w as u64).over(Double::from_u64(cols as u64));
        let cell_h = cell_w.times(aspect.to_double()).max(Double { bits: ONE });
        let rows = Double::from_u64(img_h as u64).over(cell_h).to_u32();
        let rows = if rows < 1 {
            1
        } else {
            rows
        };
        let r = Geometry { img_w, img_h, cols, rows, cell_w, cell_h };
        proof {
            lemma_fits(img_w, img_h, width, aspect);
        }
        r
    }

    /// Source-pixel span of a cell, always at least one pixel wide and tall.
    pub fn cell_bounds(&self, row: u32, col: u32) -> (r: Span)
        requires
            self.fits(),
            row < self.rows,
            col < self.cols,
        ensures
            r == self.span(row, col),
            r.within(self.img_w, self.img_h),
    {
        let (x0, x1) = side(self.cell_w, col, self.img_w);
        let (y0, y1) = side(self.cell_h, row, self.img_h);
        Span { x0, x1, y0, y1 }
    }
}

/// First pixel of a cell along a side, and the one after its last.
fn side(cell: Double, at: u32, size: u32) -> (r: (u32, u32))
    requires
        at < u32::MAX,
        spec_start(cell, at) < size,
    ensures
        r.0 == spec_start(cell, at),
        r.1 == spec_stop(cell, at, size),
        r.0 < r.1 <= size,
{
    let start = Double::from_u64(at as u64).times(cell).to_u32();
    let end = Double::from_u64((at + 1) as u64).times(cell).to_u32();
    let end = if end < size {
        end
    } else {
        size
    };
    if end < start + 1 {
        (start, start + 1)
    } else {
        (start, end)
    }
}

/// The widths of 64-bit numbers that the proofs speak of.
pub proof fn lemma_double()
    ensures
        float::double().valid(),
        float::double().hidden() == 0x10_0000_0000_0000,
        pow2(1074) > 0,
        pow2(1074) >= 2 * float::double().hidden(),
        pow2(1074) == 2 * pow2(1073),
{
    lemma2_to64();
    lemma2_to64_rest();
    lemma_pow2_unfold(1074);
    ratio::lemma_pow2_mono(53, 1074);
}

/// Whole numbers of 32 bits are held exactly.
pub proof fn lemma_small(n: u32)
    ensures
        ({
            let f = float::double();
            let bits = Double::from_u64(n as u64).bits;
            &&& !f.neg(bits)
            &&& f.mag(bits) < f.inf()
            &&& f.mag(bits) == bits
            &&& f.units(f.mag(bits)) == n * pow2(1074)
            &&& (n == 0 ==> f.mag(bits) == 0)
            &&& (n > 0 ==> f.mag(bits) > 0)
        }),
{
    let f = float::double();
    reveal(Double::spec_from_u64);
    lemma_double();
    order::lemma_round_representable(f, n as nat, 1074);
    if n == 0 {
        assert(n as nat * pow2(1074) == 0) by (nonlinear_arith)
            requires
                n == 0,
        ;
        code::lemma_round_zero(f);
    } else {
        assert(n as nat * pow2(1074) > 0) by (nonlinear_arith)
            requires
                n > 0,
                pow2(1074) > 0,
        ;
        code::lemma_round_positive(f, n as nat * pow2(1074));
    }
}

/// What 64-bit one is in units.
pub proof fn lemma_one()
    ensures
        ({
            let f = float::double();
            &&& !f.neg(ONE)
            &&& f.mag(ONE) == ONE
            &&& f.mag(ONE) < f.inf()
            &&& f.units(ONE as nat) == pow2(1074)
        }),
{
    let f = float::double();
    let c: nat = 0x3ff0_0000_0000_0000;
    assert(f.expo(c) == 1022);
    assert(f.mant(c) == 0x10_0000_0000_0000);
    lemma2_to64_rest();
    lemma_pow2_adds(52, 1022);
}

/// A product of a whole number and a finite value, below a bound that lies half
/// a pixel before `size`, is cut to a pixel before `size`.
proof fn lemma_start(cell: Double, at: u32, size: u32)
    requires
        size > 0,
        ({
            let f = float::double();
            let c = f.units(f.mag(cell.bits));
            &&& !f.neg(cell.bits)
            &&& f.mag(cell.bits) < f.inf()
            &&& 2 * (at * c) <= (2 * size - 1) * pow2(1074)
        }),
    ensures
        spec_start(cell, at) < size,
{
    let f = float::double();
    let c = f.units(f.mag(cell.bits));
    let p = pow2(1074);
    let z: nat = at as nat * c;
    let v: nat = ((2 * size - 1) as nat) * pow2(1073);
    lemma_double();
    lemma_small(at);
    assert((at as nat * p) * c == z * p) by (nonlinear_arith)
        requires
            z == at as nat * c,
    ;
    ratio::lemma_round_scale(f, z, 1, p);
    assert(1 * p == p);
    let product = f.round(z, 1);
    order::lemma_round_representable(f, (2 * size - 1) as nat, 1073);
    assert(z <= v) by (nonlinear_arith)
        requires
            2 * z <= (2 * size - 1) * p,
            p == 2 * pow2(1073),
            v == (2 * size - 1) * pow2(1073),
    ;
    order::lemma_round_mono(f, z, 1, v, 1);
    order::lemma_units_mono(f, product, f.round(v, 1));
    let u = f.units(product);
    assert(u < p * size) by (nonlinear_arith)
        requires
            u <= v,
            v == (2 * size - 1) * pow2(1073),
            p == 2 * pow2(1073),
            pow2(1073) > 0,
    ;
    ratio::lemma_div_below(u, p, size as nat);
    reveal(Double::spec_times);
    reveal(Double::spec_to_u64);
}

/// Every cell starts inside the image.
pub proof fn lemma_fits(img_w: u32, img_h: u32, width: u32, aspect: Single)
    requires
        img_w > 0,
        img_h > 0,
    ensures
        Geometry::of(img_w, img_h, width, aspect).fits(),
{
    let g = Geometry::of(img_w, img_h, width, aspect);
    lemma_cell_width(img_w, g.cols);
    assert forall|col: u32| col < g.cols implies #[trigger] spec_start(g.cell_w, col)
        < g.img_w by {
        lemma_column(img_w, g.cols, col);
    }
    lemma_cell_height(g.cell_w.times(aspect.to_double()));
    lemma_rows(img_h, g.cell_h);
    assert forall|row: u32| row < g.rows implies #[trigger] spec_start(g.cell_h, row)
        < g.img_h by {
        lemma_row(img_h, g.cell_h, row);
    }
}

/// A cell width is a finite number that is close to the exact one.
pub proof fn lemma_cell_width(img_w: u32, cols: u32)
    requires
        1 <= cols <= img_w,
    ensures
        ({
            let f = float::double();
            let cell = Double::from_u64(img_w as u64).over(Double::from_u64(cols as u64));
            let c = f.units(f.mag(cell.bits));
            let h = f.hidden();
            &&& !f.neg(cell.bits)
            &&& f.mag(cell.bits) < f.inf()
            &&& c * cols * (2 * h) <= (img_w * pow2(1074)) * (2 * h + 1)
        }),
{
    let f = float::double();
    let p = pow2(1074);
    let h = f.hidden();
    let num: nat = img_w as nat * p;
    let den = cols as nat;
    lemma_double();
    lemma_small(img_w);
    lemma_small(cols);
    ratio::lemma_round_scale(f, num, den, p);
    order::lemma_round_representable(f, img_w as nat, 1074);
    assert(num * 1 <= num * den) by (nonlinear_arith)
        requires
            den >= 1,
            num >= 0,
    ;
    order::lemma_round_mono(f, num, den, num, 1);
    assert(h * den <= num) by (nonlinear_arith)
        requires
            num == img_w as nat * p,
            den <= img_w,
            h <= p,
    ;
    order::lemma_round_over(f, num, den);
    reveal(Double::spec_over);
}

/// Every column starts inside the image.
proof fn lemma_column(img_w: u32, cols: u32, col: u32)
    requires
        1 <= cols <= img_w,
        col < cols,
    ensures
        spec_start(
            Double::from_u64(img_w as u64).over(Double::from_u64(cols as u64)),
            col,
        ) < img_w,
{
    let f = float::double();
    let cell = Double::from_u64(img_w as u64).over(Double::from_u64(cols as u64));
    let c = f.units(f.mag(cell.bits)) as int;
    let p = pow2(1074) as int;
    let h = f.hidden() as int;
    let (w, n, i) = (img_w as int, cols as int, col as int);
    lemma_double();
    lemma_cell_width(img_w, cols);
    let scale = n * (2 * h);
    assert(scale > 0) by (nonlinear_arith)
        requires
            scale == n * (2 * h),
            n > 0,
            h > 0,
    ;
    assert((i * c) * scale <= (n - 1) * (w * p * (2 * h + 1))) by (nonlinear_arith)
        requires
            c * n * (2 * h) <= (w * p) * (2 * h + 1),
            0 <= i <= n - 1,
            scale == n * (2 * h),
            c >= 0,
            w * p * (2 * h + 1) >= 0,
    ;
    assert(2 * ((n - 1) * (w * (2 * h + 1))) <= (2 * w - 1) * scale) by (nonlinear_arith)
        requires
            scale == n * (2 * h),
            1 <= n <= w,
            n <= h,
    ;
    assert(2 * (i * c) <= (2 * w - 1) * p) by (nonlinear_arith)
        requires
            (i * c) * scale <= (n - 1) * (w * p * (2 * h + 1)),
            2 * ((n - 1) * (w * (2 * h + 1))) <= (2 * w - 1) * scale,
            scale > 0,
            p > 0,
    ;
    lemma_start(cell, col, img_w);
}

/// A cell is at least one pixel tall.
pub proof fn lemma_cell_height(raw: Double)
    ensures
        ({
            let f = float::double();
            let cell = raw.max(Double { bits: ONE });
            &&& !f.neg(cell.bits)
            &&& ONE <= f.mag(cell.bits) <= f.inf()
        }),
{
    reveal(Double::spec_less);
    reveal(Double::spec_is_nan);
    lemma_one();
}

/// The number of rows, and what it says of the height of a cell.
pub proof fn lemma_rows(img_h: u32, cell: Double)
    requires
        img_h > 0,
        ({
            let f = float::double();
            &&& !f.neg(cell.bits)
            &&& ONE <= f.mag(cell.bits) <= f.inf()
        }),
    ensures
        ({
            let f = float::double();
            let rows = Double::from_u64(img_h as u64).over(cell).to_u32();
            let c = f.units(f.mag(cell.bits));
            let h = f.hidden();
            &&& rows <= img_h
            &&& rows >= 2 ==> {
                &&& f.mag(cell.bits) < f.inf()
                &&& c >= pow2(1074)
                &&& rows * c * (2 * h) <= (img_h * pow2(1074)) * (2 * h + 1)
            }
        }),
{
    let f = float::double();
    let p = pow2(1074);
    let h = f.hidden();
    let raw = Double::from_u64(img_h as u64).over(cell);
    let rows = raw.to_u32();
    let mag = f.mag(cell.bits);
    let c = f.units(mag);
    lemma_double();
    lemma_one();
    lemma_small(img_h);
    reveal(Double::spec_over);
    reveal(Double::spec_to_u64);
    if mag == f.inf() {
        let q: nat = 0;
        assert(f.units(q) == 0) by {
            assert(0 * pow2(0) == 0);
        }
        lemma_fundamental_div_mod_converse(0, p as int, 0, 0);
        assert(rows == 0);
    } else {
        order::lemma_units_mono(f, ONE as nat, mag);
        let top: nat = (img_h as nat * p) * p;
        let q = f.round(top, c);
        order::lemma_round_representable(f, img_h as nat, 1074);
        assert(top * 1 <= (img_h as nat * p) * c) by (nonlinear_arith)
            requires
                top == (img_h as nat * p) * p,
                p <= c,
                img_h as nat * p >= 0,
        ;
        order::lemma_round_mono(f, top, c, img_h as nat * p, 1);
        order::lemma_units_mono(f, q, f.round(img_h as nat * p, 1));
        let u = f.units(q);
        let n = u / p;
        assert(p * img_h as nat == img_h as nat * p) by (nonlinear_arith);
        lemma_div_is_ordered(u as int, (img_h as nat * p) as int, p as int);
        lemma_div_by_multiple(img_h as int, p as int);
        assert(n <= img_h);
        assert(rows == n);
        if rows >= 2 {
            lemma_fundamental_div_mod(u as int, p as int);
            assert(rows * p <= u) by (nonlinear_arith)
                requires
                    u == p * n + u % p,
                    u % p >= 0,
                    rows == n,
            ;
            assert(u >= 2 * p) by (nonlinear_arith)
                requires
                    rows * p <= u,
                    rows >= 2,
                    p > 0,
            ;
            if h * c > top {
                // Then the quotient would round to less than one.
                order::lemma_round_exact(f, h);
                lemma2_to64();
                assert(f.units(h) == h) by {
                    assert(f.expo(h) == 0);
                    assert(f.mant(h) == h);
                    assert(h * 1 == h);
                }
                assert(top * 1 <= h * c);
                order::lemma_round_mono(f, top, c, h, 1);
                order::lemma_units_mono(f, q, h);
                assert(false);
            }
            order::lemma_round_over(f, top, c);
            let hp = img_h as nat * p;
            assert(rows * c * (2 * h) <= hp * (2 * h + 1)) by (nonlinear_arith)
                requires
                    u * c * (2 * h) <= top * (2 * h + 1),
                    rows * p <= u,
                    top == hp * p,
                    p > 0,
                    c >= 0,
                    h >= 0,
            ;
        }
    }
}

/// Every row starts inside the image.
proof fn lemma_row(img_h: u32, cell: Double, row: u32)
    requires
        img_h > 0,
        ({
            let f = float::double();
            let rows = Double::from_u64(img_h as u64).over(cell).to_u32();
            &&& !f.neg(cell.bits)
            &&& ONE <= f.mag(cell.bits) <= f.inf()
            &&& row == 0 || row < rows
        }),
    ensures
        spec_start(cell, row) < img_h,
{
    let f = float::double();
    let p = pow2(1074) as int;
    let h = f.hidden() as int;
    let c = f.units(f.mag(cell.bits)) as int;
    lemma_double();
    lemma_rows(img_h, cell);
    if row == 0 && f.mag(cell.bits) == f.inf() {
        lemma_small(0);
        reveal(Double::spec_times);
        reveal(Double::spec_to_u64);
        assert(f.is_nan(f.nan()));
    } else if row == 0 {
        assert(2 * (row * c) <= (2 * img_h - 1) * p) by (nonlinear_arith)
            requires
                row == 0,
                img_h >= 1,
                p >= 0,
        ;
        lemma_start(cell, row, img_h);
    } else {
        let rows = Double::from_u64(img_h as u64).over(cell).to_u32() as int;
        let (i, n) = (row as int, img_h as int);
        assert((i * c) * (2 * h) <= (rows - 1) * c * (2 * h)) by (nonlinear_arith)
            requires
                0 <= i <= rows - 1,
                c >= 0,
                h >= 0,
        ;
        assert((rows - 1) * c * (2 * h) <= (n * p) * (2 * h + 1) - p * (2 * h)) by (nonlinear_arith)
            requires
                rows * c * (2 * h) <= (n * p) * (2 * h + 1),
                c >= p,
                h >= 0,
        ;
        assert(2 * (i * c) <= (2 * n - 1) * p) by (nonlinear_arith)
            requires
                (i * c) * (2 * h) <= (n * p) * (2 * h + 1) - p * (2 * h),
                2 * n <= 2 * h,
                h > 0,
                p > 0,
        ;
        lemma_start(cell, row, img_h);
    }
}

/// The span of a cell lies inside the image.
pub proof fn lemma_span(g: Geometry, row: u32, col: u32)
    requires
        g.fits(),
        row < g.rows,
        col < g.cols,
    ensures
        g.span(row, col).within(g.img_w, g.img_h),
{
    assert(spec_start(g.cell_w, col) < g.img_w);
    assert(spec_start(g.cell_h, row) < g.img_h);
}

} // verus!
