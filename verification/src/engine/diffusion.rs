//! How errors spread in dithered conversions.

use crate::engine;
use crate::engine::braille;
use crate::engine::exact;
use crate::engine::sampling;
use crate::engine::sampling::Sample;
use crate::engine::Options;
use crate::float::Single;
use crate::pixels::RgbaImage;
use vstd::arithmetic::div_mod::*;
use vstd::prelude::*;

verus! {

/// What a dot of the given level is off by when it is drawn: its level where it is ink, which
/// has level 0, else what it has above 255.
pub open spec fn error_of(level: Single) -> Single {
    if level.less((Single { bits: 0x4300_0000 })) {
        level.minus((Single { bits: 0 }))
    } else {
        level.minus((Single { bits: 0x437f_0000 }))
    }
}

/// A level with a share of the error of dot `j`, if that dot is visible.
pub open spec fn shared(
    level: Single,
    dots: Seq<Sample>,
    levels: Seq<Single>,
    threshold: u8,
    j: int,
    share: u32,
) -> Single {
    if dots[j].alpha < threshold {
        level
    } else {
        level.plus(error_of(levels[j]).times((Single { bits: share })))
    }
}

/// The level of the dot in column `x` of row `y`, from the dots before it: its luma, or what that
/// is below 255 where inverted; and in this order 1/16 of the error of the dot above to the
/// left, 5/16 of that of the one above, 3/16 of that of the one above to the right, and 7/16 of
/// that of the one to the left, of those that there are among the first `n` dots.
pub open spec fn gathered(
    dots: Seq<Sample>,
    levels: Seq<Single>,
    w: int,
    invert: bool,
    threshold: u8,
    x: int,
    y: int,
    n: int,
) -> Single {
    let i = y * w + x;
    let first = if invert {
        (Single { bits: 0x437f_0000 }).minus(dots[i].luma.to_single())
    } else {
        dots[i].luma.to_single()
    };
    let second = if y > 0 && x > 0 && i - w - 1 < n {
        shared(first, dots, levels, threshold, i - w - 1, 0x3d80_0000)
    } else {
        first
    };
    let third = if y > 0 && i - w < n {
        shared(second, dots, levels, threshold, i - w, 0x3ea0_0000)
    } else {
        second
    };
    let fourth = if y > 0 && x + 1 < w && i - w + 1 < n {
        shared(third, dots, levels, threshold, i - w + 1, 0x3e40_0000)
    } else {
        third
    };
    if x > 0 && i - 1 < n {
        shared(fourth, dots, levels, threshold, i - 1, 0x3ee0_0000)
    } else {
        fourth
    }
}

/// Places in raster order are told apart by column and row.
proof fn lemma_place(w: int, x: int, y: int, i: int, j: int)
    requires
        0 <= x < w,
        0 <= i < w,
    ensures
        (y * w + x == j * w + i) == (x == i && y == j),
{
    if y * w + x == j * w + i {
        assert(y == j) by (nonlinear_arith)
            requires
                y * w + x == j * w + i,
                0 <= x < w,
                0 <= i < w,
        ;
    }
}

/// Where a share goes.
proof fn lemma_nudged(
    levels: Seq<Single>,
    w: int,
    h: int,
    i: int,
    j: int,
    share: Single,
    x: int,
    y: int,
)
    requires
        levels.len() == w * h,
        0 <= x < w,
        0 <= y < h,
    ensures
        braille::nudged(levels, w, h, i, j, share).len() == w * h,
        braille::nudged(levels, w, h, i, j, share)[y * w + x] == if x == i && y == j {
            levels[y * w + x].plus(share)
        } else {
            levels[y * w + x]
        },
{
    if 0 <= i < w && 0 <= j < h {
        lemma_place(w, x, y, i, j);
        assert(0 <= y * w + x < w * h) by (nonlinear_arith)
            requires
                0 <= x < w,
                0 <= y,
                y + 1 <= h,
        ;
        assert(0 <= j * w + i < w * h) by (nonlinear_arith)
            requires
                0 <= i < w,
                0 <= j,
                j + 1 <= h,
        ;
    }
}

/// Where the shares of an error go.
proof fn lemma_diffused(
    levels: Seq<Single>,
    w: int,
    h: int,
    i: int,
    j: int,
    error: Single,
    x: int,
    y: int,
)
    requires
        levels.len() == w * h,
        0 <= x < w,
        0 <= y < h,
    ensures
        braille::diffused(levels, w, h, i, j, error).len() == w * h,
        braille::diffused(levels, w, h, i, j, error)[y * w + x] == if x == i + 1 && y == j {
            levels[y * w + x].plus(error.times((Single { bits: 0x3ee0_0000 })))
        } else if x == i - 1 && y == j + 1 {
            levels[y * w + x].plus(error.times((Single { bits: 0x3e40_0000 })))
        } else if x == i && y == j + 1 {
            levels[y * w + x].plus(error.times((Single { bits: 0x3ea0_0000 })))
        } else if x == i + 1 && y == j + 1 {
            levels[y * w + x].plus(error.times((Single { bits: 0x3d80_0000 })))
        } else {
            levels[y * w + x]
        },
{
    let (a, b, c, d) = (
        error.times((Single { bits: braille::RIGHT })),
        error.times((Single { bits: braille::DOWN_LEFT })),
        error.times((Single { bits: braille::DOWN })),
        error.times((Single { bits: braille::DOWN_RIGHT })),
    );
    let one = braille::nudged(levels, w, h, i + 1, j, a);
    let two = braille::nudged(one, w, h, i - 1, j + 1, b);
    let three = braille::nudged(two, w, h, i, j + 1, c);
    lemma_nudged(levels, w, h, i + 1, j, a, x, y);
    lemma_nudged(one, w, h, i - 1, j + 1, b, x, y);
    lemma_nudged(two, w, h, i, j + 1, c, x, y);
    lemma_nudged(three, w, h, i + 1, j + 1, d, x, y);
}

/// There are as many levels and decisions as dots.
proof fn lemma_lens(dots: Seq<Sample>, w: int, h: int, invert: bool, threshold: u8, n: nat)
    requires
        0 < w,
        0 < h,
        dots.len() == w * h,
        n <= dots.len(),
    ensures
        braille::dithered(dots, w, h, invert, threshold, n).0.len() == dots.len(),
        braille::dithered(dots, w, h, invert, threshold, n).1.len() == dots.len(),
    decreases n,
{
    if n > 0 {
        let i = n - 1;
        lemma_lens(dots, w, h, invert, threshold, i as nat);
        let (levels, lit) = braille::dithered(dots, w, h, invert, threshold, i as nat);
        if dots[i].alpha >= threshold {
            lemma_diffused(levels, w, h, i % w, i / w, error_of(levels[i]), 0, 0);
        }
    }
}

/// What the step of dot `n` does to the level of the dot in column `x` of row `y`.
proof fn lemma_step(
    dots: Seq<Sample>,
    w: int,
    h: int,
    invert: bool,
    threshold: u8,
    n: nat,
    x: int,
    y: int,
)
    requires
        0 < w,
        0 < h,
        dots.len() == w * h,
        n < dots.len(),
        0 <= x < w,
        0 <= y < h,
    ensures
        ({
            let (before, lit) = braille::dithered(dots, w, h, invert, threshold, n);
            let (after, next) = braille::dithered(dots, w, h, invert, threshold, n + 1);
            let i = y * w + x;
            let share = if x > 0 && n == i - 1 {
                0x3ee0_0000u32
            } else if y > 0 && x + 1 < w && n == i - w + 1 {
                0x3e40_0000u32
            } else if y > 0 && n == i - w {
                0x3ea0_0000u32
            } else if y > 0 && x > 0 && n == i - w - 1 {
                0x3d80_0000u32
            } else {
                0u32
            };
            &&& share != 0 ==> after[i] == shared(before[i], dots, before, threshold, n as int, share)
            &&& share == 0 ==> after[i] == before[i]
            &&& next[i] == if n == i && dots[i].alpha >= threshold {
                before[i].less((Single { bits: 0x4300_0000 }))
            } else {
                lit[i]
            }
        }),
{
    let (before, lit) = braille::dithered(dots, w, h, invert, threshold, n);
    let k = n as int;
    let (i, j) = (k % w, k / w);
    lemma_lens(dots, w, h, invert, threshold, n);
    lemma_fundamental_div_mod(k, w);
    lemma_mod_bound(k, w);
    assert(j * w == w * j) by (nonlinear_arith);
    let at = y * w + x;
    assert(0 <= at < w * h) by (nonlinear_arith)
        requires
            at == y * w + x,
            0 <= x < w,
            0 <= y,
            y + 1 <= h,
    ;
    assert((y - 1) * w == y * w - w && (j + 1) * w == j * w + w) by (nonlinear_arith);
    lemma_place(w, x, y, i, j);
    if x > 0 {
        lemma_place(w, x - 1, y, i, j);
        lemma_place(w, x - 1, y - 1, i, j);
    }
    lemma_place(w, x, y - 1, i, j);
    if x + 1 < w {
        lemma_place(w, x + 1, y - 1, i, j);
    }
    assert(y == 0 ==> j + 1 != y) by (nonlinear_arith)
        requires
            w * j + i == k,
            k >= 0,
            0 <= i < w,
    ;
    if dots[k].alpha >= threshold {
        lemma_diffused(before, w, h, i, j, error_of(before[k]), x, y);
    }
}

/// Dots keep their level once their turn has come.
proof fn lemma_settled(
    dots: Seq<Sample>,
    w: int,
    h: int,
    invert: bool,
    threshold: u8,
    n: nat,
    x: int,
    y: int,
)
    requires
        0 < w,
        0 < h,
        dots.len() == w * h,
        0 <= x < w,
        0 <= y < h,
        y * w + x <= n <= dots.len(),
    ensures
        braille::dithered(dots, w, h, invert, threshold, n).0[y * w + x] == braille::dithered(
            dots,
            w,
            h,
            invert,
            threshold,
            (y * w + x) as nat,
        ).0[y * w + x],
    decreases n,
{
    if n > y * w + x {
        lemma_settled(dots, w, h, invert, threshold, (n - 1) as nat, x, y);
        lemma_step(dots, w, h, invert, threshold, (n - 1) as nat, x, y);
    }
}

/// Levels after `n` dots.
proof fn lemma_gathered(
    dots: Seq<Sample>,
    w: int,
    h: int,
    invert: bool,
    threshold: u8,
    n: nat,
    x: int,
    y: int,
)
    requires
        0 < w,
        0 < h,
        dots.len() == w * h,
        0 <= x < w,
        0 <= y < h,
        n <= dots.len(),
    ensures
        braille::dithered(dots, w, h, invert, threshold, n).0[y * w + x] == gathered(
            dots,
            braille::dithered(dots, w, h, invert, threshold, dots.len()).0,
            w,
            invert,
            threshold,
            x,
            y,
            n as int,
        ),
    decreases n,
{
    let i = y * w + x;
    let levels = braille::dithered(dots, w, h, invert, threshold, dots.len()).0;
    assert(0 <= i < w * h) by (nonlinear_arith)
        requires
            i == y * w + x,
            0 <= x < w,
            0 <= y,
            y + 1 <= h,
    ;
    assert(y > 0 ==> i - w >= x && i - w >= 0) by (nonlinear_arith)
        requires
            i == y * w + x,
            0 <= x < w,
            0 <= y,
    ;
    assert(y == 0 ==> i == x) by (nonlinear_arith)
        requires
            i == y * w + x,
    ;
    if n > 0 {
        let k = (n - 1) as nat;
        lemma_gathered(dots, w, h, invert, threshold, k, x, y);
        lemma_step(dots, w, h, invert, threshold, k, x, y);
        let (p, q) = (k as int % w, k as int / w);
        lemma_fundamental_div_mod(k as int, w);
        lemma_mod_bound(k as int, w);
        assert(q * w + p == k && 0 <= q < h) by (nonlinear_arith)
            requires
                k == w * q + p,
                0 <= p < w,
                0 <= k < w * h,
        ;
        lemma_settled(dots, w, h, invert, threshold, dots.len(), p, q);
    }
}

/// Decisions after `n` dots.
proof fn lemma_decided(
    dots: Seq<Sample>,
    w: int,
    h: int,
    invert: bool,
    threshold: u8,
    n: nat,
    x: int,
    y: int,
)
    requires
        0 < w,
        0 < h,
        dots.len() == w * h,
        0 <= x < w,
        0 <= y < h,
        n <= dots.len(),
    ensures
        braille::dithered(dots, w, h, invert, threshold, n).1[y * w + x] == (y * w + x < n
            && dots[y * w + x].alpha >= threshold && braille::dithered(
            dots,
            w,
            h,
            invert,
            threshold,
            dots.len(),
        ).0[y * w + x].less((Single { bits: 0x4300_0000 }))),
    decreases n,
{
    let i = y * w + x;
    assert(0 <= i < w * h) by (nonlinear_arith)
        requires
            i == y * w + x,
            0 <= x < w,
            0 <= y,
            y + 1 <= h,
    ;
    if n > 0 {
        let k = (n - 1) as nat;
        lemma_decided(dots, w, h, invert, threshold, k, x, y);
        lemma_step(dots, w, h, invert, threshold, k, x, y);
        if k == i {
            lemma_settled(dots, w, h, invert, threshold, dots.len(), x, y);
        }
    }
}

/// Without a hard cutoff errors are diffused: dots are taken in raster order, a visible dot is
/// ink where its level is below 128, and its error goes to its neighbors, 7/16 to the right,
/// 3/16 below to the left, 5/16 below and 1/16 below to the right. Invisible dots are
/// neither ink, nor do they pass anything on. The levels that make this so are returned.
pub proof fn law_errors_are_diffused(
    dots: Seq<Sample>,
    w: int,
    h: int,
    invert: bool,
    threshold: u8,
) -> (levels: Seq<Single>)
    requires
        0 < w,
        0 < h,
        dots.len() == w * h,
    ensures
        levels.len() == dots.len(),
        forall|x: int, y: int|
            #![trigger levels[y * w + x]]
            0 <= x < w && 0 <= y < h ==> {
                &&& levels[y * w + x] == gathered(
                    dots,
                    levels,
                    w,
                    invert,
                    threshold,
                    x,
                    y,
                    y * w + x,
                )
                &&& braille::dithered(dots, w, h, invert, threshold, dots.len()).1[y * w + x] == (
                dots[y * w + x].alpha >= threshold && levels[y * w + x].less(
                    (Single { bits: 0x4300_0000 }),
                ))
            },
{
    let levels = braille::dithered(dots, w, h, invert, threshold, dots.len()).0;
    lemma_lens(dots, w, h, invert, threshold, dots.len());
    assert forall|x: int, y: int|
        #![trigger levels[y * w + x]]
        0 <= x < w && 0 <= y < h implies {
        &&& levels[y * w + x] == gathered(dots, levels, w, invert, threshold, x, y, y * w + x)
        &&& braille::dithered(dots, w, h, invert, threshold, dots.len()).1[y * w + x] == (dots[y * w
            + x].alpha >= threshold && levels[y * w + x].less((Single { bits: 0x4300_0000 })))
    } by {
        let i = y * w + x;
        assert(0 <= i < w * h) by (nonlinear_arith)
            requires
                i == y * w + x,
                0 <= x < w,
                0 <= y,
                y + 1 <= h,
        ;
        lemma_gathered(dots, w, h, invert, threshold, i as nat, x, y);
        lemma_settled(dots, w, h, invert, threshold, dots.len(), x, y);
        lemma_decided(dots, w, h, invert, threshold, dots.len(), x, y);
    }
    levels
}

/// A dithered cell that is not blank shows a dot exactly where its level is below 128 and the
/// dot is visible. The levels are returned; they are those of diffused errors, over all dots
/// of the picture in rows from the top.
pub proof fn law_dithered_cells_show_their_levels(
    image: &RgbaImage,
    opts: &Options,
    row: int,
    col: int,
    dx: u32,
    dy: u32,
) -> (levels: Seq<Single>)
    requires
        opts.charset is Braille,
        opts.braille_threshold is None,
        0 <= row < engine::grid_geometry(image, opts).rows,
        0 <= col < engine::grid_geometry(image, opts).cols,
        dx < 2,
        dy < 4,
        engine::spec_cell(image, opts, row, col).alpha >= opts.alpha_threshold,
    ensures
        ({
            let g = engine::grid_geometry(image, opts);
            let w = 2 * g.cols;
            let dots = braille::spec_dots(image, g, opts.matte);
            let dot = sampling::spec_sample(
                image,
                braille::dot_span(g.span(row as u32, col as u32), dx as int, dy as int),
                opts.matte,
            );
            let i = (4 * row + dy) * w + (2 * col + dx);
            let ch = engine::spec_cell(image, opts, row, col).ch;
            let bits = if ch == ' ' {
                0u8
            } else {
                (ch as u32 - 0x2800) as u8
            };
            &&& dots[i] == dot
            &&& ch == ' ' || 0x2800 < ch as u32 <= 0x28ff
            &&& (bits & exact::dot_value(dx, dy) != 0) == (dot.alpha >= opts.alpha_threshold
                && levels[i].less((Single { bits: 0x4300_0000 })))
            &&& forall|x: int, y: int|
                #![trigger levels[y * w + x]]
                0 <= x < w && 0 <= y < 4 * g.rows ==> levels[y * w + x] == gathered(
                    dots,
                    levels,
                    w,
                    opts.invert,
                    opts.alpha_threshold,
                    x,
                    y,
                    y * w + x,
                )
        }),
{
    let g = engine::grid_geometry(image, opts);
    let (w, h) = (2 * g.cols, 4 * g.rows);
    let dots = braille::spec_dots(image, g, opts.matte);
    let lit = braille::spec_lit(dots, g, opts);
    let bits = braille::cell_bits(lit, g.cols, row, col, 8);
    assert(dots.len() == w * h) by {
        assert(g.rows * (8 * g.cols) == (2 * g.cols) * (4 * g.rows)) by (nonlinear_arith);
        assert(g.rows * (8 * g.cols) >= 0) by (nonlinear_arith);
    }
    let levels = law_errors_are_diffused(dots, w, h, opts.invert, opts.alpha_threshold);
    let i = (4 * row + dy) * w + (2 * col + dx);
    assert((row * 4 + dy) * w == (4 * row + dy) * w) by (nonlinear_arith);
    assert(i == braille::dot_index(g.cols, row, col, 2 * dy + dx));
    exact::lemma_dot(image, g, opts.matte, row, col, dx, dy);
    exact::lemma_bits(lit, g.cols, row, col, dx, dy);
    assert((0x2800 + bits) as char as u32 == 0x2800 + bits);
    let v = exact::dot_value(dx, dy);
    assert(0u8 & v == 0) by (bit_vector);
    assert(levels[(4 * row + dy) * w + (2 * col + dx)] == levels[i]);
    levels
}

} // verus!
