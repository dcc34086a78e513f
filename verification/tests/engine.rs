use ascii_world::charset::{Charset, SIMPLE};
use ascii_world::engine::braille::{braille_char, dither, dot_bit};
use ascii_world::engine::geometry::Geometry;
use ascii_world::engine::sampling::Sample;
use ascii_world::engine::{convert, ConvertError, Options};
use ascii_world::float::{Double, Single};
use ascii_world::pixels::RgbaImage;

fn flat_image(w: u32, h: u32, value: u8) -> RgbaImage {
    RgbaImage::from_pixel(w, h, [value, value, value, 255])
}

fn simple() -> Options {
    Options::default()
}

fn single(v: f32) -> Single {
    Single { bits: v.to_bits() }
}

#[test]
fn black_image_maps_to_densest_char() {
    let grid = convert(&flat_image(100, 100, 0), &simple()).unwrap();
    assert!(grid.chars.iter().all(|&c| c == '@'));
}

#[test]
fn white_image_maps_to_space() {
    let grid = convert(&flat_image(100, 100, 255), &simple()).unwrap();
    assert!(grid.chars.iter().all(|&c| c == ' '));
}

#[test]
fn invert_flips_ramp() {
    let opts = Options { invert: true, ..simple() };
    let grid = convert(&flat_image(100, 100, 0), &opts).unwrap();
    assert!(grid.chars.iter().all(|&c| c == ' '));
}

#[test]
fn grid_dimensions_follow_width_and_aspect() {
    let grid = convert(&flat_image(200, 200, 128), &simple()).unwrap();
    assert_eq!(grid.cols, 100);
    assert_eq!(grid.rows, 50); // aspect 2.0: cells twice as tall
    assert_eq!(grid.chars.len(), (grid.cols * grid.rows) as usize);
    assert_eq!(grid.colors.len(), grid.chars.len());
    assert_eq!(grid.alphas.len(), grid.chars.len());
}

#[test]
fn width_is_clamped_to_image_width() {
    let opts = Options { width: 5000, ..simple() };
    let grid = convert(&flat_image(64, 64, 128), &opts).unwrap();
    assert_eq!(grid.cols, 64);
}

#[test]
fn a_width_of_zero_gives_one_column() {
    let opts = Options { width: 0, ..simple() };
    let grid = convert(&flat_image(64, 64, 128), &opts).unwrap();
    assert_eq!((grid.cols, grid.rows), (1, 1));
}

#[test]
fn colors_average_the_cell() {
    let img = RgbaImage::from_pixel(10, 10, [200, 100, 50, 255]);
    let opts = Options { width: 1, ..simple() };
    let grid = convert(&img, &opts).unwrap();
    assert_eq!(grid.color_at(0, 0), [200, 100, 50]);
    assert_eq!(grid.alpha_at(0, 0), 255);
    assert!(!grid.has_alpha());
}

#[test]
fn gradient_is_monotonic() {
    // Left-to-right black to white gradient must produce a ramp that never
    // gets darker as brightness increases.
    let mut img = RgbaImage::new(256, 32);
    for y in 0..32 {
        for x in 0..256u32 {
            let v = x as u8;
            img.put_pixel(x, y, [v, v, v, 255]);
        }
    }
    let opts = Options { width: 16, ..simple() };
    let grid = convert(&img, &opts).unwrap();
    let ramp: Vec<char> = opts.charset.ramp().unwrap().to_vec();
    let mut last_pos = 0usize;
    for col in 0..grid.cols {
        let c = grid.char_at(0, col);
        let pos = ramp.iter().position(|&r| r == c).unwrap();
        assert!(pos >= last_pos, "ramp went darker at col {col}");
        last_pos = pos;
    }
}

#[test]
fn ramp_positions_are_exact() {
    // Ten characters over 256 lumas: luma * 10 / 255, held below 10.
    let ramp: Vec<char> = SIMPLE.chars().collect();
    for v in 0..=255u8 {
        let opts = Options { width: 1, ..simple() };
        let grid = convert(&flat_image(2, 2, v), &opts).unwrap();
        let luma = 0.299 * v as f64 + 0.587 * v as f64 + 0.114 * v as f64;
        let at = ((luma * 10.0 / 255.0) as usize).min(9);
        assert_eq!(grid.char_at(0, 0), ramp[at], "luma {v}");
    }
}

#[test]
fn rejects_degenerate_input() {
    assert!(convert(&RgbaImage::new(0, 4), &simple()).is_err());
    let bad_charset = Options { charset: Charset::Ramp(vec!['x']), ..simple() };
    assert!(convert(&flat_image(8, 8, 0), &bad_charset).is_err());
    for aspect in [0.0, -1.0, f32::NAN] {
        let opts = Options { aspect: single(aspect), ..simple() };
        assert!(convert(&flat_image(8, 8, 0), &opts).is_err(), "{aspect}");
    }
}

#[test]
fn conversion_errors_say_what_is_wrong() {
    let empty = convert(&RgbaImage::new(0, 4), &simple()).unwrap_err();
    assert_eq!(empty, ConvertError::EmptyImage);
    assert_eq!(empty.message(), "input image is empty");
    let short = Options { charset: Charset::Ramp(vec!['x']), ..simple() };
    let short = convert(&flat_image(8, 8, 0), &short).unwrap_err();
    assert_eq!(short, ConvertError::ShortCharset);
    assert_eq!(short.message(), "charset needs at least 2 characters");
    let flat = Options { aspect: single(f32::INFINITY), ..simple() };
    let flat = convert(&flat_image(8, 8, 0), &flat).unwrap_err();
    assert_eq!(flat, ConvertError::BadAspect);
    assert_eq!(flat.message(), "aspect must be a positive, finite number");
}

#[test]
fn default_options_are_those_of_a_dark_terminal() {
    let opts = Options::default();
    assert_eq!(opts.width, 100);
    assert_eq!(opts.charset.glyphs().into_iter().collect::<String>(), SIMPLE);
    assert!(!opts.invert);
    assert_eq!(opts.aspect, single(2.0));
    assert_eq!(opts.alpha_threshold, 64);
    assert_eq!(opts.matte, Some([255, 255, 255]));
    assert_eq!(opts.braille_threshold, None);
}

fn cutout() -> RgbaImage {
    // Opaque mid-dark square in the middle, transparent around it. The subject
    // is deliberately neither black nor white so that no ramp direction can map
    // it onto a space by accident.
    let mut img = RgbaImage::from_pixel(64, 64, [0, 0, 0, 0]);
    for y in 16..48 {
        for x in 16..48 {
            img.put_pixel(x, y, [100, 100, 100, 255]);
        }
    }
    img
}

#[test]
fn transparent_cells_are_blank_whatever_the_ramp_says() {
    for invert in [false, true] {
        for matte in [None, Some([0, 0, 0]), Some([255, 255, 255])] {
            let opts = Options { width: 16, invert, matte, ..simple() };
            let grid = convert(&cutout(), &opts).unwrap();
            assert_eq!(grid.char_at(0, 0), ' ', "corner not blank ({invert}, {matte:?})");
            assert_eq!(grid.alpha_at(0, 0), 0);
            // ...and the opaque middle still draws something.
            let mid = grid.char_at(grid.rows / 2, grid.cols / 2);
            assert_ne!(mid, ' ', "cutout lost its subject ({invert}, {matte:?})");
        }
    }
}

#[test]
fn transparent_pixels_do_not_darken_the_mean_color() {
    // A red logo on a transparent (stored as black) background: the half-covered
    // cell must stay red, not turn maroon.
    let mut img = RgbaImage::from_pixel(2, 1, [0, 0, 0, 0]);
    img.put_pixel(0, 0, [255, 0, 0, 255]);
    let opts = Options { width: 1, matte: None, ..simple() };
    let grid = convert(&img, &opts).unwrap();
    assert_eq!(grid.color_at(0, 0), [255, 0, 0]);
    assert_eq!(grid.alpha_at(0, 0), 127);
}

#[test]
fn matte_composites_edge_tones() {
    // Half-transparent black over white reads as mid-gray.
    let img = RgbaImage::from_pixel(4, 4, [0, 0, 0, 128]);
    let opts = Options { width: 1, matte: Some([255, 255, 255]), alpha_threshold: 0, ..simple() };
    let grid = convert(&img, &opts).unwrap();
    assert_eq!(grid.color_at(0, 0), [127, 127, 127]);
}

#[test]
fn opaque_images_are_unaffected_by_the_matte() {
    // Regression guard: alpha support must not change existing output.
    let img = RgbaImage::from_pixel(32, 32, [90, 140, 200, 255]);
    let opaque = convert(&img, &simple()).unwrap();
    let no_matte = convert(&img, &Options { matte: None, ..simple() }).unwrap();
    assert_eq!(opaque.colors, no_matte.colors);
    assert_eq!(opaque.chars, no_matte.chars);
}

#[test]
fn alpha_threshold_is_configurable() {
    let img = RgbaImage::from_pixel(8, 8, [0, 0, 0, 100]);
    let blank = convert(&img, &Options { width: 1, alpha_threshold: 200, ..simple() }).unwrap();
    assert_eq!(blank.char_at(0, 0), ' ');
    let drawn = convert(
        &img,
        &Options { width: 1, alpha_threshold: 50, matte: Some([0, 0, 0]), ..simple() },
    )
    .unwrap();
    assert_ne!(drawn.char_at(0, 0), ' ');
}

fn braille_opts(width: u32) -> Options {
    Options { width, charset: Charset::Braille, ..Options::default() }
}

#[test]
fn braille_black_fills_every_dot() {
    let grid = convert(&flat_image(64, 64, 0), &braille_opts(8)).unwrap();
    assert!(grid.chars.iter().all(|&c| c == '\u{28FF}'), "{:?}", grid.chars);
}

#[test]
fn braille_white_stays_empty() {
    let grid = convert(&flat_image(64, 64, 255), &braille_opts(8)).unwrap();
    assert!(grid.chars.iter().all(|&c| c == ' '));
}

fn half_and_half() -> RgbaImage {
    let mut img = RgbaImage::from_pixel(2, 4, [255, 255, 255, 255]);
    for y in 0..4 {
        img.put_pixel(0, y, [0, 0, 0, 255]);
    }
    img
}

#[test]
fn braille_resolves_detail_inside_one_cell() {
    // A single cell whose left half is black and right half white must come out
    // as the left-column dots only: a ramp charset could not express this at all.
    let opts = Options { width: 1, aspect: single(2.0), ..braille_opts(1) };
    let grid = convert(&half_and_half(), &opts).unwrap();
    assert_eq!(grid.cols, 1);
    // dots 1,2,3,7 = 0x01|0x02|0x04|0x40 = 0x47
    assert_eq!(grid.char_at(0, 0), '\u{2847}');
}

#[test]
fn braille_invert_flips_which_dots_light_up() {
    let opts = Options { invert: true, ..braille_opts(1) };
    let grid = convert(&half_and_half(), &opts).unwrap();
    // Now the *white* half lights up: dots 4,5,6,8 = 0xB8
    assert_eq!(grid.char_at(0, 0), '\u{28B8}');
}

#[test]
fn braille_honours_transparency_and_manual_threshold() {
    let grid = convert(&cutout(), &braille_opts(16)).unwrap();
    assert_eq!(grid.char_at(0, 0), ' ');
    assert_ne!(grid.char_at(grid.rows / 2, grid.cols / 2), ' ');

    // A manual threshold below every luma turns everything off.
    let opts = Options { braille_threshold: Some(0), ..braille_opts(8) };
    let grid = convert(&flat_image(64, 64, 10), &opts).unwrap();
    assert!(grid.chars.iter().all(|&c| c == ' '));
}

#[test]
fn dithering_preserves_average_tone() {
    // A flat 25%-gray field must come out roughly 75% inked: that is what error
    // diffusion buys over a hard threshold, which would ink all of it or none.
    let grid = convert(&flat_image(128, 128, 64), &braille_opts(16)).unwrap();
    let dots: usize = grid
        .chars
        .iter()
        .map(|&c| if c == ' ' { 0 } else { (c as u32 - 0x2800).count_ones() as usize })
        .sum();
    let coverage = dots as f32 / (grid.chars.len() * 8) as f32;
    assert!((0.65..0.85).contains(&coverage), "25% gray dithered to {coverage:.2} ink coverage");
}

#[test]
fn a_hard_threshold_disables_dithering() {
    // Same flat field, explicit cutoff: strictly all-or-nothing.
    let opts = Options { braille_threshold: Some(128), ..braille_opts(16) };
    let grid = convert(&flat_image(128, 128, 64), &opts).unwrap();
    assert!(grid.chars.iter().all(|&c| c == '\u{28FF}'));
}

#[test]
fn dot_bits_cover_the_whole_pattern() {
    let mut all = 0u8;
    for dy in 0..4 {
        for dx in 0..2 {
            let bit = dot_bit(dx, dy);
            assert_eq!(all & bit, 0, "duplicate bit for ({dx},{dy})");
            all |= bit;
        }
    }
    assert_eq!(all, 0xFF);
    assert_eq!(braille_char(0), '\u{2800}');
    assert_eq!(braille_char(0xFF), '\u{28FF}');
}

/// Error diffusion in the arithmetic of the machine.
fn diffuse(lumas: &[f64], w: usize, h: usize, invert: bool) -> Vec<bool> {
    let mut level: Vec<f32> = lumas
        .iter()
        .map(|&l| if invert { 255.0 - l as f32 } else { l as f32 })
        .collect();
    let mut lit = vec![false; w * h];
    for y in 0..h as i64 {
        for x in 0..w as i64 {
            let i = (y * w as i64 + x) as usize;
            let old = level[i];
            lit[i] = old < 128.0;
            let error = old - if lit[i] { 0.0 } else { 255.0 };
            for (dx, dy, weight) in
                [(1, 0, 7.0 / 16.0), (-1, 1, 3.0 / 16.0), (0, 1, 5.0 / 16.0), (1, 1, 1.0 / 16.0)]
            {
                let (nx, ny) = (x + dx, y + dy);
                if nx >= 0 && nx < w as i64 && ny < h as i64 {
                    level[(ny * w as i64 + nx) as usize] += error * weight;
                }
            }
        }
    }
    lit
}

#[test]
fn dithering_is_exact_error_diffusion() {
    // One pixel per dot, with a texture that has every tone in it.
    let (w, h) = (64u32, 64u32);
    let mut img = RgbaImage::new(w, h);
    let mut lumas = Vec::new();
    let mut seed = 7u32;
    for y in 0..h {
        for x in 0..w {
            seed = seed.wrapping_mul(1664525).wrapping_add(1013904223);
            let c = [(seed >> 24) as u8, (seed >> 16) as u8, (x * 4) as u8];
            img.put_pixel(x, y, [c[0], c[1], c[2], 255]);
            lumas.push(0.299 * c[0] as f64 + 0.587 * c[1] as f64 + 0.114 * c[2] as f64);
        }
    }
    for invert in [false, true] {
        let opts = Options { invert, ..braille_opts(32) };
        let grid = convert(&img, &opts).unwrap();
        assert_eq!((grid.cols, grid.rows), (32, 16));
        let lit = diffuse(&lumas, w as usize, h as usize, invert);
        for row in 0..grid.rows {
            for col in 0..grid.cols {
                let mut bits = 0;
                for dy in 0..4 {
                    for dx in 0..2 {
                        if lit[((row * 4 + dy) * w + col * 2 + dx) as usize] {
                            bits |= dot_bit(dx, dy);
                        }
                    }
                }
                let expected = if bits == 0 { ' ' } else { braille_char(bits) };
                assert_eq!(grid.char_at(row, col), expected, "cell {row},{col}");
            }
        }
    }
}

#[test]
fn cells_cover_the_pixels_that_machine_arithmetic_says() {
    // Odd sizes, where cell borders fall between pixels.
    let (w, h) = (97u32, 61u32);
    let mut img = RgbaImage::new(w, h);
    for y in 0..h {
        for x in 0..w {
            img.put_pixel(x, y, [(x * 2) as u8, (y * 4) as u8, (x * y) as u8, 255]);
        }
    }
    let opts = Options { width: 13, aspect: single(1.7), ..simple() };
    let grid = convert(&img, &opts).unwrap();
    let cell_w = w as f64 / 13.0;
    let cell_h = (cell_w * 1.7f32 as f64).max(1.0);
    assert_eq!(grid.cols, 13);
    assert_eq!(grid.rows, (h as f64 / cell_h) as u32);
    for row in 0..grid.rows {
        for col in 0..grid.cols {
            let x0 = (col as f64 * cell_w) as u32;
            let x1 = (((col + 1) as f64 * cell_w) as u32).min(w).max(x0 + 1);
            let y0 = (row as f64 * cell_h) as u32;
            let y1 = (((row + 1) as f64 * cell_h) as u32).min(h).max(y0 + 1);
            let mut sums = [0u64; 3];
            for y in y0..y1 {
                for x in x0..x1 {
                    let p = img.get_pixel(x, y);
                    for c in 0..3 {
                        sums[c] += p[c] as u64;
                    }
                }
            }
            let n = ((x1 - x0) * (y1 - y0)) as u64;
            let mean = [0, 1, 2].map(|c| (sums[c] / n) as u8);
            assert_eq!(grid.color_at(row, col), mean, "cell {row},{col}");
        }
    }
}

#[test]
fn darker_pictures_never_get_lighter_characters() {
    let ramp: Vec<char> = SIMPLE.chars().collect();
    let opts = Options { width: 1, ..simple() };
    let mut last = 0;
    for v in 0..=255u8 {
        let img = RgbaImage::from_pixel(3, 5, [v, v / 2, v, 255]);
        let c = convert(&img, &opts).unwrap().char_at(0, 0);
        let at = ramp.iter().position(|&r| r == c).unwrap();
        assert!(at >= last);
        last = at;
    }
}

#[test]
fn inverting_mirrors_the_ramp_everywhere() {
    let ramp: Vec<char> = SIMPLE.chars().collect();
    for v in [0u8, 30, 77, 128, 200, 255] {
        let plain = convert(&flat_image(4, 4, v), &Options { width: 1, ..simple() }).unwrap();
        let flipped =
            convert(&flat_image(4, 4, v), &Options { width: 1, invert: true, ..simple() }).unwrap();
        let at = |c: char| ramp.iter().position(|&r| r == c).unwrap();
        assert_eq!(at(plain.char_at(0, 0)) + at(flipped.char_at(0, 0)), ramp.len() - 1);
    }
}

#[test]
fn opaque_pictures_report_no_alpha_in_either_mode() {
    let img = RgbaImage::from_pixel(24, 16, [10, 20, 30, 255]);
    for opts in [Options { width: 6, ..simple() }, braille_opts(6)] {
        let grid = convert(&img, &opts).unwrap();
        assert!(grid.alphas.iter().all(|&a| a == 255));
        assert!(!grid.has_alpha());
    }
}

#[test]
fn colors_behind_transparency_do_not_show() {
    let mut a = cutout();
    for y in 0..64 {
        for x in 0..64 {
            if a.get_pixel(x, y)[3] == 0 {
                a.put_pixel(x, y, [255, 0, (x * 3) as u8, 0]);
            }
        }
    }
    for opts in [Options { width: 20, matte: None, ..simple() }, braille_opts(20)] {
        let (x, y) = (convert(&a, &opts).unwrap(), convert(&cutout(), &opts).unwrap());
        assert_eq!(x.chars, y.chars);
        assert_eq!(x.colors, y.colors);
        assert_eq!(x.alphas, y.alphas);
    }
}

#[test]
fn flat_pictures_keep_their_color() {
    let img = RgbaImage::from_pixel(31, 17, [12, 200, 77, 255]);
    for opts in [Options { width: 7, ..simple() }, braille_opts(7)] {
        let grid = convert(&img, &opts).unwrap();
        assert!(grid.colors.iter().all(|&c| c == [12, 200, 77]));
    }
}

#[test]
fn braille_invert_swaps_black_and_white() {
    let opts = Options { invert: true, ..braille_opts(8) };
    let grid = convert(&flat_image(64, 64, 255), &opts).unwrap();
    assert!(grid.chars.iter().all(|&c| c == '\u{28FF}'));
    let grid = convert(&flat_image(64, 64, 0), &opts).unwrap();
    assert!(grid.chars.iter().all(|&c| c == ' '));
}

#[test]
fn braille_cells_below_the_threshold_are_blank() {
    // One opaque dot of eight: the mean alpha of the cell is 31.
    let mut img = RgbaImage::from_pixel(2, 4, [0, 0, 0, 0]);
    img.put_pixel(0, 0, [0, 0, 0, 255]);
    let grid = convert(&img, &braille_opts(1)).unwrap();
    assert_eq!((grid.cols, grid.rows), (1, 1));
    assert_eq!(grid.alpha_at(0, 0), 31);
    assert_eq!(grid.char_at(0, 0), ' ');

    let opts = Options { alpha_threshold: 31, ..braille_opts(1) };
    assert_eq!(convert(&img, &opts).unwrap().char_at(0, 0), '\u{2801}');
}

fn texture(w: u32, h: u32) -> RgbaImage {
    let mut img = RgbaImage::new(w, h);
    let mut seed = 11u32;
    for y in 0..h {
        for x in 0..w {
            seed = seed.wrapping_mul(1664525).wrapping_add(1013904223);
            img.put_pixel(x, y, [(seed >> 24) as u8, (seed >> 16) as u8, (seed >> 8) as u8, 255]);
        }
    }
    img
}

#[test]
fn inverting_is_reversing_the_ramp() {
    let ramp: Vec<char> = SIMPLE.chars().collect();
    let back: Vec<char> = SIMPLE.chars().rev().collect();
    let img = texture(90, 70);
    let a = Options { charset: Charset::Ramp(ramp), invert: true, width: 30, ..simple() };
    let b = Options { charset: Charset::Ramp(back), width: 30, ..simple() };
    let (a, b) = (convert(&img, &a).unwrap(), convert(&img, &b).unwrap());
    assert_eq!(a.chars, b.chars);
    assert_eq!(a.colors, b.colors);
    assert_eq!(a.alphas, b.alphas);
}

#[test]
fn inverting_a_hard_cutoff_turns_every_dot_over() {
    let bits = |c: char| if c == ' ' { 0 } else { c as u32 - 0x2800 };
    let img = texture(64, 64);
    let a = Options { braille_threshold: Some(100), ..braille_opts(16) };
    let b = Options { invert: true, ..a.clone() };
    let (a, b) = (convert(&img, &a).unwrap(), convert(&img, &b).unwrap());
    assert_eq!(a.colors, b.colors);
    for (p, q) in a.chars.iter().zip(&b.chars) {
        assert_eq!(bits(*p) ^ bits(*q), 0xFF);
    }
}

#[test]
fn transparent_dots_do_not_matter_to_dithering() {
    let dot = |alpha, v: u8| Sample {
        color: [v, v, v],
        alpha,
        luma: Double { bits: (v as f64).to_bits() },
    };
    let dots = |hidden: u8| -> Vec<Sample> {
        (0..48u32)
            .map(|i| if i % 5 == 2 { dot(10, hidden) } else { dot(255, (i * 37 % 256) as u8) })
            .collect()
    };
    let a = dither(&dots(0), 6, 8, false, 64);
    let b = dither(&dots(255), 6, 8, false, 64);
    assert_eq!(a, b);
    assert!((0..48).filter(|i| i % 5 == 2).all(|i| !a[i]));
    assert!(a.iter().any(|&on| on) && a.iter().any(|&on| !on));
}

#[test]
fn cells_tile_the_picture() {
    for (w, h, width, aspect) in [(97, 61, 23, 2.0), (64, 64, 64, 1.0), (1000, 7, 333, 0.37)] {
        let g = Geometry::new(w, h, width, single(aspect));
        for row in 0..g.rows {
            for col in 0..g.cols {
                let cell = g.cell_bounds(row, col);
                assert!(cell.x0 < cell.x1 && cell.x1 <= w && cell.y0 < cell.y1 && cell.y1 <= h);
                assert!(col > 0 || cell.x0 == 0);
                assert!(row > 0 || cell.y0 == 0);
                if col + 1 < g.cols {
                    assert_eq!(g.cell_bounds(row, col + 1).x0, cell.x1);
                }
                if row + 1 < g.rows {
                    assert_eq!(g.cell_bounds(row + 1, col).y0, cell.y1);
                }
            }
        }
    }
}
