use ascii_world::charset::{Charset, SIMPLE};
use ascii_world::engine::{convert, AsciiGrid, Options};
use ascii_world::pixels::RgbaImage;
use ascii_world::render::{effective_ramp, to_ansi, to_json, to_text};

fn grid_of(img: &RgbaImage, opts: Options) -> AsciiGrid {
    convert(img, &opts).unwrap()
}

fn tiny_grid() -> AsciiGrid {
    let img = RgbaImage::from_pixel(4, 4, [0, 0, 0, 255]);
    grid_of(&img, Options { width: 2, ..Options::default() })
}

fn simple_charset() -> Charset {
    Charset::Ramp(SIMPLE.chars().collect())
}

fn parsed(text: &str) -> serde_json::Value {
    serde_json::from_str(text).unwrap()
}

#[test]
fn text_has_one_line_per_row() {
    let grid = tiny_grid();
    let text = to_text(&grid);
    assert_eq!(text.lines().count(), grid.rows as usize);
    assert!(text.lines().all(|l| l.chars().count() == grid.cols as usize));
}

#[test]
fn text_is_the_cells_row_by_row() {
    let grid = AsciiGrid {
        cols: 2,
        rows: 2,
        chars: vec!['a', '⣿', ' ', 'd'],
        colors: vec![[0, 0, 0]; 4],
        alphas: vec![255; 4],
    };
    assert_eq!(to_text(&grid), "a⣿\n d\n");
}

#[test]
fn ansi_contains_truecolor_escape_and_reset() {
    let ansi = to_ansi(&tiny_grid());
    assert!(ansi.contains("\x1b[38;2;0;0;0m"));
    assert!(ansi.ends_with("\x1b[0m\n"));
}

#[test]
fn ansi_skips_color_for_blank_cells() {
    let img = RgbaImage::from_pixel(4, 4, [255, 255, 255, 255]);
    let ansi = to_ansi(&grid_of(&img, Options { width: 2, ..Options::default() }));
    assert!(!ansi.contains("38;2;"), "blank rows should carry no color");
}

#[test]
fn ansi_repeats_no_color() {
    let grid = AsciiGrid {
        cols: 4,
        rows: 1,
        chars: vec!['a', 'b', ' ', 'c'],
        colors: vec![[1, 2, 3], [1, 2, 3], [9, 9, 9], [255, 0, 10]],
        alphas: vec![255; 4],
    };
    assert_eq!(to_ansi(&grid), "\x1b[38;2;1;2;3mab \x1b[38;2;255;0;10mc\x1b[0m\n");
}

#[test]
fn json_roundtrips() {
    let grid = tiny_grid();
    let doc = parsed(&to_json(&grid, &simple_charset(), false, true));
    assert_eq!(doc["cols"], 2);
    assert_eq!(doc["mode"], "ramp");
    assert_eq!(doc["charset"], SIMPLE);
    assert_eq!(doc["lines"].as_array().unwrap().len(), grid.rows as usize);
    assert_eq!(doc["colors"][0][0], "#000000");
    // Opaque input: no alpha field at all, so existing parsers see the exact
    // same document they always did.
    assert!(doc.get("alpha").is_none());

    let no_colors = parsed(&to_json(&grid, &simple_charset(), false, false));
    assert!(no_colors.get("colors").is_none());
}

#[test]
fn json_charset_is_the_ramp_as_applied() {
    let grid = tiny_grid();
    let doc = parsed(&to_json(&grid, &simple_charset(), true, false));
    let reversed: String = SIMPLE.chars().rev().collect();
    assert_eq!(doc["charset"], reversed);
}

#[test]
fn json_reports_alpha_only_for_transparent_sources() {
    // The whole left column is transparent, so cell (0,0), which spans two source
    // rows at aspect 2.0, averages to alpha 0.
    let mut img = RgbaImage::from_pixel(4, 4, [0, 0, 0, 255]);
    for y in 0..4 {
        img.put_pixel(0, y, [0, 0, 0, 0]);
    }
    let grid = grid_of(&img, Options { width: 4, ..Options::default() });
    let doc = parsed(&to_json(&grid, &simple_charset(), false, true));
    assert_eq!(doc["alpha"][0][0], 0);
    assert_eq!(doc["alpha"][0][1], 255);
    assert_eq!(doc["lines"][0].as_str().unwrap().chars().next(), Some(' '));
}

#[test]
fn json_marks_braille_mode() {
    let img = RgbaImage::from_pixel(8, 8, [0, 0, 0, 255]);
    let grid = grid_of(
        &img,
        Options { width: 4, charset: Charset::Braille, ..Options::default() },
    );
    let doc = parsed(&to_json(&grid, &Charset::Braille, false, false));
    assert_eq!(doc["mode"], "braille");
    assert_eq!(doc["charset"], "braille");
    assert!(doc["lines"][0].as_str().unwrap().contains('\u{28FF}'));
}

#[test]
fn json_document_is_exact() {
    let grid = AsciiGrid {
        cols: 2,
        rows: 1,
        chars: vec!['"', '\\'],
        colors: vec![[0, 128, 255], [16, 1, 9]],
        alphas: vec![255, 7],
    };
    let charset = Charset::Ramp(vec!['"', '\n', '\u{1}']);
    assert_eq!(
        to_json(&grid, &charset, false, true),
        "{\"cols\":2,\"rows\":1,\"charset\":\"\\\"\\n\\u0001\",\"mode\":\"ramp\",\"lines\":[\"\\\"\\\\\"],\"colors\":[[\"#0080ff\",\"#100109\"]],\"alpha\":[[255,7]]}"
    );
}

#[test]
fn effective_ramp_reverses_only_when_inverted() {
    assert_eq!(effective_ramp(&['@', '.', ' '], false), vec!['@', '.', ' ']);
    assert_eq!(effective_ramp(&['@', '.', ' '], true), vec![' ', '.', '@']);
}

#[test]
fn reversing_a_ramp_twice_gives_it_back() {
    let ramp: Vec<char> = SIMPLE.chars().collect();
    assert_eq!(effective_ramp(&effective_ramp(&ramp, true), true), ramp);
}

#[test]
fn escapes_stand_only_where_the_color_changes() {
    let grid = AsciiGrid {
        cols: 5,
        rows: 2,
        chars: "ab cdab  c".chars().collect(),
        colors: vec![
            [1, 2, 3], [1, 2, 3], [9, 9, 9], [1, 2, 3], [4, 5, 6],
            [4, 5, 6], [7, 8, 9], [0, 0, 0], [0, 0, 0], [4, 5, 6],
        ],
        alphas: vec![255; 10],
    };
    let ansi = to_ansi(&grid);
    assert_eq!(
        ansi,
        "\x1b[38;2;1;2;3mab c\x1b[38;2;4;5;6md\x1b[0m\n\
         \x1b[38;2;4;5;6ma\x1b[38;2;7;8;9mb  \x1b[38;2;4;5;6mc\x1b[0m\n"
    );
    let mut shown = String::new();
    let mut inside = false;
    for c in ansi.chars() {
        if inside {
            inside = c != 'm';
        } else if c == '\x1b' {
            inside = true;
        } else {
            shown.push(c);
        }
    }
    assert_eq!(shown, to_text(&grid));
}
