use ascii_world::anim::{keeps_alpha, to_even, wants_gif, write_gif_to, AnimError};
use ascii_world::float::{Double, Single};
use ascii_world::input::{
    decode_frames, decode_still, decode_svg, finish_svg, is_gif, is_svg, settle_frames, straighten,
    svg_job, svg_target_px, Drawing, Frame, InputError, RawFrame, MAX_SVG_PX, MIN_SVG_PX,
};
use ascii_world::pixels::RgbaImage;
use ascii_world::video::{
    encoder_args, is_resizable, output_fps, overlay_source, parse_probe, read_frame, ReadEvent, ReadStep, Spec,
    VideoError, VideoOptions,
};
use resvg::{tiny_skia, usvg};
use std::io::Read;

const SQUARE_SVG: &[u8] = br##"<svg xmlns="http://www.w3.org/2000/svg" width="40" height="20">
        <rect x="0" y="0" width="20" height="20" fill="#000"/>
    </svg>"##;

fn single(v: f32) -> Single {
    Single { bits: v.to_bits() }
}

fn double(v: f64) -> Double {
    Double { bits: v.to_bits() }
}

/// Reads and draws a document the way the program does.
fn draw(bytes: &[u8], target_px: u32) -> Drawing {
    let tree = match usvg::Tree::from_data(bytes, &usvg::Options::default()) {
        Ok(tree) => tree,
        Err(_) => return Drawing::none(),
    };
    let size = Some((single(tree.size().width()), single(tree.size().height())));
    let pixels = svg_job(size, target_px).ok().map(|(width, height, scale)| {
        let mut pixmap = tiny_skia::Pixmap::new(width, height).unwrap();
        let scale = f32::from_bits(scale.bits);
        let transform = tiny_skia::Transform::from_scale(scale, scale);
        resvg::render(&tree, transform, &mut pixmap.as_mut());
        pixmap.take()
    });
    Drawing { size, pixels }
}

#[test]
fn sniffs_svg() {
    assert!(is_svg(SQUARE_SVG));
    assert!(is_svg(b"  \n<svg width='1'></svg>"));
    assert!(is_svg(br#"<?xml version="1.0"?><svg xmlns="http://www.w3.org/2000/svg"/>"#));
    assert!(!is_svg(b"\x89PNG\r\n\x1a\n"));
    assert!(!is_svg(b"GIF89a"));
    assert!(!is_svg(b""));
}

#[test]
fn sniffs_svg_behind_marks_and_comments() {
    assert!(is_svg(b"\xef\xbb\xbf\xef\xbb\xbf <svg/>"));
    assert!(is_svg(b"<!-- a drawing --><svg/>"));
    assert!(!is_svg(b"<!-- no drawing -->"));
    assert!(is_svg(b"\xe2\x80\x83\xc2\xa0<svg/>"));
    // The search for the element ends after 8192 bytes.
    let mut far = b"<?xml?>".to_vec();
    far.extend(vec![b' '; 8192]);
    far.extend(b"<svg/>");
    assert!(!is_svg(&far));
}

#[test]
fn sniffs_gif() {
    assert!(is_gif(b"GIF89a..."));
    assert!(is_gif(b"GIF87a..."));
    assert!(!is_gif(b"\x89PNG\r\n\x1a\n"));
}

#[test]
fn rasterizes_svg_at_the_requested_width() {
    let img = decode_svg(draw(SQUARE_SVG, 400), 400).unwrap();
    assert_eq!(img.width(), 400);
    assert_eq!(img.height(), 200, "aspect ratio not preserved");
    // Left half black and opaque, right half untouched: transparent.
    assert_eq!(img.get_pixel(10, 100), [0, 0, 0, 255]);
    assert_eq!(img.get_pixel(390, 100)[3], 0);
}

#[test]
fn svg_raster_size_is_clamped() {
    assert_eq!(decode_svg(draw(SQUARE_SVG, 1), 1).unwrap().width(), MIN_SVG_PX);
    assert_eq!(decode_svg(draw(SQUARE_SVG, 99_999), 99_999).unwrap().width(), MAX_SVG_PX);
}

#[test]
fn broken_svg_errors() {
    assert!(decode_svg(draw(b"<svg", 256), 256).is_err());
    assert_eq!(decode_svg(draw(b"<svg", 256), 256).unwrap_err().message(), "failed to parse SVG");
}

#[test]
fn svg_jobs_keep_proportions() {
    let job = |w, h, px| svg_job(Some((single(w), single(h))), px);
    assert_eq!(job(40.0, 20.0, 400).unwrap(), (400, 200, single(10.0)));
    // Never less than a pixel tall, and rounded to the nearest one.
    assert_eq!(job(1000.0, 0.001, 256).unwrap().1, 1);
    assert_eq!(job(3.0, 1.0, 256).unwrap().1, 85);
    assert_eq!(job(0.0, 1.0, 256).unwrap_err(), InputError::NoSize);
    assert_eq!(job(1.0, -1.0, 256).unwrap_err(), InputError::NoSize);
    assert_eq!(job(1.0, 1.0e7, 256).unwrap_err(), InputError::TooLarge);
    assert_eq!(svg_job(None, 256).unwrap_err(), InputError::BadSvg);
}

#[test]
fn documents_without_a_size_or_pixels_are_refused() {
    let nothing = Drawing { size: Some((single(0.0), single(1.0))), pixels: None };
    assert_eq!(decode_svg(nothing, 256).unwrap_err(), InputError::NoSize);
    let undrawn = Drawing { size: Some((single(2.0), single(1.0))), pixels: None };
    assert_eq!(decode_svg(undrawn, 256).unwrap_err(), InputError::TooLarge);
}

#[test]
fn premultiplied_colors_are_straightened() {
    let data = vec![10, 20, 30, 255, 64, 32, 0, 128, 0, 0, 0, 0];
    assert_eq!(straighten(data), vec![10, 20, 30, 255, 128, 64, 0, 128, 0, 0, 0, 0]);
}

#[test]
fn drawn_documents_become_images_with_straight_alpha() {
    let image = finish_svg(1, 2, Some(vec![10, 20, 30, 255, 64, 32, 0, 128])).unwrap();
    assert_eq!(image.dimensions(), (1, 2));
    assert_eq!(image.as_raw(), &vec![10, 20, 30, 255, 128, 64, 0, 128]);
    assert_eq!(finish_svg(1, 2, None).unwrap_err(), InputError::TooLarge);
}

#[test]
fn decode_still_routes_svg_by_content() {
    let img = decode_still(SQUARE_SVG, draw(SQUARE_SVG, 320), 320).unwrap();
    assert_eq!(img.width(), 320);
}

#[test]
fn decode_still_rejects_garbage() {
    assert!(decode_still(b"not an image at all", Drawing::none(), 256).is_err());
    let e = decode_still(b"not an image at all", Drawing::none(), 256).unwrap_err();
    assert_eq!(e, InputError::NotAnImage);
    assert!(e.message().starts_with("input is not a supported image format"));
}

#[test]
fn svg_target_px_scales_with_columns() {
    assert_eq!(svg_target_px(100), 800);
    assert_eq!(svg_target_px(u32::MAX), u32::MAX);
}

fn png(width: u32, height: u32, pixel: [u8; 4]) -> Vec<u8> {
    let img = image::RgbaImage::from_pixel(width, height, image::Rgba(pixel));
    let mut buf = std::io::Cursor::new(Vec::new());
    img.write_to(&mut buf, image::ImageFormat::Png).unwrap();
    buf.into_inner()
}

#[test]
fn decode_frames_wraps_a_still_as_one_frame() {
    let frames = decode_frames(&png(4, 4, [1, 2, 3, 255]), Drawing::none(), 256).unwrap();
    assert_eq!(frames.len(), 1);
    assert_eq!(frames[0].image.get_pixel(0, 0), [1, 2, 3, 255]);
    assert_eq!(frames[0].delay_ms, 100);
}

#[test]
fn broken_gifs_are_reported() {
    let e = decode_frames(b"GIF89a", Drawing::none(), 256).unwrap_err();
    assert_eq!(e, InputError::NotAGif);
    assert_eq!(e.message(), "input is not a readable GIF");
    let mut file = write_gif_to(&vec![frame(8, 8, 0, 40), frame(8, 8, 255, 40)]).unwrap();
    file.truncate(file.len() - 12);
    let e = decode_frames(&file, Drawing::none(), 256).unwrap_err();
    assert_eq!(e, InputError::BadFrames);
    assert_eq!(e.message(), "failed to decode GIF frames");
}

#[test]
fn frame_delays_are_settled() {
    let raw = |num, den| RawFrame { num, den, width: 1, height: 1, data: vec![1, 2, 3, 4] };
    let frames = settle_frames(vec![raw(90, 2), raw(7, 0), raw(0, 1), raw(1, 3)]);
    let delays: Vec<u32> = frames.iter().map(|f| f.delay_ms).collect();
    assert_eq!(delays, vec![45, 100, 100, 1]);
    assert_eq!(frames[2].image.get_pixel(0, 0), [1, 2, 3, 4]);
}

fn frame(w: u32, h: u32, v: u8, delay_ms: u32) -> Frame {
    Frame { image: RgbaImage::from_pixel(w, h, [v, v, v, 255]), delay_ms }
}

#[test]
fn writes_a_multi_frame_gif_that_decodes_back() {
    let frames = vec![frame(8, 8, 0, 40), frame(8, 8, 255, 40)];
    let buf = write_gif_to(&frames).unwrap();
    assert!(buf.starts_with(b"GIF89a"));

    let decoded = decode_frames(&buf, Drawing::none(), 256).unwrap();
    assert_eq!(decoded.len(), 2);
    assert_eq!(decoded[0].image.dimensions(), (8, 8));
    assert_eq!(decoded[0].delay_ms, 40, "frame timing lost");
    // Frame 0 black, frame 1 white: the animation is not a still.
    assert!(decoded[0].image.get_pixel(0, 0)[0] < 64);
    assert!(decoded[1].image.get_pixel(0, 0)[0] > 192);
}

#[test]
fn rejects_empty_and_ragged_input() {
    assert!(write_gif_to(&vec![]).is_err());
    assert_eq!(write_gif_to(&vec![]).unwrap_err().message(), "no frames to encode");
    let ragged = vec![frame(8, 8, 0, 10), frame(9, 8, 0, 10)];
    let err = write_gif_to(&ragged).unwrap_err();
    assert!(err.message().contains("one size"), "{}", err.message());
    assert_eq!(err, AnimError::Ragged(9, 8, 8, 8));
}

#[test]
fn frames_too_wide_for_the_format_are_not_encoded() {
    let err = write_gif_to(&vec![frame(65_536, 1, 0, 10)]).unwrap_err();
    assert_eq!(err, AnimError::Encode);
    assert_eq!(err.message(), "failed to encode frames");
}

#[test]
fn simple_animations_come_back_pixel_by_pixel() {
    // Opaque frames of few colors, and delays that are no whole hundredths.
    let mut frames = Vec::new();
    for n in 0..3u32 {
        let mut image = RgbaImage::from_pixel(16, 9, [0, 0, 0, 255]);
        for y in 0..9 {
            for x in 0..16 {
                image.put_pixel(x, y, [(x * 16) as u8, (y * 28) as u8, (n * 100) as u8, 255]);
            }
        }
        frames.push(Frame { image, delay_ms: 37 + 10 * n });
    }
    let back = decode_frames(&write_gif_to(&frames).unwrap(), Drawing::none(), 256).unwrap();
    assert_eq!(back.len(), 3);
    for (sent, got) in frames.iter().zip(&back) {
        assert_eq!(got.image.as_raw(), sent.image.as_raw());
        assert_eq!(got.delay_ms, sent.delay_ms / 10 * 10);
    }
}

#[test]
fn long_delays_are_held_to_the_range_of_the_format() {
    let back = decode_frames(&write_gif_to(&vec![frame(2, 2, 9, 7_000_000)]).unwrap(), Drawing::none(), 256).unwrap();
    assert_eq!(back[0].delay_ms, 655_350);
    let back = decode_frames(&write_gif_to(&vec![frame(2, 2, 9, 0)]).unwrap(), Drawing::none(), 256).unwrap();
    assert_eq!(back[0].delay_ms, 100);
}

#[test]
fn detects_gif_output_paths() {
    assert!(wants_gif("out.gif"));
    assert!(wants_gif("OUT.GIF"));
    assert!(!wants_gif("out.png"));
    assert!(!wants_gif("out"));
}

#[test]
fn output_paths_are_read_like_paths() {
    assert!(wants_gif("dir.png/out.gif"));
    assert!(!wants_gif("dir.gif/out"));
    assert!(!wants_gif(".gif"));
    assert!(!wants_gif("gif"));
    assert!(wants_gif("a.b.gif"));
    assert!(wants_gif("out.gif/"));
    assert!(!wants_gif("out.gif/.."));
    assert!(keeps_alpha("a.png") && keeps_alpha("a.GIF") && keeps_alpha("a.webp"));
    assert!(keeps_alpha("a"));
    assert!(!keeps_alpha("a.jpg") && !keeps_alpha("a."));
}

#[test]
fn to_even_rounds_dimensions_down() {
    let odd = RgbaImage::from_pixel(7, 5, [1, 2, 3, 255]);
    assert_eq!(to_even(&odd).dimensions(), (6, 4));
    let even = RgbaImage::from_pixel(8, 4, [1, 2, 3, 255]);
    assert_eq!(to_even(&even).dimensions(), (8, 4));
    let thin = RgbaImage::from_pixel(1, 5, [1, 2, 3, 255]);
    assert_eq!(to_even(&thin).dimensions(), (1, 4));
}

#[test]
fn parses_ffprobe_csv() {
    let spec = parse_probe("1920,1080,30000/1001\n").unwrap();
    assert_eq!(spec.width, 1920);
    assert_eq!(spec.height, 1080);
    let fps = f64::from_bits(spec.fps.bits);
    assert!((fps - 29.97).abs() < 0.01, "{fps}");
    assert_eq!(fps, 30000.0 / 1001.0);

    assert_eq!(parse_probe("640,480,25\n").unwrap().fps, double(25.0));
}

#[test]
fn rejects_unusable_probe_output() {
    for bad in ["", "\n", "abc,480,25", "640,480,0/1", "0,480,25", "640,480,x/y"] {
        assert!(parse_probe(bad).is_err(), "accepted {bad:?}");
    }
}

#[test]
fn probe_errors_say_what_is_wrong() {
    let said = |text: &str| parse_probe(text).unwrap_err().message();
    assert_eq!(said(" \n\t\n"), "ffprobe returned nothing");
    assert_eq!(said("-1,480,25"), "bad width");
    assert_eq!(said("640,,25"), "bad height");
    assert_eq!(said("640,4294967296,25"), "bad height");
    assert_eq!(said("640,480"), "bad fps");
    assert_eq!(said("640,480,30/"), "bad fps");
    assert_eq!(said("640,480,30/-0.0"), "frame rate has a zero denominator");
    assert_eq!(said("640,0,25"), "video stream is 640x0");
    assert_eq!(said("640,480,0/1"), "video stream reports 0 fps");
    assert_eq!(said("640,480,inf"), "video stream reports inf fps");
    assert_eq!(said("640,480,-2.5"), "video stream reports -2.5 fps");
}

#[test]
fn probe_output_may_have_blanks_and_more_fields() {
    let spec = parse_probe("\r\n  +640 , 480 , 12.5 ,x\n1,2,3\n").unwrap();
    assert_eq!(spec, Spec { width: 640, height: 480, fps: double(12.5) });
}

#[test]
fn video_options_are_checked() {
    let spec = Spec { width: 2, height: 2, fps: double(24.0) };
    let plain = VideoOptions::default();
    assert_eq!(output_fps(&plain, &spec), Ok(double(24.0)));
    assert_eq!(plain.crf, 20);
    let asked = VideoOptions { fps: Some(double(8.0)), ..plain };
    assert_eq!(output_fps(&asked, &spec), Ok(double(8.0)));
    for bad in [0.0, -1.0, f64::NAN, f64::INFINITY] {
        let opts = VideoOptions { fps: Some(double(bad)), ..plain };
        let e = output_fps(&opts, &spec).unwrap_err();
        assert_eq!(e, VideoError::BadRequest);
        assert_eq!(e.message(), "--fps must be a positive number");
    }
    for bad in [-0.1, 1.0, f32::NAN] {
        let opts = VideoOptions { overlay: single(bad), ..plain };
        let e = output_fps(&opts, &spec).unwrap_err();
        assert_eq!(e, VideoError::BadOverlay);
        assert_eq!(e.message(), "--overlay must be between 0 (off) and 1");
    }
}

/// Fills a buffer from a reader, step by step.
fn fill(reader: &mut impl Read, buf: &mut [u8]) -> ReadStep {
    let mut filled = 0;
    loop {
        let event = match reader.read(&mut buf[filled..]) {
            Ok(n) => ReadEvent::Bytes(n),
            Err(e) if e.kind() == std::io::ErrorKind::Interrupted => ReadEvent::Interrupted,
            Err(_) => ReadEvent::Failed,
        };
        match read_frame(filled, buf.len(), event) {
            ReadStep::More(n) => filled = n,
            step => return step,
        }
    }
}

#[test]
fn reads_whole_frames_and_stops_at_eof() {
    let data = vec![7u8; 10];
    let mut cursor = std::io::Cursor::new(data);
    let mut buf = [0u8; 4];
    assert_eq!(fill(&mut cursor, &mut buf), ReadStep::Complete);
    assert_eq!(buf, [7; 4]);
    assert_eq!(fill(&mut cursor, &mut buf), ReadStep::Complete);
    // 2 bytes left: a torn frame ends the stream instead of being used.
    assert_eq!(fill(&mut cursor, &mut buf), ReadStep::Ended);
    assert_eq!(fill(&mut std::io::empty(), &mut buf), ReadStep::Ended);
}

#[test]
fn interrupted_reads_are_repeated() {
    assert_eq!(read_frame(3, 9, ReadEvent::Interrupted), ReadStep::More(3));
    assert_eq!(read_frame(3, 9, ReadEvent::Bytes(2)), ReadStep::More(5));
    assert_eq!(read_frame(3, 9, ReadEvent::Bytes(6)), ReadStep::Complete);
    assert_eq!(read_frame(3, 9, ReadEvent::Failed), ReadStep::Failed);
}

#[test]
fn overlay_lands_in_the_bottom_right_corner() {
    let mut canvas = RgbaImage::from_pixel(100, 50, [0, 0, 0, 255]);
    let source = RgbaImage::from_pixel(40, 20, [255, 0, 0, 255]);
    overlay_source(&mut canvas, &source, single(0.2));
    assert_eq!(canvas.get_pixel(99, 49), [255, 0, 0, 255], "corner not pasted");
    assert_eq!(canvas.get_pixel(0, 0), [0, 0, 0, 255], "overlay leaked");
    // The inset is 20 by 10.
    let red = (0..50)
        .flat_map(|y| (0..100).map(move |x| (x, y)))
        .filter(|&(x, y)| canvas.get_pixel(x, y) == [255, 0, 0, 255])
        .count();
    assert_eq!(red, 200);
}

#[test]
fn overlay_that_would_not_fit_is_skipped() {
    let mut canvas = RgbaImage::from_pixel(10, 2, [0, 0, 0, 255]);
    let source = RgbaImage::from_pixel(40, 400, [255, 0, 0, 255]);
    overlay_source(&mut canvas, &source, single(0.9));
    assert!(canvas.as_raw().chunks(4).all(|p| p == [0, 0, 0, 255]));
}

#[test]
fn overlays_are_resized_with_a_triangle_filter() {
    let mut source = RgbaImage::from_pixel(8, 8, [0, 0, 0, 255]);
    for y in 0..8 {
        for x in 4..8 {
            source.put_pixel(x, y, [200, 100, 0, 255]);
        }
    }
    let plain = image::RgbaImage::from_raw(8, 8, source.as_raw().clone()).unwrap();
    let small =
        image::imageops::resize(&plain, 5, 5, image::imageops::FilterType::Triangle).into_raw();
    let mut canvas = RgbaImage::from_pixel(10, 6, [9, 9, 9, 9]);
    overlay_source(&mut canvas, &source, single(0.5));
    for y in 0..5 {
        for x in 0..5 {
            let at = (4 * (5 * y + x)) as usize;
            assert_eq!(&canvas.get_pixel(5 + x, 1 + y)[..], &small[at..at + 4]);
        }
    }
    assert_eq!(canvas.get_pixel(4, 5), [9, 9, 9, 9]);
}

#[test]
fn images_of_any_height_can_be_resized() {
    assert!(is_resizable(10, 9_000_000, 5, 100));
    assert!(is_resizable(1920, 1080, 384, 216));
    assert!(is_resizable(16, 9, 1600, 900));
    assert!(is_resizable(0, 7, 5, 5));
    assert!(!is_resizable(u32::MAX, 1, u32::MAX - 1, u32::MAX));
}

#[test]
fn encoder_arguments_follow_the_output() {
    let mp4 = encoder_args("out.mp4", 120, 80, double(29.97), 18);
    assert_eq!(
        mp4.join(" "),
        "-v error -y -f rawvideo -pix_fmt rgba -s 120x80 -framerate 29.97 -i - -an -c:v libx264 -preset medium -crf 18 -pix_fmt yuv420p"
    );
    let gif = encoder_args("out.GIF", 2, 4, double(6.0), 18);
    assert_eq!(
        gif.join(" "),
        "-v error -y -f rawvideo -pix_fmt rgba -s 2x4 -framerate 6 -i - -an -vf split[a][b];[a]palettegen=stats_mode=diff[p];[b][p]paletteuse=dither=bayer -loop 0"
    );
}

#[test]
fn images_keep_their_bytes() {
    assert!(RgbaImage::from_raw(2, 1, vec![0; 7]).is_none());
    let mut img = RgbaImage::from_raw(2, 1, vec![1, 2, 3, 4, 5, 6, 7, 8]).unwrap();
    assert_eq!(img.get_pixel(1, 0), [5, 6, 7, 8]);
    img.put_pixel(0, 0, [9, 8, 7, 6]);
    assert_eq!(img.duplicate().into_raw(), vec![9, 8, 7, 6, 5, 6, 7, 8]);
    assert_eq!(RgbaImage::new(1, 2).into_raw(), vec![0; 8]);
}
