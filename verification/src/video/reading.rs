//! What probes say.

use crate::float::{Double, Single};
use crate::json::reading;
use crate::text;
use crate::text::laws;
use crate::video;
use crate::video::{ReadEvent, ReadStep, Spec, VideoOptions};
use vstd::prelude::*;

verus! {

/// Whether a text has neither white space nor one of the characters that part the fields of a
/// probe.
pub open spec fn plain(s: Seq<char>) -> bool {
    forall|i: int|
        0 <= i < s.len() ==> !text::is_space(#[trigger] s[i]) && s[i] != ',' && s[i] != '/' && s[i]
            != '\n'
}

/// Blank lines before a line do not matter.
proof fn lemma_skip(s: Seq<char>, from: int, at: int)
    requires
        0 <= from <= at <= s.len(),
        forall|i: int| from <= i < at ==> text::is_space(#[trigger] s[i]),
        at == from || s[at - 1] == '\n',
    ensures
        video::first_line(s, from) == video::first_line(s, at),
    decreases at - from,
{
    if from < at {
        let end = text::index_from(s, '\n', from);
        laws::law_first_places(s, '\n', from);
        assert(end <= at - 1) by {
            if end > at - 1 {
                assert(s[at - 1] != '\n');
            }
        }
        let line = s.subrange(from, end);
        let none = Seq::<char>::empty();
        assert(laws::blank(line)) by {
            assert forall|i: int| 0 <= i < line.len() implies text::is_space(#[trigger] line[i]) by {
                assert(line[i] == s[from + i]);
            }
        }
        laws::law_trimming_bares_a_text(line, none, none);
        assert(line + none + none =~= line);
        lemma_skip(s, end + 1, at);
    }
}

/// The line at a place of a text.
proof fn lemma_line(s: Seq<char>, at: int, line: Seq<char>)
    requires
        0 <= at,
        at + line.len() <= s.len(),
        line.len() > 0,
        s.subrange(at, at + line.len()) == line,
        laws::bare(line),
        forall|i: int| 0 <= i < line.len() ==> #[trigger] line[i] != '\n',
        at + line.len() == s.len() || s[at + line.len()] == '\n',
    ensures
        video::first_line(s, at) == Some(line),
{
    let end = at + line.len();
    assert forall|i: int| at <= i < end implies #[trigger] s[i] != '\n' by {
        assert(line[i - at] == s[i]);
    }
    if end == s.len() {
        laws::lemma_no_place(s, '\n', at);
    } else {
        laws::lemma_place(s, '\n', at, end);
    }
    let none = Seq::<char>::empty();
    laws::law_trimming_bares_a_text(none, line, none);
    assert(none + line + none =~= line);
}

/// A field and what follows it.
proof fn lemma_field(a: Seq<char>, c: char, b: Seq<char>)
    requires
        forall|i: int| 0 <= i < a.len() ==> #[trigger] a[i] != c,
    ensures
        video::before(a + seq![c] + b, c) == a,
        video::behind(a + seq![c] + b, c) == b,
        text::index_from(a + seq![c] + b, c, 0) == a.len(),
{
    let s = a + seq![c] + b;
    assert(s[a.len() as int] == c);
    assert forall|i: int| 0 <= i < a.len() implies #[trigger] s[i] != c by {
        assert(s[i] == a[i]);
    }
    laws::lemma_place(s, c, 0, a.len() as int);
    assert(s.take(a.len() as int) =~= a);
    assert(s.skip((a.len() + 1) as int) =~= b);
}

/// A text without white space is trimmed.
proof fn lemma_trimmed(s: Seq<char>)
    requires
        laws::bare(s),
    ensures
        text::trimmed(s) == s,
{
    let none = Seq::<char>::empty();
    laws::law_trimming_bares_a_text(none, s, none);
    assert(none + s + none =~= s);
}

/// Numbers in decimal notation are plain.
proof fn lemma_plain(n: nat)
    ensures
        plain(text::decimal(n)),
        text::decimal(n).len() > 0,
{
    laws::lemma_decimal(n);
    let s = text::decimal(n);
    assert forall|i: int| 0 <= i < s.len() implies !text::is_space(#[trigger] s[i]) && s[i] != ','
        && s[i] != '/' && s[i] != '\n' by {
        assert(laws::is_digit(s[i]));
        assert(',' as u32 == 0x2c && '/' as u32 == 0x2f && '\n' as u32 == 0x0a);
    }
}

/// Whether a text has neither white space nor commas nor line ends.
spec fn unparted(s: Seq<char>) -> bool {
    forall|i: int|
        0 <= i < s.len() ==> !text::is_space(#[trigger] s[i]) && s[i] != ',' && s[i] != '\n'
}

/// Nothing in a ratio parts fields.
proof fn lemma_ratio(num: Seq<char>, den: Seq<char>)
    requires
        plain(num),
        plain(den),
    ensures
        unparted(num + seq!['/'] + den),
{
    let s = num + seq!['/'] + den;
    assert forall|i: int| 0 <= i < s.len() implies !text::is_space(#[trigger] s[i]) && s[i] != ','
        && s[i] != '\n' by {
        if i < num.len() {
            assert(s[i] == num[i]);
        } else if i > num.len() {
            assert(s[i] == den[i - num.len() - 1]);
        } else {
            assert('/' as u32 == 0x2f);
        }
    }
}

/// Fields with a comma between them make a line.
proof fn lemma_joined(a: Seq<char>, b: Seq<char>)
    requires
        a.len() > 0,
        b.len() > 0,
        !text::is_space(a[0]),
        !text::is_space(b.last()),
        forall|i: int| 0 <= i < a.len() ==> #[trigger] a[i] != '\n',
        forall|i: int| 0 <= i < b.len() ==> #[trigger] b[i] != '\n',
    ensures
        laws::bare(a + seq![','] + b),
        forall|i: int|
            0 <= i < (a + seq![','] + b).len() ==> #[trigger] (a + seq![','] + b)[i] != '\n',
{
    let s = a + seq![','] + b;
    assert(s[0] == a[0]);
    assert(s.last() == b.last());
    assert forall|i: int| 0 <= i < s.len() implies #[trigger] s[i] != '\n' by {
        if i < a.len() {
            assert(s[i] == a[i]);
        } else if i > a.len() {
            assert(s[i] == b[i - a.len() - 1]);
        }
    }
}

/// The line of a text behind blank ones and before others.
proof fn lemma_among(head: Seq<char>, line: Seq<char>, rest: Seq<char>)
    requires
        laws::blank(head),
        head.len() == 0 || head.last() == '\n',
        rest.len() == 0 || rest[0] == '\n',
        line.len() > 0,
        laws::bare(line),
        forall|i: int| 0 <= i < line.len() ==> #[trigger] line[i] != '\n',
    ensures
        video::first_line(head + line + rest, 0) == Some(line),
{
    let s = head + line + rest;
    let at = head.len() as int;
    assert(s.subrange(at, at + line.len()) =~= line);
    assert forall|i: int| 0 <= i < at implies text::is_space(#[trigger] s[i]) by {
        assert(s[i] == head[i]);
    }
    if at > 0 {
        assert(s[at - 1] == head.last());
    }
    if rest.len() > 0 {
        assert(s[(at + line.len()) as int] == rest[0]);
    }
    lemma_skip(s, 0, at);
    lemma_line(s, at, line);
}

/// The rate that a text stands for.
proof fn lemma_rate(num: Seq<char>, den: Option<Seq<char>>)
    requires
        plain(num),
        den matches Some(d) ==> plain(d),
    ensures
        match den {
            Some(d) => video::parsed_rate(num + seq!['/'] + d) == match (
                video::number_of(num),
                video::number_of(d),
            ) {
                (Some(n), Some(m)) => if video::is_zero(m) {
                    Err::<Double, video::VideoError>(video::VideoError::ZeroDenominator)
                } else {
                    Ok(n.over(m))
                },
                _ => Err(video::VideoError::BadFps),
            },
            None => video::parsed_rate(num) == match video::number_of(num) {
                Some(v) => Ok::<Double, video::VideoError>(v),
                None => Err(video::VideoError::BadFps),
            },
        },
{
    match den {
        Some(d) => {
            lemma_field(num, '/', d);
        },
        None => {
            laws::lemma_no_place(num, '/', 0);
        },
    }
}

/// The fields of a line.
proof fn lemma_fields(w: Seq<char>, h: Seq<char>, rate: Seq<char>)
    requires
        plain(w),
        plain(h),
        unparted(rate),
    ensures
        ({
            let line = w + seq![','] + (h + seq![','] + rate);
            let second = video::behind(line, ',');
            &&& text::trimmed(video::before(line, ',')) == w
            &&& text::trimmed(video::before(second, ',')) == h
            &&& text::trimmed(video::before(video::behind(second, ','), ',')) == rate
        }),
{
    lemma_field(w, ',', h + seq![','] + rate);
    lemma_field(h, ',', rate);
    laws::lemma_no_place(rate, ',', 0);
    assert(rate.take(rate.len() as int) =~= rate);
    lemma_trimmed(w);
    lemma_trimmed(h);
    lemma_trimmed(rate);
}

/// What a probe prints reads back: a line of width, height and rate, apart by commas, gives
/// just these. The rate is a number, or a ratio that is divided out. Blank lines before it and
/// further lines behind it do not matter.
#[verifier::spinoff_prover]
pub proof fn law_probes_read_back(
    head: Seq<char>,
    width: u32,
    height: u32,
    num: Seq<char>,
    den: Option<Seq<char>>,
    rest: Seq<char>,
)
    requires
        laws::blank(head),
        head.len() == 0 || head.last() == '\n',
        rest.len() == 0 || rest[0] == '\n',
        width > 0,
        height > 0,
        num.len() > 0,
        plain(num),
        den matches Some(d) ==> d.len() > 0 && plain(d),
    ensures
        ({
            let rate = match den {
                Some(d) => num + seq!['/'] + d,
                None => num,
            };
            let line = text::decimal(width as nat) + seq![','] + (text::decimal(height as nat) + seq![
                ',',
            ] + rate);
            let r = video::parsed_probe(head + line + rest);
            let value = match den {
                Some(d) => match (video::number_of(num), video::number_of(d)) {
                    (Some(n), Some(d)) => if video::is_zero(d) {
                        None
                    } else {
                        Some(n.over(d))
                    },
                    _ => None,
                },
                None => video::number_of(num),
            };
            match value {
                Some(fps) => if video::rate_ok(fps) {
                    r == Ok::<Spec, video::VideoError>(Spec { width, height, fps })
                } else {
                    r == Err::<Spec, video::VideoError>(video::VideoError::BadRate(fps))
                },
                None => r is Err,
            }
        }),
{
    let (w, h) = (text::decimal(width as nat), text::decimal(height as nat));
    let rate = match den {
        Some(d) => num + seq!['/'] + d,
        None => num,
    };
    lemma_plain(width as nat);
    lemma_plain(height as nat);
    if let Some(d) = den {
        lemma_ratio(num, d);
    }
    assert(unparted(rate) && rate.len() > 0);
    assert(!text::is_space(w[0]) && !text::is_space(h[0]) && !text::is_space(
        rate[rate.len() - 1],
    ));
    lemma_joined(h, rate);
    let second = h + seq![','] + rate;
    assert(second.last() == rate.last());
    lemma_joined(w, second);
    lemma_among(head, w + seq![','] + second, rest);
    lemma_fields(w, h, rate);
    lemma_rate(num, den);
    laws::law_numbers_parse_back(width as nat, Seq::empty());
    laws::law_numbers_parse_back(height as nat, Seq::empty());
}

/// A rate is accepted if and only if it is a number above zero and not infinite; the one asked
/// for counts, and that of the source where none is. An overlay is accepted if and only if it is
/// at least zero and below one.
pub proof fn law_requests_are_checked(opts: &VideoOptions, spec: &Spec)
    ensures
        ({
            let fps = match opts.fps {
                Some(fps) => fps,
                None => spec.fps,
            };
            let good = 0 < fps.bits < 0x7ff0_0000_0000_0000;
            let room = opts.overlay.bits < 0x3f80_0000 || opts.overlay.bits == 0x8000_0000;
            video::spec_output_fps(opts, spec) == if !good {
                Err::<Double, video::VideoError>(video::VideoError::BadRequest)
            } else if !room {
                Err(video::VideoError::BadOverlay)
            } else {
                Ok(fps)
            }
        }),
{
    reveal(Double::spec_less);
    reveal(Double::spec_is_nan);
    reveal(Double::spec_is_finite);
    reveal(Single::spec_less);
    reveal(Single::spec_is_nan);
}

/// An encoder is told what it gets and what to make of it: raw pixels of the given size at the
/// given rate; for a GIF with a palette made for the clip and without an end, else in the given
/// quality.
pub proof fn law_encoders_are_told_size_rate_and_quality(
    width: u32,
    height: u32,
    fps: Double,
    crf: u8,
) -> (parts: (Seq<char>, Seq<char>, Seq<char>))
    ensures
        ({
            let head = video::encoder_head(width, height, fps);
            let video = video::encoder_codec(false, crf);
            let gif = video::encoder_codec(true, crf);
            &&& reading::read_number(parts.0) == Some(width as int)
            &&& reading::read_number(parts.1) == Some(height as int)
            &&& reading::read_number(parts.2) == Some(crf as int)
            &&& head.len() == 14
            &&& head[3] == "-f"@ && head[4] == "rawvideo"@
            &&& head[5] == "-pix_fmt"@ && head[6] == "rgba"@
            &&& head[7] == "-s"@ && head[8] == parts.0 + seq!['x'] + parts.1
            &&& head[9] == "-framerate"@ && head[10] == video::double_text(fps.bits)
            &&& head[11] == "-i"@ && head[12] == "-"@
            &&& video.len() == 8
            &&& video[0] == "-c:v"@ && video[1] == "libx264"@
            &&& video[4] == "-crf"@ && video[5] == parts.2
            &&& video[6] == "-pix_fmt"@ && video[7] == "yuv420p"@
            &&& gif.len() == 4
            &&& gif[0] == "-vf"@ && gif[2] == "-loop"@ && gif[3] == "0"@
        }),
{
    reveal_strlit("x");
    assert("x"@ =~= seq!['x']);
    reading::law_numbers_read_back(width as nat);
    reading::law_numbers_read_back(height as nat);
    reading::law_numbers_read_back(crf as nat);
    (text::decimal(width as nat), text::decimal(height as nat), text::decimal(crf as nat))
}

/// How many bytes attempts to read brought, each of some bytes or interrupted.
pub open spec fn brought(events: Seq<ReadEvent>) -> int
    decreases events.len(),
{
    if events.len() == 0 {
        0
    } else {
        brought(events.drop_last()) + match events.last() {
            ReadEvent::Bytes(n) => n as int,
            _ => 0,
        }
    }
}

/// Where a frame stands after attempts to read, as long as it goes on.
pub open spec fn after_reading(filled: usize, len: usize, events: Seq<ReadEvent>) -> ReadStep
    decreases events.len(),
{
    if events.len() == 0 {
        ReadStep::More(filled)
    } else {
        match after_reading(filled, len, events.drop_last()) {
            ReadStep::More(n) => video::spec_read_frame(n, len, events.last()),
            other => other,
        }
    }
}

/// A frame is read until its last byte is there, in however many pieces it comes and however
/// often reading is interrupted; it is complete then, and not before. The end of the stream
/// before that is the end of the frames, and a failure is one.
pub proof fn law_frames_are_read_to_their_last_byte(len: usize, events: Seq<ReadEvent>)
    requires
        len > 0,
        forall|i: int|
            0 <= i < events.len() ==> (#[trigger] events[i] is Interrupted || (events[i]
                matches ReadEvent::Bytes(n) && n > 0)),
        brought(events) <= len,
        events.len() > 0 ==> events.last() is Bytes,
    ensures
        brought(events) < len ==> after_reading(0, len, events) == ReadStep::More(
            brought(events) as usize,
        ),
        brought(events) == len ==> after_reading(0, len, events) == ReadStep::Complete,
        brought(events) < len ==> after_reading(0, len, events.push(ReadEvent::Bytes(0)))
            == ReadStep::Ended,
        brought(events) < len ==> after_reading(0, len, events.push(ReadEvent::Failed))
            == ReadStep::Failed,
    decreases events.len(),
{
    lemma_reading(len, events);
    assert(events.push(ReadEvent::Bytes(0)).drop_last() =~= events);
    assert(events.push(ReadEvent::Failed).drop_last() =~= events);
}

proof fn lemma_reading(len: usize, events: Seq<ReadEvent>)
    requires
        len > 0,
        forall|i: int|
            0 <= i < events.len() ==> (#[trigger] events[i] is Interrupted || (events[i]
                matches ReadEvent::Bytes(n) && n > 0)),
        brought(events) <= len,
        events.len() > 0 && brought(events) == len ==> events.last() is Bytes,
    ensures
        brought(events) >= 0,
        after_reading(0, len, events) == if brought(events) < len {
            ReadStep::More(brought(events) as usize)
        } else {
            ReadStep::Complete
        },
    decreases events.len(),
{
    if events.len() > 0 {
        let before = events.drop_last();
        let last = events[events.len() - 1];
        assert(last == events.last());
        assert forall|i: int| 0 <= i < before.len() implies (#[trigger] before[i] is Interrupted || (
        before[i] matches ReadEvent::Bytes(n) && n > 0)) by {
            assert(before[i] == events[i]);
        }
        assert(last is Interrupted || (last matches ReadEvent::Bytes(n) && n > 0));
        lemma_reading(len, before);
    }
}

} // verus!
