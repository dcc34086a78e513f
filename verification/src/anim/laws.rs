//! What holds of animations that are written.

use crate::anim;
use crate::input::Frame;
use crate::paths;
use vstd::prelude::*;

verus! {

/// Sides are made even by dropping one pixel at most, and a single pixel stays.
pub proof fn law_sides_are_made_even(n: u32)
    ensures
        n >= 2 ==> anim::evened(n) % 2 == 0 && anim::evened(n) <= n <= anim::evened(n) + 1,
        n < 2 ==> anim::evened(n) == n,
{
}

/// Frames are written with their own size and pixels, each for its own delay, but for a
/// millisecond at least.
pub proof fn law_frames_are_written_as_they_are(frames: Seq<Frame>, i: int)
    requires
        0 <= i < frames.len(),
    ensures
        anim::timed_values(frames).len() == frames.len(),
        anim::timed_values(frames)[i].0 == (if frames[i].delay_ms == 0 {
            1
        } else {
            frames[i].delay_ms
        }),
        anim::timed_values(frames)[i].1 == frames[i].image.width(),
        anim::timed_values(frames)[i].2 == frames[i].image.height(),
        anim::timed_values(frames)[i].3 == frames[i].image@,
{
}

/// The frame that an animation is refused for is the first one whose size is not that of the
/// first frame of all.
pub proof fn law_first_odd_frame(frames: Seq<Frame>, from: int)
    requires
        0 <= from <= frames.len(),
    ensures
        match anim::first_odd(frames, from) {
            Some(i) => {
                &&& from <= i < frames.len()
                &&& (frames[i].image.width() != frames[0].image.width() || frames[i].image.height()
                    != frames[0].image.height())
                &&& forall|j: int|
                    from <= j < i ==> (#[trigger] frames[j]).image.width()
                        == frames[0].image.width() && frames[j].image.height()
                        == frames[0].image.height()
            },
            None => forall|j: int|
                from <= j < frames.len() ==> (#[trigger] frames[j]).image.width()
                    == frames[0].image.width() && frames[j].image.height()
                    == frames[0].image.height(),
        },
    decreases frames.len() - from,
{
    if from < frames.len() {
        law_first_odd_frame(frames, from + 1);
    }
}

/// Alpha is kept for files with the extensions of PNG, GIF and WebP in any case, and for those
/// without an extension.
pub proof fn law_alpha_is_kept_where_the_format_has_it(
    dir: Seq<char>,
    stem: Seq<char>,
    ext: Seq<char>,
)
    requires
        dir.len() == 0 || dir.last() == '/',
        stem.len() > 0,
        paths::laws::free_of(stem, '/'),
        paths::laws::free_of(ext, '/'),
        paths::laws::free_of(ext, '.'),
        stem != seq!['.'],
        stem != seq!['.', '.'],
    ensures
        ({
            let low = paths::lowered(ext);
            anim::spec_keeps_alpha(dir + (stem + seq!['.'] + ext)) == (low == "png"@ || low
                == "gif"@ || low == "webp"@)
        }),
        paths::laws::free_of(stem.skip(1), '.') ==> anim::spec_keeps_alpha(dir + stem),
{
    let none = Seq::<char>::empty();
    let path = dir + (stem + seq!['.'] + ext);
    paths::laws::law_extensions_follow_the_last_dot(dir, stem, ext, none);
    assert(path + none =~= path);
    if paths::laws::free_of(stem.skip(1), '.') {
        paths::laws::law_names_without_a_dot_have_no_extension(dir, stem, none);
        assert(dir + stem + none =~= dir + stem);
    }
}

} // verus!
