//! What names of charsets stand for.

use crate::charset;
use crate::charset::{Charset, ResolveError};
use crate::float;
use crate::float::near;
use crate::float::Single;
use crate::font;
use crate::paint::exact;
use vstd::prelude::*;

verus! {

/// A custom ramp is kept as it was given, all characters in their order, as long as it has two;
/// a shorter one is refused.
pub proof fn law_custom_ramps_are_kept(
    r: Result<Charset, ResolveError>,
    chars: Seq<char>,
    fonts: Seq<Seq<u8>>,
)
    requires
        charset::is_resolved(r, "custom:"@ + chars, fonts),
    ensures
        chars.len() >= 2 ==> (r matches Ok(Charset::Ramp(ramp)) && ramp@ == chars),
        chars.len() < 2 ==> (r matches Err(ResolveError::ShortCustom)),
{
    let name = "custom:"@ + chars;
    assert(name.subrange(0, "custom:"@.len() as int) =~= "custom:"@);
    assert("custom:"@.is_prefix_of(name));
    assert(name.skip("custom:"@.len() as int) =~= chars);
}

/// A name that is neither built in nor that of a custom ramp is refused, and named in the
/// refusal.
pub proof fn law_unknown_names_are_refused(
    r: Result<Charset, ResolveError>,
    name: Seq<char>,
    fonts: Seq<Seq<u8>>,
)
    requires
        charset::is_resolved(r, name, fonts),
        !"custom:"@.is_prefix_of(name),
        forall|i: int| 0 <= i < 15 ==> #[trigger] charset::NAMED[i]@ != name,
    ensures
        r matches Err(ResolveError::Unknown(unknown)) && unknown@ == name,
{
    assert(charset::NAMED[0]@ != name);
    assert(charset::NAMED[1]@ != name);
    assert(charset::NAMED[2]@ != name);
    assert(charset::NAMED[3]@ != name);
    assert(charset::NAMED[4]@ != name);
    assert(charset::NAMED[5]@ != name);
    assert(charset::NAMED[6]@ != name);
    assert(charset::NAMED[7]@ != name);
    assert(charset::NAMED[8]@ != name);
    assert(charset::NAMED[9]@ != name);
    assert(charset::NAMED[10]@ != name);
    assert(charset::NAMED[11]@ != name);
    assert(charset::NAMED[12]@ != name);
    assert(charset::NAMED[13]@ != name);
    assert(charset::NAMED[14]@ != name);
    reveal_with_fuel(charset::language_from, 12);
}

/// In the ramp of an alphabet characters are ordered by the share of their cell that is ink,
/// the darkest first, and a space is the last of all.
pub proof fn law_darker_glyphs_come_first(
    fonts: Seq<Seq<u8>>,
    chars: Seq<char>,
    ramp: Seq<char>,
    i: int,
    j: int,
)
    requires
        charset::is_density_ramp(fonts, chars, ramp),
        0 <= i < j < ramp.len() - 1,
        exact::finite(font::spec_coverage(fonts, ramp[i], (Single { bits: 0x4200_0000 }))),
        exact::finite(font::spec_coverage(fonts, ramp[j], (Single { bits: 0x4200_0000 }))),
    ensures
        near::single_value(font::spec_coverage(fonts, ramp[j], (Single { bits: 0x4200_0000 })))
            <= near::single_value(
            font::spec_coverage(fonts, ramp[i], (Single { bits: 0x4200_0000 })),
        ),
        ramp.last() == ' ',
{
    let f = float::single();
    let (a, b) = (
        font::spec_coverage(fonts, ramp[i], (Single { bits: 0x4200_0000 })),
        font::spec_coverage(fonts, ramp[j], (Single { bits: 0x4200_0000 })),
    );
    let s = ramp.drop_last();
    assert(s[i] == ramp[i] && s[j] == ramp[j]);
    assert(charset::denser(fonts, s[i], s[j]));
    near::lemma_codes(f, f.mag(a.bits as u64), f.mag(b.bits as u64));
    near::lemma_codes(f, f.mag(b.bits as u64), f.mag(a.bits as u64));
    assert(f.units(0) == 0) by {
        assert(0 * vstd::arithmetic::power2::pow2(0) == 0);
    }
    reveal(Single::spec_total_rank);
}

} // verus!
