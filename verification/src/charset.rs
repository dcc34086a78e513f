//! Character sets, ordered dark to light.
//!
//! A cell whose average brightness is 0 maps to the first character of the set
//! (the densest glyph), a white cell maps to the last (usually a space).
//! Language sets are sorted by measuring real glyph coverage in the fonts.
//!
//! `braille` is not a ramp at all: it switches [`crate::engine::convert`] into a
//! sub-cell sampling mode. See [`Charset`].

use crate::float::Single;
use crate::font;
use crate::font::FontStack;
use crate::text;
use vstd::prelude::*;
use vstd::seq_lib::*;

pub mod laws;
pub mod names;

verus! {

/// The short set of ten characters.
pub const SIMPLE: &'static str = "@%#*+=-:. ";

/// The long set of seventy characters.
pub const COMPLEX: &'static str =
    "$@B%8&WM#*oahkbdpqwmZO0QLCJUYXzcvunxrjft/\\|()1{}[]?-_+~<>i!lI;:,\"^`'. ";

/// Unicode block elements: great for chunky, high-contrast output.
pub const BLOCKS: &'static str = "█▓▒░ ";

/// The encoding of 32, the size at which glyph coverage is measured. Big enough
/// that antialiasing noise does not reorder neighbouring glyphs.
pub const DENSITY_PX: u32 = 0x4200_0000;

/// Language alphabets, density-sorted when they are resolved.
///
/// The last three rows need a font that covers them.
pub const LANGUAGES: [(&'static str, &'static str); 11] = [
    (
        "english",
        "AaBbCcDdEeFfGgHhIiJjKkLlMmNnOoPpQqRrSsTtUuVvWwXxYyZz",
    ),
    (
        "german",
        "AaÄäBbßCcDdEeFfGgHhIiJjKkLlMmNnOoÖöPpQqRrSsTtUuÜüVvWwXxYyZz",
    ),
    (
        "french",
        "AaBbCcDdEeFfGgHhIiJjKkLlMmNnOoPpQqRrSsTtUuVvWwXxYyZzÆæŒœÇçÀàÂâÉéÈèÊêËëÎîÏïÔôÛûÙùŸÿ",
    ),
    (
        "spanish",
        "AaBbCcDdEeFfGgHhIiJjKkLlMmNnOoPpQqRrSsTtUuVvWwXxYyZzÑñáéíóú¡¿",
    ),
    (
        "italian",
        "AaBbCcDdEeFfGgHhIiJjKkLlMmNnOoPpQqRrSsTtUuVvWwXxYyZzÀÈàèéìòù",
    ),
    (
        "portuguese",
        "AaBbCcDdEeFfGgHhIiJjKkLlMmNnOoPpQqRrSsTtUuVvWwXxYyZzàÀáÁâÂãÃçÇéÉêÊíÍóÓôÔõÕúÚ",
    ),
    (
        "polish",
        "AaBbCcDdEeFfGgHhIiJjKkLlMmNnOoPpRrSsTtUuWwYyZzĄąĘęÓóŁłŃńŻżŚśĆćŹź",
    ),
    (
        "russian",
        "АаБбВвГгДдЕеЁёЖжЗзИиЙйКкЛлМмНнОоПпРрСсТтУуФфХхЦцЧчШшЩщЪъЫыЬьЭэЮюЯя",
    ),
    (
        "chinese",
        "龘䶑瀰幗獼鑭躙䵹觿䲔釅欄鐮䥯鶒獭鰽襽螻鰱蹦屭繩圇婹歜剛屧磕媿慪像僭堳噞呱棒偁呣塙唑浠唼刻凌咄亟拮俗参坒估这聿布允仫忖玗甴木亪女去凸五圹亐囗弌九人亏产斗丩艹刂彳丬了５丄三亻讠厂丆丨１二宀冖乛一丶、",
    ),
    (
        "korean",
        "ㄱㄴㄷㄹㅁㅂㅅㅇㅈㅊㅋㅌㅍㅎㅏㅑㅓㅕㅗㅛㅜㅠㅡㅣ",
    ),
    (
        "japanese",
        "あいうえおかきくけこさしすせそたちつてとなにぬねのはひふへほまみむめもやゆよらりるれろわをんアイウエオカキクケコサシスセソタチツテトナニヌネノハヒフヘホマミムメモヤユヨラリルレロワヲン",
    ),
];

/// Names accepted for built-in sets.
pub const NAMED: [&'static str; 15] = [
    "simple",
    "complex",
    "blocks",
    "braille",
    "english",
    "german",
    "french",
    "spanish",
    "italian",
    "portuguese",
    "polish",
    "russian",
    "chinese",
    "korean",
    "japanese",
];

/// The densest braille cell (all eight dots), used for cell metrics.
pub const BRAILLE_FULL: char = '\u{28FF}';

/// The empty braille cell. Blank cells use a plain space instead, so text output
/// stays copy-pasteable, but the code point anchors the block.
pub const BRAILLE_BLANK: char = '\u{2800}';

/// How [`crate::engine::convert`] should turn cells into characters.
#[derive(Debug, Clone, PartialEq, Eq)]
pub enum Charset {
    /// One character per cell, picked from a dark to light ramp by cell luma.
    Ramp(Vec<char>),
    /// One braille pattern per cell, composed from a thresholded grid of dots,
    /// two wide and four tall: eight times the spatial resolution of a ramp.
    Braille,
}

impl Charset {
    /// The ramp, for the ramp mode only.
    pub fn ramp(&self) -> (r: Option<&[char]>)
        ensures
            match (*self, r) {
                (Charset::Ramp(ramp), Some(slice)) => slice@ == ramp@,
                (Charset::Braille, None) => true,
                _ => false,
            },
    {
        match self {
            Charset::Ramp(ramp) => Some(ramp.as_slice()),
            Charset::Braille => None,
        }
    }

    pub open spec fn spec_glyphs(&self) -> Seq<char> {
        match self {
            Charset::Ramp(ramp) => ramp@,
            Charset::Braille => seq![BRAILLE_FULL, BRAILLE_BLANK],
        }
    }

    /// Every glyph this charset can emit: what
    /// [`crate::font::FontStack::cell_metrics`] needs to size a cell. All 256
    /// braille patterns share one advance, so the densest cell stands in for the
    /// block.
    pub fn glyphs(&self) -> (r: Vec<char>)
        ensures
            r@ == self.spec_glyphs(),
    {
        match self {
            Charset::Ramp(ramp) => text::copy_chars(ramp),
            Charset::Braille => {
                let mut out: Vec<char> = Vec::new();
                out.push(BRAILLE_FULL);
                out.push(BRAILLE_BLANK);
                assert(out@ =~= seq![BRAILLE_FULL, BRAILLE_BLANK]);
                out
            },
        }
    }

    pub open spec fn spec_mode(&self) -> Seq<char> {
        match self {
            Charset::Ramp(_) => "ramp"@,
            Charset::Braille => "braille"@,
        }
    }

    /// Sampling mode as reported in structured output.
    pub fn mode(&self) -> (r: &'static str)
        ensures
            r@ == self.spec_mode(),
    {
        match self {
            Charset::Ramp(_) => "ramp",
            Charset::Braille => "braille",
        }
    }

    /// A copy of the charset.
    pub fn duplicate(&self) -> (r: Charset)
        ensures
            r.same(self),
    {
        match self {
            Charset::Ramp(ramp) => Charset::Ramp(text::copy_chars(ramp)),
            Charset::Braille => Charset::Braille,
        }
    }

    /// Whether two charsets have the same mode and the same characters.
    pub open spec fn same(&self, other: &Charset) -> bool {
        match (*self, *other) {
            (Charset::Ramp(a), Charset::Ramp(b)) => a@ == b@,
            (Charset::Braille, Charset::Braille) => true,
            _ => false,
        }
    }
}

/// Why a charset was not resolved.
#[derive(Debug, Clone)]
pub enum ResolveError {
    /// A custom set of fewer than two characters.
    ShortCustom,
    /// A name that is not a built-in one.
    Unknown(String),
    /// A glyph is too large for its coverage to be measured.
    GlyphTooLarge,
}

/// Names in the notation of a list of strings, from index `i` on.
pub open spec fn name_list(i: int) -> Seq<char>
    decreases NAMED.len() - i,
{
    if i < 0 || i >= NAMED.len() {
        "]"@
    } else {
        (if i == 0 {
            "[\""@
        } else {
            ", \""@
        }) + NAMED[i]@ + "\""@ + name_list(i + 1)
    }
}

/// Appends the names of the built-in sets, in the notation of a list of strings.
pub(crate) fn push_names(out: &mut String)
    ensures
        final(out)@ == old(out)@ + name_list(0),
{
    let names = NAMED;
    let mut i: usize = 0;
    while i < 15
        invariant
            i <= 15,
            names == NAMED,
            out@ + name_list(i as int) =~= old(out)@ + name_list(0),
        decreases 15 - i,
    {
        let ghost before = out@;
        out.append(
            if i == 0 {
                "[\""
            } else {
                ", \""
            },
        );
        out.append(names[i]);
        out.append("\"");
        proof {
            assert(before + name_list(i as int) =~= out@ + name_list(i + 1));
        }
        i = i + 1;
    }
    out.append("]");
    assert(name_list(15) == "]"@);
}

impl ResolveError {
    /// What the error says to a user.
    pub open spec fn spec_message(&self) -> Seq<char> {
        match self {
            ResolveError::ShortCustom => "custom charset needs at least 2 characters (dark → light)"@,
            ResolveError::Unknown(name) => "unknown charset '"@ + name@ + "'. Use one of "@
                + name_list(0) + " or 'custom:<chars>'"@,
            ResolveError::GlyphTooLarge => "a glyph is too large to measure"@,
        }
    }

    /// What the error says to a user.
    pub fn message(&self) -> (r: String)
        ensures
            r@ == self.spec_message(),
    {
        match self {
            ResolveError::ShortCustom => {
                "custom charset needs at least 2 characters (dark → light)".to_owned()
            },
            ResolveError::Unknown(name) => {
                let mut out = "unknown charset '".to_owned();
                out.append(name.as_str());
                out.append("'. Use one of ");
                push_names(&mut out);
                out.append(" or 'custom:<chars>'");
                out
            },
            ResolveError::GlyphTooLarge => "a glyph is too large to measure".to_owned(),
        }
    }
}

/// The alphabet of a language, looked up from index `i` on.
pub open spec fn language_from(name: Seq<char>, i: int) -> Option<Seq<char>>
    decreases LANGUAGES.len() - i,
{
    if i < 0 || i >= LANGUAGES.len() {
        None
    } else if LANGUAGES[i].0@ == name {
        Some(LANGUAGES[i].1@)
    } else {
        language_from(name, i + 1)
    }
}

/// The alphabet of a language.
pub open spec fn language(name: Seq<char>) -> Option<Seq<char>> {
    language_from(name, 0)
}

/// The rank of a character by the coverage of its glyph.
pub open spec fn density(fonts: Seq<Seq<u8>>, c: char) -> int {
    font::spec_coverage(fonts, c, (Single { bits: DENSITY_PX })).total_rank() as int
}

/// Whether the coverage of every character can be measured.
pub open spec fn measurable(fonts: Seq<Seq<u8>>, chars: Seq<char>) -> bool {
    forall|i: int|
        0 <= i < chars.len() ==> font::coverable(
            fonts,
            #[trigger] chars[i],
            (Single { bits: DENSITY_PX }),
        )
}

/// Whether no alphabet stands in the way of resolving a name.
pub open spec fn resolvable(fonts: Seq<Seq<u8>>, name: Seq<char>) -> bool {
    "custom:"@.is_prefix_of(name) || (language(name) matches Some(chars) ==> measurable(
        fonts,
        chars,
    ))
}

/// Whether `a` may stand before `b` in a ramp: the denser first, and of equally
/// dense ones the one with the smaller code point.
pub open spec fn denser(fonts: Seq<Seq<u8>>, a: char, b: char) -> bool {
    density(fonts, a) > density(fonts, b) || (density(fonts, a) == density(fonts, b) && a as u32
        <= b as u32)
}

/// Whether a sequence is ordered dark to light.
pub open spec fn is_dense_first(fonts: Seq<Seq<u8>>, s: Seq<char>) -> bool {
    forall|i: int, j: int|
        0 <= i < j < s.len() ==> denser(fonts, #[trigger] s[i], #[trigger] s[j])
}

/// Whether a ramp holds the given characters dark to light, and then a space as
/// its white end.
pub open spec fn is_density_ramp(fonts: Seq<Seq<u8>>, chars: Seq<char>, ramp: Seq<char>) -> bool {
    &&& ramp.len() > 0
    &&& ramp.last() == ' '
    &&& ramp.drop_last().to_multiset() == chars.to_multiset()
    &&& is_dense_first(fonts, ramp.drop_last())
}

/// What resolving a name gives.
pub open spec fn is_resolved(
    r: Result<Charset, ResolveError>,
    name: Seq<char>,
    fonts: Seq<Seq<u8>>,
) -> bool {
    if "custom:"@.is_prefix_of(name) {
        let custom = name.skip("custom:"@.len() as int);
        if custom.len() < 2 {
            r matches Err(ResolveError::ShortCustom)
        } else {
            r matches Ok(Charset::Ramp(ramp)) && ramp@ == custom
        }
    } else if name == "simple"@ {
        r matches Ok(Charset::Ramp(ramp)) && ramp@ == SIMPLE@
    } else if name == "complex"@ {
        r matches Ok(Charset::Ramp(ramp)) && ramp@ == COMPLEX@
    } else if name == "blocks"@ {
        r matches Ok(Charset::Ramp(ramp)) && ramp@ == BLOCKS@
    } else if name == "braille"@ {
        r matches Ok(Charset::Braille)
    } else {
        match language(name) {
            Some(chars) => r matches Ok(Charset::Ramp(ramp)) && is_density_ramp(
                fonts,
                chars,
                ramp@,
            ),
            None => r matches Err(ResolveError::Unknown(unknown)) && unknown@ == name,
        }
    }
}

/// What trying to resolve a name gives: what resolving it gives, but for an alphabet with
/// a glyph that cannot be drawn.
pub open spec fn is_tried(
    r: Result<Charset, ResolveError>,
    name: Seq<char>,
    fonts: Seq<Seq<u8>>,
) -> bool {
    if resolvable(fonts, name) {
        is_resolved(r, name, fonts)
    } else {
        r matches Err(ResolveError::GlyphTooLarge)
    }
}

/// Resolves the name of a charset using the built-in fonts.
///
/// Accepts a built-in name, or `custom:<chars>` where `<chars>` is any sequence
/// of characters already ordered dark to light.
pub fn resolve(name: &str, embedded: &FontStack) -> (r: Result<Charset, ResolveError>)
    requires
        resolvable(embedded@, name@),
    ensures
        is_resolved(r, name@, embedded@),
{
    resolve_with(name, embedded)
}

/// Resolves the name of a charset, measuring glyph density in `fonts`, unless a glyph to
/// be measured cannot be drawn.
pub fn try_resolve(name: &str, fonts: &FontStack) -> (r: Result<Charset, ResolveError>)
    ensures
        is_tried(r, name@, fonts@),
{
    if !is_resolvable(name, fonts) {
        return Err(ResolveError::GlyphTooLarge);
    }
    resolve_with(name, fonts)
}

/// Whether no alphabet stands in the way of resolving a name.
fn is_resolvable(name: &str, fonts: &FontStack) -> (r: bool)
    ensures
        r == resolvable(fonts@, name@),
{
    if text::starts_with(&text::chars_of(name), "custom:") {
        return true;
    }
    let languages = LANGUAGES;
    let mut i: usize = 0;
    while i < 11
        invariant
            i <= 11,
            languages == LANGUAGES,
            !"custom:"@.is_prefix_of(name@),
            language(name@) == language_from(name@, i as int),
        decreases 11 - i,
    {
        if text::same(languages[i].0, name) {
            return can_measure(languages[i].1, fonts);
        }
        i = i + 1;
    }
    true
}

/// Whether the coverage of every character can be measured.
pub fn can_measure(chars: &str, fonts: &FontStack) -> (r: bool)
    ensures
        r == measurable(fonts@, chars@),
{
    let all = text::chars_of(chars);
    let mut i: usize = 0;
    while i < all.len()
        invariant
            all@ == chars@,
            i <= all@.len(),
            forall|j: int|
                0 <= j < i ==> font::coverable(
                    fonts@,
                    #[trigger] all@[j],
                    (Single { bits: DENSITY_PX }),
                ),
        decreases all@.len() - i,
    {
        if fonts.try_coverage(all[i], Single { bits: DENSITY_PX }).is_none() {
            return false;
        }
        i = i + 1;
    }
    true
}

/// Resolves the name of a charset, measuring glyph density in `fonts`.
///
/// Pass the same stack you paint with so a font of the user also decides the
/// ramp order.
pub fn resolve_with(name: &str, fonts: &FontStack) -> (r: Result<Charset, ResolveError>)
    requires
        resolvable(fonts@, name@),
    ensures
        is_resolved(r, name@, fonts@),
{
    let chars = text::chars_of(name);
    if text::starts_with(&chars, "custom:") {
        proof {
            reveal_strlit("custom:");
        }
        assert("custom:"@.len() == 7);
        let custom = text::tail_of(&chars, 7);
        if custom.len() < 2 {
            return Err(ResolveError::ShortCustom);
        }
        return Ok(Charset::Ramp(custom));
    }
    if text::same(name, "simple") {
        return Ok(Charset::Ramp(text::chars_of(SIMPLE)));
    }
    if text::same(name, "complex") {
        return Ok(Charset::Ramp(text::chars_of(COMPLEX)));
    }
    if text::same(name, "blocks") {
        return Ok(Charset::Ramp(text::chars_of(BLOCKS)));
    }
    if text::same(name, "braille") {
        return Ok(Charset::Braille);
    }
    let languages = LANGUAGES;
    let mut i: usize = 0;
    while i < 11
        invariant
            i <= 11,
            languages == LANGUAGES,
            language(name@) == language_from(name@, i as int),
            !"custom:"@.is_prefix_of(name@),
            name@ != "simple"@,
            name@ != "complex"@,
            name@ != "blocks"@,
            name@ != "braille"@,
            resolvable(fonts@, name@),
        decreases 11 - i,
    {
        if text::same(languages[i].0, name) {
            return Ok(Charset::Ramp(density_sort_with(languages[i].1, fonts)));
        }
        i = i + 1;
    }
    Err(ResolveError::Unknown(name.to_owned()))
}

/// Sorts characters dark to light by glyph coverage in the built-in fonts.
pub fn density_sort(chars: &str, embedded: &FontStack) -> (r: Vec<char>)
    requires
        measurable(embedded@, chars@),
    ensures
        is_density_ramp(embedded@, chars@, r@),
{
    density_sort_with(chars, embedded)
}

/// Sorts characters dark to light by measuring per-glyph pixel coverage in
/// `fonts`, then appends a space as the white end of the ramp.
pub fn density_sort_with(chars: &str, fonts: &FontStack) -> (r: Vec<char>)
    requires
        measurable(fonts@, chars@),
    ensures
        is_density_ramp(fonts@, chars@, r@),
{
    let all = text::chars_of(chars);
    let mut ranks: Vec<i64> = Vec::new();
    let mut ramp: Vec<char> = Vec::new();
    let mut i: usize = 0;
    proof {
        assert(all@.take(0) =~= Seq::<char>::empty());
    }
    while i < all.len()
        invariant
            all@ == chars@,
            i <= all@.len(),
            ranks@.len() == i,
            ramp@.len() == i,
            measurable(fonts@, chars@),
            forall|j: int| 0 <= j < i ==> #[trigger] ranks@[j] == density(fonts@, ramp@[j]),
            ramp@.to_multiset() == all@.take(i as int).to_multiset(),
            is_dense_first(fonts@, ramp@),
        decreases all@.len() - i,
    {
        let c = all[i];
        let rank = fonts.coverage(c, Single { bits: DENSITY_PX }).total_rank();
        // Walk past everything that stays in front.
        let mut at: usize = 0;
        while at < i && (ranks[at] > rank || (ranks[at] == rank && ramp[at] as u32 <= c as u32))
            invariant
                at <= i,
                ranks@.len() == i,
                ramp@.len() == i,
                rank == density(fonts@, c),
                forall|j: int| 0 <= j < i ==> #[trigger] ranks@[j] == density(fonts@, ramp@[j]),
                forall|j: int| 0 <= j < at ==> denser(fonts@, #[trigger] ramp@[j], c),
            decreases i - at,
        {
            assert(ranks@[at as int] == density(fonts@, ramp@[at as int]));
            at = at + 1;
        }
        let ghost (ranks0, ramp0) = (ranks@, ramp@);
        ranks.insert(at, rank);
        ramp.insert(at, c);
        proof {
            assert(ramp@ =~= ramp0.insert(at as int, c));
            if at < i {
                assert(ranks0[at as int] == density(fonts@, ramp0[at as int]));
            }
            lemma_insert_dense(fonts@, ramp0, at as int, c);
            lemma_insert_multiset(ramp0, at as int, c);
            assert(all@.take(i + 1) =~= all@.take(i as int).push(c));
            to_multiset_build(all@.take(i as int), c);
            assert forall|j: int| 0 <= j < i + 1 implies #[trigger] ranks@[j] == density(
                fonts@,
                ramp@[j],
            ) by {
                if j < at {
                    assert(ranks0[j] == density(fonts@, ramp0[j]));
                } else if j > at {
                    assert(ranks0[j - 1] == density(fonts@, ramp0[j - 1]));
                }
            }
        }
        i = i + 1;
    }
    let ghost sorted = ramp@;
    ramp.push(' ');
    proof {
        assert(all@.take(all@.len() as int) =~= all@);
        assert(ramp@.drop_last() =~= sorted);
    }
    ramp
}

/// The order of a ramp is total and transitive.
proof fn lemma_denser(fonts: Seq<Seq<u8>>, a: char, b: char, c: char)
    ensures
        denser(fonts, a, b) || denser(fonts, b, a),
        denser(fonts, a, b) && denser(fonts, b, c) ==> denser(fonts, a, c),
{
}

/// Inserting a character behind what stays in front of it keeps the order.
proof fn lemma_insert_dense(fonts: Seq<Seq<u8>>, s: Seq<char>, at: int, c: char)
    requires
        0 <= at <= s.len(),
        is_dense_first(fonts, s),
        forall|j: int| 0 <= j < at ==> denser(fonts, #[trigger] s[j], c),
        at < s.len() ==> !denser(fonts, s[at], c),
    ensures
        is_dense_first(fonts, s.insert(at, c)),
{
    let t = s.insert(at, c);
    assert forall|i: int, j: int| 0 <= i < j < t.len() implies denser(
        fonts,
        #[trigger] t[i],
        #[trigger] t[j],
    ) by {
        let si = if i < at {
            s[i]
        } else {
            s[i - 1]
        };
        let sj = if j < at {
            s[j]
        } else {
            s[j - 1]
        };
        if i == at {
            lemma_denser(fonts, c, s[at], sj);
            if j - 1 > at {
                assert(denser(fonts, s[at], s[j - 1]));
            }
        } else if j == at {
            assert(denser(fonts, s[i], c));
        } else {
            assert(denser(fonts, si, sj));
        }
    }
}

/// Inserting a character adds it once.
proof fn lemma_insert_multiset(s: Seq<char>, at: int, c: char)
    requires
        0 <= at <= s.len(),
    ensures
        s.insert(at, c).to_multiset() == s.to_multiset().insert(c),
{
    let t = s.insert(at, c);
    to_multiset_remove(t, at);
    assert(t.remove(at) =~= s);
    assert(t[at] == c);
    t.to_multiset_ensures();
    assert(t.contains(c));
    assert(t.to_multiset().remove(c).insert(c) =~= t.to_multiset());
}

} // verus!
