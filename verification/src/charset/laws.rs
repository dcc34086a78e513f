//! What holds of every charset.

use crate::charset;
use crate::charset::{Charset, ResolveError, DENSITY_PX, LANGUAGES, NAMED};
use crate::float::Single;
use crate::font;
use vstd::prelude::*;
use vstd::seq_lib::*;

verus! {

/// A ramp of sorted characters holds each of them as often as it was given, and
/// one space more.
pub proof fn law_density_sort_keeps_every_character(
    fonts: Seq<Seq<u8>>,
    chars: Seq<char>,
    ramp: Seq<char>,
)
    requires
        charset::is_density_ramp(fonts, chars, ramp),
    ensures
        ramp.len() == chars.len() + 1,
        ramp.to_multiset() == chars.to_multiset().insert(' '),
{
    assert(ramp =~= ramp.drop_last().push(' '));
    to_multiset_build(ramp.drop_last(), ' ');
    ramp.drop_last().to_multiset_ensures();
    chars.to_multiset_ensures();
}

/// There is one density ramp of a set of characters: the measured densities fix
/// the order.
pub proof fn law_density_ramp_is_unique(
    fonts: Seq<Seq<u8>>,
    chars: Seq<char>,
    a: Seq<char>,
    b: Seq<char>,
)
    requires
        charset::is_density_ramp(fonts, chars, a),
        charset::is_density_ramp(fonts, chars, b),
    ensures
        a == b,
{
    let leq = |x: char, y: char| charset::denser(fonts, x, y);
    let (p, q) = (a.drop_last(), b.drop_last());
    assert(vstd::relations::total_ordering(leq)) by {
        assert(vstd::relations::antisymmetric(leq)) by {
            assert forall|x: char, y: char| #[trigger] leq(x, y) && #[trigger] leq(y, x) implies x
                == y by {
                font::lemma_code_points(x, y);
            }
        }
    }
    assert(vstd::relations::sorted_by(p, leq));
    assert(vstd::relations::sorted_by(q, leq));
    lemma_sorted_unique(p, q, leq);
    assert(a =~= p.push(' '));
    assert(b =~= q.push(' '));
}

/// The order in which characters are given does not matter: sorting the same characters
/// gives the same ramp, which ends in a space, and can be done for both or for neither.
pub proof fn law_density_sort_ignores_the_order(
    fonts: Seq<Seq<u8>>,
    chars: Seq<char>,
    others: Seq<char>,
    a: Seq<char>,
    b: Seq<char>,
)
    requires
        chars.to_multiset() == others.to_multiset(),
        charset::is_density_ramp(fonts, chars, a),
        charset::is_density_ramp(fonts, others, b),
    ensures
        a == b,
        a.last() == ' ',
        chars.len() == 0 ==> a == seq![' '],
        charset::measurable(fonts, chars) == charset::measurable(fonts, others),
{
    law_density_ramp_is_unique(fonts, chars, a, b);
    law_density_sort_keeps_every_character(fonts, chars, a);
    if chars.len() == 0 {
        assert(a =~= seq![' ']);
    }
    if charset::measurable(fonts, chars) {
        lemma_measurable(fonts, chars, others);
    }
    if charset::measurable(fonts, others) {
        lemma_measurable(fonts, others, chars);
    }
}

/// Characters that can be measured can be measured in any order.
proof fn lemma_measurable(fonts: Seq<Seq<u8>>, chars: Seq<char>, others: Seq<char>)
    requires
        chars.to_multiset() == others.to_multiset(),
        charset::measurable(fonts, chars),
    ensures
        charset::measurable(fonts, others),
{
    chars.to_multiset_ensures();
    others.to_multiset_ensures();
    assert forall|i: int| 0 <= i < others.len() implies font::coverable(
        fonts,
        #[trigger] others[i],
        (Single { bits: DENSITY_PX }),
    ) by {
        let c = others[i];
        assert(others.contains(c));
        assert(others.to_multiset().count(c) > 0);
        assert(chars.contains(c));
        let j = chars.index_of(c);
        assert(chars[j] == c);
    }
}

/// Names are resolved by the name alone where no alphabet has to be measured, and
/// what is neither a built-in name nor a custom set is rejected.
pub proof fn law_fixed_sets_need_no_font(
    a: Result<Charset, ResolveError>,
    b: Result<Charset, ResolveError>,
    name: Seq<char>,
    fonts: Seq<Seq<u8>>,
    others: Seq<Seq<u8>>,
)
    requires
        charset::is_resolved(a, name, fonts),
        charset::is_resolved(b, name, others),
        "custom:"@.is_prefix_of(name) || charset::language(name) is None,
    ensures
        a is Ok <==> b is Ok,
        a is Ok ==> a->Ok_0.same(&b->Ok_0),
{
}

/// A language that stands in the table is found.
proof fn lemma_language_found(name: Seq<char>, from: int, at: int)
    requires
        0 <= from <= at < LANGUAGES.len(),
        LANGUAGES[at].0@ == name,
    ensures
        charset::language_from(name, from) is Some,
    decreases at - from,
{
    if from < at && LANGUAGES[from].0@ != name {
        lemma_language_found(name, from + 1, at);
    }
}

/// No built-in name reads as a custom set.
proof fn lemma_named_not_custom(i: int)
    requires
        0 <= i < NAMED.len(),
    ensures
        !"custom:"@.is_prefix_of(NAMED[i]@),
{
    reveal_strlit("custom:");
    reveal_strlit("simple");
    reveal_strlit("complex");
    reveal_strlit("blocks");
    reveal_strlit("braille");
    reveal_strlit("english");
    reveal_strlit("german");
    reveal_strlit("french");
    reveal_strlit("spanish");
    reveal_strlit("italian");
    reveal_strlit("portuguese");
    reveal_strlit("polish");
    reveal_strlit("russian");
    reveal_strlit("chinese");
    reveal_strlit("korean");
    reveal_strlit("japanese");
    let name = NAMED[i]@;
    if "custom:"@.is_prefix_of(name) {
        assert(name[1] == "custom:"@[1]);
        assert(name[2] == "custom:"@[2]);
        assert(name[0] == "custom:"@[0]);
    }
}

/// Every alphabet has characters.
proof fn lemma_alphabets(i: int)
    requires
        0 <= i < LANGUAGES.len(),
    ensures
        LANGUAGES[i].1@.len() >= 2,
{
    reveal_strlit("AaBbCcDdEeFfGgHhIiJjKkLlMmNnOoPpQqRrSsTtUuVvWwXxYyZz");
    reveal_strlit("AaÄäBbßCcDdEeFfGgHhIiJjKkLlMmNnOoÖöPpQqRrSsTtUuÜüVvWwXxYyZz");
    reveal_strlit("AaBbCcDdEeFfGgHhIiJjKkLlMmNnOoPpQqRrSsTtUuVvWwXxYyZzÆæŒœÇçÀàÂâÉéÈèÊêËëÎîÏïÔôÛûÙùŸÿ");
    reveal_strlit("AaBbCcDdEeFfGgHhIiJjKkLlMmNnOoPpQqRrSsTtUuVvWwXxYyZzÑñáéíóú¡¿");
    reveal_strlit("AaBbCcDdEeFfGgHhIiJjKkLlMmNnOoPpQqRrSsTtUuVvWwXxYyZzÀÈàèéìòù");
    reveal_strlit("AaBbCcDdEeFfGgHhIiJjKkLlMmNnOoPpQqRrSsTtUuVvWwXxYyZzàÀáÁâÂãÃçÇéÉêÊíÍóÓôÔõÕúÚ");
    reveal_strlit("AaBbCcDdEeFfGgHhIiJjKkLlMmNnOoPpRrSsTtUuWwYyZzĄąĘęÓóŁłŃńŻżŚśĆćŹź");
    reveal_strlit("АаБбВвГгДдЕеЁёЖжЗзИиЙйКкЛлМмНнОоПпРрСсТтУуФфХхЦцЧчШшЩщЪъЫыЬьЭэЮюЯя");
    reveal_strlit("龘䶑瀰幗獼鑭躙䵹觿䲔釅欄鐮䥯鶒獭鰽襽螻鰱蹦屭繩圇婹歜剛屧磕媿慪像僭堳噞呱棒偁呣塙唑浠唼刻凌咄亟拮俗参坒估这聿布允仫忖玗甴木亪女去凸五圹亐囗弌九人亏产斗丩艹刂彳丬了５丄三亻讠厂丆丨１二宀冖乛一丶、");
    reveal_strlit("ㄱㄴㄷㄹㅁㅂㅅㅇㅈㅊㅋㅌㅍㅎㅏㅑㅓㅕㅗㅛㅜㅠㅡㅣ");
    reveal_strlit("あいうえおかきくけこさしすせそたちつてとなにぬねのはひふへほまみむめもやゆよらりるれろわをんアイウエオカキクケコサシスセソタチツテトナニヌネノハヒフヘホマミムメモヤユヨラリルレロワヲン");
}

/// The alphabet that is found is that of a row of the table.
proof fn lemma_language_row(name: Seq<char>, from: int)
    requires
        0 <= from,
    ensures
        charset::language_from(name, from) matches Some(chars) ==> chars.len() >= 2,
    decreases LANGUAGES.len() - from,
{
    if from < LANGUAGES.len() {
        if LANGUAGES[from].0@ == name {
            lemma_alphabets(from);
        } else {
            lemma_language_row(name, from + 1);
        }
    }
}

/// Every built-in name resolves, to braille where it is that name and else to a ramp of at
/// least two characters.
pub proof fn law_named_sets_all_resolve(
    r: Result<Charset, ResolveError>,
    i: int,
    fonts: Seq<Seq<u8>>,
)
    requires
        0 <= i < NAMED.len(),
        charset::is_resolved(r, NAMED[i]@, fonts),
    ensures
        r is Ok,
        r->Ok_0 is Braille <==> NAMED[i]@ == "braille"@,
        r->Ok_0 matches Charset::Ramp(ramp) ==> ramp@.len() >= 2,
{
    lemma_named_not_custom(i);
    reveal_strlit("simple");
    reveal_strlit("complex");
    reveal_strlit("blocks");
    reveal_strlit("braille");
    reveal_strlit("@%#*+=-:. ");
    reveal_strlit("$@B%8&WM#*oahkbdpqwmZO0QLCJUYXzcvunxrjft/\\|()1{}[]?-_+~<>i!lI;:,\"^`'. ");
    reveal_strlit("█▓▒░ ");
    assert("braille"@[0] != "simple"@[0] && "braille"@[0] != "complex"@[0] && "braille"@[1]
        != "blocks"@[1]);
    lemma_language_row(NAMED[i]@, 0);
    if let Some(chars) = charset::language(NAMED[i]@) {
        if let Ok(Charset::Ramp(ramp)) = r {
            if charset::is_density_ramp(fonts, chars, ramp@) {
                law_density_sort_keeps_every_character(fonts, chars, ramp@);
            }
        }
    }
    if i >= 4 {
        lemma_language_found(NAMED[i]@, 0, i - 4);
    }
}

} // verus!
