//! What can be spoken, and which engine can hear it.
//!
//! One table, because the two engines disagree and the disagreement is the
//! whole point. A picker that lists a language without saying which engine can
//! transcribe it sells a church something that produces nonsense.
//!
//! The hosted engine has English and a multilingual mode that covers ten
//! languages and no African one. This machine has much the wider list, and is
//! the only one that can hear Yoruba or Hausa at all: for those the free engine
//! is not the compromise, it is the only thing that works. Nothing can hear
//! Zulu, and Igbo is not offered for listening.

use crate::text::{
    ascii_lowercase, ascii_lowercase_char, chars_of, eq_ignore_ascii_case,
    equal_ignoring_ascii_case, place_ignoring_case,
};
use vstd::prelude::*;

verus! {

/// One language an operator can choose, and what will actually hear it.
#[derive(Debug, Clone, Copy, PartialEq, Eq)]
pub struct Language {
    /// A full BCP-47 locale, which is what settings hold everywhere.
    pub code: &'static str,
    pub label: &'static str,
    /// The hosted engine, through a subscription.
    pub hosted: bool,
    /// The engine on this machine.
    pub local: bool,
}

/// A language as contracts speak of it.
pub struct Tongue {
    pub code: Seq<char>,
    pub label: Seq<char>,
    pub hosted: bool,
    pub local: bool,
}

impl View for Language {
    type V = Tongue;

    open spec fn view(&self) -> Tongue {
        tongue(self.code@, self.label@, self.hosted, self.local)
    }
}

pub open spec fn tongue(code: Seq<char>, label: Seq<char>, hosted: bool, local: bool) -> Tongue {
    Tongue { code, label, hosted, local }
}

pub open spec fn tongues(list: Seq<Language>) -> Seq<Tongue> {
    list.map_values(|l: Language| l@)
}

/// The languages offered, most likely first: English as it is spoken in several
/// places, then the languages whose Bibles are bundled, then the rest of what
/// the engines can do.
pub open spec fn table() -> Seq<Tongue> {
    seq![
        tongue("en-US"@, "English (United States)"@, true, true),
        tongue("en-GB"@, "English (United Kingdom)"@, true, true),
        tongue("en-NG"@, "English (Nigeria)"@, true, true),
        tongue("en-GH"@, "English (Ghana)"@, true, true),
        tongue("en-KE"@, "English (Kenya)"@, true, true),
        tongue("en-ZA"@, "English (South Africa)"@, true, true),
        tongue("en-IN"@, "English (India)"@, true, true),
        tongue("en-AU"@, "English (Australia)"@, true, true),
        tongue("en-CA"@, "English (Canada)"@, true, true),
        tongue("yo-NG"@, "Yoruba"@, false, true),
        tongue("ha-NG"@, "Hausa"@, false, true),
        tongue("sw-KE"@, "Swahili (Kenya)"@, false, true),
        tongue("sw-TZ"@, "Swahili (Tanzania)"@, false, true),
        tongue("fr-FR"@, "French (France)"@, true, true),
        tongue("fr-CA"@, "French (Canada)"@, true, true),
        tongue("es-ES"@, "Spanish (Spain)"@, true, true),
        tongue("es-MX"@, "Spanish (Mexico)"@, true, true),
        tongue("pt-BR"@, "Portuguese (Brazil)"@, true, true),
        tongue("pt-PT"@, "Portuguese (Portugal)"@, true, true),
        tongue("de-DE"@, "German"@, true, true),
        tongue("it-IT"@, "Italian"@, true, true),
        tongue("nl-NL"@, "Dutch"@, true, true),
        tongue("hi-IN"@, "Hindi"@, true, true),
        tongue("ru-RU"@, "Russian"@, true, true),
        tongue("ja-JP"@, "Japanese"@, true, true),
        tongue("zh-CN"@, "Chinese (Mandarin)"@, false, true),
        tongue("ko-KR"@, "Korean"@, false, true),
        tongue("ar-EG"@, "Arabic (Egypt)"@, false, true),
        tongue("am-ET"@, "Amharic"@, false, true),
        tongue("af-ZA"@, "Afrikaans"@, false, true),
        tongue("zu-ZA"@, "Zulu"@, false, false),
        tongue("tl-PH"@, "Tagalog"@, false, true),
        tongue("id-ID"@, "Indonesian"@, false, true),
        tongue("pl-PL"@, "Polish"@, true, true),
        tongue("uk-UA"@, "Ukrainian"@, false, true),
        tongue("ro-RO"@, "Romanian"@, false, true),
        tongue("ta-IN"@, "Tamil"@, false, true),
    ]
}

pub open spec fn codes() -> Seq<Seq<char>> {
    table().map_values(|t: Tongue| t.code)
}

impl Language {
    /// Whether either engine can hear this.
    pub fn heard_by_anything(&self) -> (r: bool)
        ensures
            r == (self@.hosted || self@.local),
    {
        self.hosted || self.local
    }
}

fn language(code: &'static str, label: &'static str, hosted: bool, local: bool) -> (r: Language)
    ensures
        r@ == tongue(code@, label@, hosted, local),
{
    Language { code, label, hosted, local }
}

/// The languages offered, most likely first.
pub fn languages() -> (r: Vec<Language>)
    ensures
        tongues(r@) == table(),
{
    let list: Vec<Language> = vec![
        language("en-US", "English (United States)", true, true),
        language("en-GB", "English (United Kingdom)", true, true),
        language("en-NG", "English (Nigeria)", true, true),
        language("en-GH", "English (Ghana)", true, true),
        language("en-KE", "English (Kenya)", true, true),
        language("en-ZA", "English (South Africa)", true, true),
        language("en-IN", "English (India)", true, true),
        language("en-AU", "English (Australia)", true, true),
        language("en-CA", "English (Canada)", true, true),
        language("yo-NG", "Yoruba", false, true),
        language("ha-NG", "Hausa", false, true),
        language("sw-KE", "Swahili (Kenya)", false, true),
        language("sw-TZ", "Swahili (Tanzania)", false, true),
        language("fr-FR", "French (France)", true, true),
        language("fr-CA", "French (Canada)", true, true),
        language("es-ES", "Spanish (Spain)", true, true),
        language("es-MX", "Spanish (Mexico)", true, true),
        language("pt-BR", "Portuguese (Brazil)", true, true),
        language("pt-PT", "Portuguese (Portugal)", true, true),
        language("de-DE", "German", true, true),
        language("it-IT", "Italian", true, true),
        language("nl-NL", "Dutch", true, true),
        language("hi-IN", "Hindi", true, true),
        language("ru-RU", "Russian", true, true),
        language("ja-JP", "Japanese", true, true),
        language("zh-CN", "Chinese (Mandarin)", false, true),
        language("ko-KR", "Korean", false, true),
        language("ar-EG", "Arabic (Egypt)", false, true),
        language("am-ET", "Amharic", false, true),
        language("af-ZA", "Afrikaans", false, true),
        language("zu-ZA", "Zulu", false, false),
        language("tl-PH", "Tagalog", false, true),
        language("id-ID", "Indonesian", false, true),
        language("pl-PL", "Polish", true, true),
        language("uk-UA", "Ukrainian", false, true),
        language("ro-RO", "Romanian", false, true),
        language("ta-IN", "Tamil", false, true),
    ];
    assert(tongues(list@) =~= table());
    list
}

/// The language a code names, whatever its case.
pub open spec fn found(code: Seq<char>) -> Option<Tongue> {
    match place_ignoring_case(codes(), code, 0) {
        Some(at) => Some(table()[at]),
        None => None,
    }
}

/// One language by its code, for turning a stored setting back into a fact.
pub fn find(code: &str) -> (r: Option<Language>)
    ensures
        match found(code@) {
            Some(tongue) => r matches Some(language) && language@ == tongue,
            None => r is None,
        },
{
    let list: Vec<Language> = languages();
    let wanted: Vec<char> = chars_of(code);
    let ghost all = codes();
    let mut i: usize = 0;
    while i < list.len()
        invariant
            i <= list.len(),
            wanted@ == code@,
            all == codes(),
            tongues(list@) == table(),
            place_ignoring_case(all, code@, 0) == place_ignoring_case(all, code@, i as int),
        decreases list.len() - i,
    {
        assert(tongues(list@)[i as int] == list@[i as int]@);
        assert(all[i as int] == list@[i as int].code@);
        if eq_ignore_ascii_case(chars_of(list[i].code).as_slice(), wanted.as_slice()) {
            return Some(list[i]);
        }
        i += 1;
    }
    None
}

/// Which engine cannot do it.
pub open spec fn engine_name(hosted: bool) -> Seq<char> {
    if hosted {
        "A Castavox subscription"@
    } else {
        "This machine"@
    }
}

/// What an operator is told of a language that the chosen engine cannot hear.
pub open spec fn advice(tongue: Tongue, engine_hosted: bool) -> Seq<char> {
    let cannot = engine_name(engine_hosted) + " cannot transcribe "@ + tongue.label;
    if engine_hosted && tongue.local {
        cannot + ". Use this machine instead."@
    } else if !engine_hosted && tongue.hosted {
        cannot + ". Use a Castavox subscription instead."@
    } else {
        cannot
            + ", and nor can the others. The Bible can still be searched and displayed in it; only listening is unavailable."@
    }
}

/// What is said of a language and an engine: nothing where they agree, and
/// nothing of a language that is not in the table.
pub open spec fn warned(code: Seq<char>, engine_hosted: bool) -> Option<Seq<char>> {
    match found(code) {
        Some(tongue) => {
            let works = if engine_hosted {
                tongue.hosted
            } else {
                tongue.local
            };
            if works {
                None
            } else {
                Some(advice(tongue, engine_hosted))
            }
        },
        None => None,
    }
}

/// What to say when the chosen language and the chosen engine disagree. It
/// names the engine that would work rather than only the one that will not.
pub fn warning(code: &str, engine_hosted: bool) -> (r: Option<String>)
    ensures
        match warned(code@, engine_hosted) {
            Some(words) => r matches Some(said) && said@ == words,
            None => r is None,
        },
{
    let language: Language = match find(code) {
        Some(language) => language,
        None => return None,
    };
    let works: bool = if engine_hosted {
        language.hosted
    } else {
        language.local
    };
    if works {
        return None;
    }
    let mut said: String = if engine_hosted {
        "A Castavox subscription".to_owned()
    } else {
        "This machine".to_owned()
    };
    said.push_str(" cannot transcribe ");
    said.push_str(language.label);
    if engine_hosted && language.local {
        said.push_str(". Use this machine instead.");
    } else if !engine_hosted && language.hosted {
        said.push_str(". Use a Castavox subscription instead.");
    } else {
        said.push_str(
            ", and nor can the others. The Bible can still be searched and displayed in it; only listening is unavailable.",
        );
    }
    Some(said)
}

/// Nothing is said where the chosen engine hears the chosen language, and
/// something is said of every language in the table that it does not hear.
pub proof fn law_a_warning_is_owed_where_an_engine_is_deaf(code: Seq<char>, engine_hosted: bool)
    requires
        found(code) is Some,
    ensures
        warned(code, engine_hosted) is Some <==> !(if engine_hosted {
            found(code)->0.hosted
        } else {
            found(code)->0.local
        }),
{
}

/// What tells the codes apart: their four letters, as a number.
spec fn mark(code: Seq<char>) -> int {
    (ascii_lowercase_char(code[0]) as int) * 16777216 + (ascii_lowercase_char(code[1]) as int)
        * 65536 + (ascii_lowercase_char(code[3]) as int) * 256 + ascii_lowercase_char(
        code[4],
    ) as int
}

spec fn marks() -> Seq<int> {
    seq![
        1701737843, 1701734242, 1701736039, 1701734248, 1701735269, 1701739105, 1701734766,
        1701732725, 1701733217, 2037345895, 1751215719, 1937206117, 1937208442, 1718773362,
        1718772577, 1702061427, 1702063480, 1886675570, 1886679156, 1684366437, 1769236852,
        1852599916, 1751738734, 1920299637, 1784769136, 2053661550, 1802464114, 1634887015,
        1634559348, 1634105953, 2054519393, 1953263720, 1768188260, 1886154860, 1969976673,
        1919906415, 1952541038,
    ]
}

proof fn lemma_marks()
    ensures
        codes().len() == 37,
        forall|i: int|
            0 <= i < 37 ==> (#[trigger] codes()[i]).len() == 5 && codes()[i][2] == '-' && mark(
                codes()[i],
            ) == marks()[i],
{
    reveal_strlit("en-US");
    reveal_strlit("en-GB");
    reveal_strlit("en-NG");
    reveal_strlit("en-GH");
    reveal_strlit("en-KE");
    reveal_strlit("en-ZA");
    reveal_strlit("en-IN");
    reveal_strlit("en-AU");
    reveal_strlit("en-CA");
    reveal_strlit("yo-NG");
    reveal_strlit("ha-NG");
    reveal_strlit("sw-KE");
    reveal_strlit("sw-TZ");
    reveal_strlit("fr-FR");
    reveal_strlit("fr-CA");
    reveal_strlit("es-ES");
    reveal_strlit("es-MX");
    reveal_strlit("pt-BR");
    reveal_strlit("pt-PT");
    reveal_strlit("de-DE");
    reveal_strlit("it-IT");
    reveal_strlit("nl-NL");
    reveal_strlit("hi-IN");
    reveal_strlit("ru-RU");
    reveal_strlit("ja-JP");
    reveal_strlit("zh-CN");
    reveal_strlit("ko-KR");
    reveal_strlit("ar-EG");
    reveal_strlit("am-ET");
    reveal_strlit("af-ZA");
    reveal_strlit("zu-ZA");
    reveal_strlit("tl-PH");
    reveal_strlit("id-ID");
    reveal_strlit("pl-PL");
    reveal_strlit("uk-UA");
    reveal_strlit("ro-RO");
    reveal_strlit("ta-IN");
}

proof fn lemma_marks_differ(i: int, j: int)
    requires
        0 <= i < j < 37,
    ensures
        marks()[i] != marks()[j],
{
}

proof fn lemma_mark_is_kept(a: Seq<char>, b: Seq<char>)
    requires
        a.len() == 5,
        equal_ignoring_ascii_case(a, b),
    ensures
        mark(a) == mark(b),
{
    assert(ascii_lowercase(a).len() == a.len() && ascii_lowercase(b).len() == b.len());
    assert(ascii_lowercase(a)[0] == ascii_lowercase(b)[0]);
    assert(ascii_lowercase(a)[1] == ascii_lowercase(b)[1]);
    assert(ascii_lowercase(a)[3] == ascii_lowercase(b)[3]);
    assert(ascii_lowercase(a)[4] == ascii_lowercase(b)[4]);
}

/// No code is listed twice, and every code names a region.
pub proof fn law_codes_are_unique_and_regioned(i: int, j: int)
    requires
        0 <= i < j < codes().len(),
    ensures
        !equal_ignoring_ascii_case(codes()[i], codes()[j]),
        codes()[i].contains('-') && codes()[j].contains('-'),
{
    lemma_marks();
    assert(codes()[i][2] == '-' && codes()[j][2] == '-');
    if equal_ignoring_ascii_case(codes()[i], codes()[j]) {
        lemma_mark_is_kept(codes()[i], codes()[j]);
        lemma_marks_differ(i, j);
    }
}

/// Every language offered is found by its own code, in any case.
pub proof fn law_a_language_is_found_by_its_code(code: Seq<char>, i: int)
    requires
        0 <= i < table().len(),
        equal_ignoring_ascii_case(codes()[i], code),
    ensures
        found(code) == Some(table()[i]),
{
    lemma_place(code, i, 0);
}

proof fn lemma_place(code: Seq<char>, i: int, j: int)
    requires
        0 <= j <= i < codes().len(),
        equal_ignoring_ascii_case(codes()[i], code),
    ensures
        place_ignoring_case(codes(), code, j) == Some(i),
    decreases i - j,
{
    if j < i {
        law_codes_are_unique_and_regioned(j, i);
        lemma_place(code, i, j + 1);
    }
}

/// The languages that a subscription does not hear.
pub open spec fn not_hosted() -> Seq<Seq<char>> {
    seq![
        "yo-NG"@, "ha-NG"@, "sw-KE"@, "sw-TZ"@, "zh-CN"@, "ko-KR"@, "ar-EG"@, "am-ET"@, "af-ZA"@,
        "zu-ZA"@, "tl-PH"@, "id-ID"@, "uk-UA"@, "ro-RO"@, "ta-IN"@,
    ]
}

spec fn places() -> Seq<int> {
    seq![9, 10, 11, 12, 25, 26, 27, 28, 29, 30, 31, 32, 34, 35, 36]
}

proof fn lemma_places(k: int)
    requires
        0 <= k < 15,
    ensures
        0 <= places()[k] < 37,
        not_hosted()[k] == table()[places()[k]].code,
        !table()[places()[k]].hosted,
{
}

proof fn lemma_hosted(i: int)
    requires
        0 <= i < 37,
    ensures
        table().len() == 37,
        table()[i].hosted || exists|k: int| 0 <= k < 15 && #[trigger] places()[k] == i,
        table()[i].local <==> i != 30,
{
    assert(places()[0] == 9 && places()[1] == 10 && places()[2] == 11 && places()[3] == 12);
    assert(places()[4] == 25 && places()[5] == 26 && places()[6] == 27 && places()[7] == 28);
    assert(places()[8] == 29 && places()[9] == 30 && places()[10] == 31 && places()[11] == 32);
    assert(places()[12] == 34 && places()[13] == 35 && places()[14] == 36);
}

/// Which engine hears what: a subscription every language but fifteen, and this
/// machine every language but Zulu.
pub proof fn law_what_each_engine_hears(i: int)
    requires
        0 <= i < table().len(),
    ensures
        table()[i].hosted <==> !not_hosted().contains(table()[i].code),
        table()[i].local <==> table()[i].code != "zu-ZA"@,
{
    lemma_marks();
    lemma_hosted(i);
    let code = table()[i].code;
    assert(codes()[i] == code);
    if not_hosted().contains(code) {
        let k = choose|k: int| 0 <= k < 15 && not_hosted()[k] == code;
        lemma_places(k);
        let at = places()[k];
        assert(codes()[at] == code);
        if at < i {
            law_codes_are_unique_and_regioned(at, i);
        } else if i < at {
            law_codes_are_unique_and_regioned(i, at);
        }
    }
    if !table()[i].hosted {
        let k = choose|k: int| 0 <= k < 15 && #[trigger] places()[k] == i;
        lemma_places(k);
        assert(not_hosted()[k] == code);
    }
    lemma_places(9);
    assert(codes()[30] == "zu-ZA"@);
    if i < 30 {
        law_codes_are_unique_and_regioned(i, 30);
    } else if i > 30 {
        law_codes_are_unique_and_regioned(30, i);
    }
}

} // verus!
