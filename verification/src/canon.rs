//! Which book is which, when not every Bible agrees on the list.
//!
//! A translation's book numbers order that translation's own books, and a
//! Catholic Bible has seven of them between the others. The interlinear, the
//! Greek and Hebrew behind a verse, is one text, numbered in the scheme of
//! sixty-six. It is therefore addressed by name, and the name is resolved here.
//! A book of the deuterocanon has no entry, and correctly gives nothing.

use crate::text::{
    ascii_lowercase, ascii_lowercase_char, chars_of, eq_ignore_ascii_case,
    equal_ignoring_ascii_case, place_ignoring_case, trim, trimmed,
};
use vstd::prelude::*;

verus! {

/// The sixty-six, in the order the interlinear numbers them.
pub open spec fn protestant() -> Seq<Seq<char>> {
    seq![
        "Genesis"@, "Exodus"@, "Leviticus"@, "Numbers"@, "Deuteronomy"@, "Joshua"@, "Judges"@,
        "Ruth"@, "1 Samuel"@, "2 Samuel"@, "1 Kings"@, "2 Kings"@, "1 Chronicles"@,
        "2 Chronicles"@, "Ezra"@, "Nehemiah"@, "Esther"@, "Job"@, "Psalms"@, "Proverbs"@,
        "Ecclesiastes"@, "Song of Solomon"@, "Isaiah"@, "Jeremiah"@, "Lamentations"@, "Ezekiel"@,
        "Daniel"@, "Hosea"@, "Joel"@, "Amos"@, "Obadiah"@, "Jonah"@, "Micah"@, "Nahum"@,
        "Habakkuk"@, "Zephaniah"@, "Haggai"@, "Zechariah"@, "Malachi"@, "Matthew"@, "Mark"@,
        "Luke"@, "John"@, "Acts"@, "Romans"@, "1 Corinthians"@, "2 Corinthians"@, "Galatians"@,
        "Ephesians"@, "Philippians"@, "Colossians"@, "1 Thessalonians"@, "2 Thessalonians"@,
        "1 Timothy"@, "2 Timothy"@, "Titus"@, "Philemon"@, "Hebrews"@, "James"@, "1 Peter"@,
        "2 Peter"@, "1 John"@, "2 John"@, "3 John"@, "Jude"@, "Revelation"@,
    ]
}

fn book(at: usize) -> (r: &'static str)
    requires
        at < 66,
    ensures
        r@ == protestant()[at as int],
{
    let books: [&'static str; 66] = [
        "Genesis", "Exodus", "Leviticus", "Numbers", "Deuteronomy", "Joshua", "Judges", "Ruth",
        "1 Samuel", "2 Samuel", "1 Kings", "2 Kings", "1 Chronicles", "2 Chronicles", "Ezra",
        "Nehemiah", "Esther", "Job", "Psalms", "Proverbs", "Ecclesiastes", "Song of Solomon",
        "Isaiah", "Jeremiah", "Lamentations", "Ezekiel", "Daniel", "Hosea", "Joel", "Amos",
        "Obadiah", "Jonah", "Micah", "Nahum", "Habakkuk", "Zephaniah", "Haggai", "Zechariah",
        "Malachi", "Matthew", "Mark", "Luke", "John", "Acts", "Romans", "1 Corinthians",
        "2 Corinthians", "Galatians", "Ephesians", "Philippians", "Colossians",
        "1 Thessalonians", "2 Thessalonians", "1 Timothy", "2 Timothy", "Titus", "Philemon",
        "Hebrews", "James", "1 Peter", "2 Peter", "1 John", "2 John", "3 John", "Jude",
        "Revelation",
    ];
    books[at]
}

/// The number the interlinear knows a book by, counted from one.
pub open spec fn interlinear_number(name: Seq<char>) -> Option<int> {
    match place_ignoring_case(protestant(), trimmed(name), 0) {
        Some(at) => Some(at + 1),
        None => None,
    }
}

/// The number the interlinear knows a book by, if it knows it at all.
pub fn interlinear_book(name: &str) -> (r: Option<i64>)
    ensures
        match interlinear_number(name@) {
            Some(n) => r == Some(n as i64) && 1 <= n <= 66,
            None => r is None,
        },
{
    let wanted: Vec<char> = trim(chars_of(name).as_slice());
    let ghost all = protestant();
    let mut i: usize = 0;
    while i < 66
        invariant
            i <= 66,
            all == protestant(),
            wanted@ == trimmed(name@),
            place_ignoring_case(all, wanted@, 0) == place_ignoring_case(all, wanted@, i as int),
        decreases 66 - i,
    {
        if eq_ignore_ascii_case(chars_of(book(i)).as_slice(), wanted.as_slice()) {
            return Some(i as i64 + 1);
        }
        i += 1;
    }
    None
}

/// The books the deuterocanon adds, in the order a Catholic Bible has them.
pub open spec fn deuterocanon() -> Seq<Seq<char>> {
    seq![
        "Tobit"@, "Judith"@, "Wisdom"@, "Sirach"@, "Baruch"@, "1 Maccabees"@, "2 Maccabees"@,
    ]
}

fn added_book(at: usize) -> (r: &'static str)
    requires
        at < 7,
    ensures
        r@ == deuterocanon()[at as int],
{
    let books: [&'static str; 7] = [
        "Tobit", "Judith", "Wisdom", "Sirach", "Baruch", "1 Maccabees", "2 Maccabees",
    ];
    books[at]
}

/// Whether a book is one the deuterocanon adds.
pub fn is_deuterocanonical(name: &str) -> (r: bool)
    ensures
        r == (place_ignoring_case(deuterocanon(), trimmed(name@), 0) is Some),
{
    let wanted: Vec<char> = trim(chars_of(name).as_slice());
    let ghost all = deuterocanon();
    let mut i: usize = 0;
    while i < 7
        invariant
            i <= 7,
            all == deuterocanon(),
            wanted@ == trimmed(name@),
            place_ignoring_case(all, wanted@, 0) == place_ignoring_case(all, wanted@, i as int),
        decreases 7 - i,
    {
        if eq_ignore_ascii_case(chars_of(added_book(i)).as_slice(), wanted.as_slice()) {
            return true;
        }
        i += 1;
    }
    false
}

/// What tells the books apart: a name's length, its first letter and its third.
spec fn mark(name: Seq<char>) -> int {
    name.len() * 65536 + (ascii_lowercase_char(name[0]) as int) * 256 + ascii_lowercase_char(
        name[2],
    ) as int
}

spec fn marks() -> Seq<int> {
    seq![
        485230, 419183, 617590, 487021, 746613, 420467, 420452, 291444, 536947, 537203, 471403,
        471659, 799075, 799331, 288114, 552552, 419188, 223842, 421985, 553071, 812387, 1012590,
        420193, 551538, 814189, 484709, 418926, 354419, 289381, 287087, 487265, 354926, 355683,
        355944, 551010, 621168, 419943, 621155, 486764, 486772, 290162, 289899, 289384, 287092,
        422509, 864611, 864867, 616300, 615784, 749673, 680812, 995700, 995956, 602484, 602740,
        357492, 553065, 485474, 354925, 471408, 471664, 405866, 406122, 406378, 289380, 684662,
    ]
}

proof fn lemma_marks()
    ensures
        forall|i: int|
            0 <= i < 66 ==> mark(#[trigger] protestant()[i]) == marks()[i]
                && protestant()[i].len() >= 3,
{
    reveal_strlit("Genesis");
    reveal_strlit("Exodus");
    reveal_strlit("Leviticus");
    reveal_strlit("Numbers");
    reveal_strlit("Deuteronomy");
    reveal_strlit("Joshua");
    reveal_strlit("Judges");
    reveal_strlit("Ruth");
    reveal_strlit("1 Samuel");
    reveal_strlit("2 Samuel");
    reveal_strlit("1 Kings");
    reveal_strlit("2 Kings");
    reveal_strlit("1 Chronicles");
    reveal_strlit("2 Chronicles");
    reveal_strlit("Ezra");
    reveal_strlit("Nehemiah");
    reveal_strlit("Esther");
    reveal_strlit("Job");
    reveal_strlit("Psalms");
    reveal_strlit("Proverbs");
    reveal_strlit("Ecclesiastes");
    reveal_strlit("Song of Solomon");
    reveal_strlit("Isaiah");
    reveal_strlit("Jeremiah");
    reveal_strlit("Lamentations");
    reveal_strlit("Ezekiel");
    reveal_strlit("Daniel");
    reveal_strlit("Hosea");
    reveal_strlit("Joel");
    reveal_strlit("Amos");
    reveal_strlit("Obadiah");
    reveal_strlit("Jonah");
    reveal_strlit("Micah");
    reveal_strlit("Nahum");
    reveal_strlit("Habakkuk");
    reveal_strlit("Zephaniah");
    reveal_strlit("Haggai");
    reveal_strlit("Zechariah");
    reveal_strlit("Malachi");
    reveal_strlit("Matthew");
    reveal_strlit("Mark");
    reveal_strlit("Luke");
    reveal_strlit("John");
    reveal_strlit("Acts");
    reveal_strlit("Romans");
    reveal_strlit("1 Corinthians");
    reveal_strlit("2 Corinthians");
    reveal_strlit("Galatians");
    reveal_strlit("Ephesians");
    reveal_strlit("Philippians");
    reveal_strlit("Colossians");
    reveal_strlit("1 Thessalonians");
    reveal_strlit("2 Thessalonians");
    reveal_strlit("1 Timothy");
    reveal_strlit("2 Timothy");
    reveal_strlit("Titus");
    reveal_strlit("Philemon");
    reveal_strlit("Hebrews");
    reveal_strlit("James");
    reveal_strlit("1 Peter");
    reveal_strlit("2 Peter");
    reveal_strlit("1 John");
    reveal_strlit("2 John");
    reveal_strlit("3 John");
    reveal_strlit("Jude");
    reveal_strlit("Revelation");
}

proof fn lemma_marks_differ(i: int, j: int)
    requires
        0 <= i < j < 66,
    ensures
        marks()[i] != marks()[j],
{
}

proof fn lemma_mark_is_kept(a: Seq<char>, b: Seq<char>)
    requires
        a.len() >= 3,
        equal_ignoring_ascii_case(a, b),
    ensures
        mark(a) == mark(b),
{
    assert(ascii_lowercase(a).len() == a.len() && ascii_lowercase(b).len() == b.len());
    assert(ascii_lowercase(a)[0] == ascii_lowercase(b)[0]);
    assert(ascii_lowercase(a)[2] == ascii_lowercase(b)[2]);
}

proof fn lemma_place(i: int, j: int)
    requires
        0 <= j <= i < 66,
    ensures
        place_ignoring_case(protestant(), protestant()[i], j) == Some(i),
    decreases i - j,
{
    lemma_marks();
    if j < i {
        if equal_ignoring_ascii_case(protestant()[j], protestant()[i]) {
            lemma_mark_is_kept(protestant()[j], protestant()[i]);
            lemma_marks_differ(j, i);
        }
        lemma_place(i, j + 1);
    }
}

/// Each of the sixty-six is known by its own place, however its Bible numbers
/// it.
pub proof fn law_a_book_is_known_by_its_place(name: Seq<char>, i: int)
    requires
        0 <= i < 66,
        trimmed(name) == protestant()[i],
    ensures
        interlinear_number(name) == Some(i + 1),
{
    lemma_place(i, 0);
}

spec fn added_marks() -> Seq<int> {
    seq![357474, 420452, 423795, 422770, 418418, 733549, 733805]
}

proof fn lemma_added_marks()
    ensures
        forall|k: int|
            0 <= k < 7 ==> mark(#[trigger] deuterocanon()[k]) == added_marks()[k]
                && deuterocanon()[k].len() >= 4,
{
    reveal_strlit("Tobit");
    reveal_strlit("Judith");
    reveal_strlit("Wisdom");
    reveal_strlit("Sirach");
    reveal_strlit("Baruch");
    reveal_strlit("1 Maccabees");
    reveal_strlit("2 Maccabees");
}

// Only Judith and Judges share a mark.
proof fn lemma_added_marks_differ(k: int, i: int)
    requires
        0 <= k < 7,
        0 <= i < 66,
        added_marks()[k] == marks()[i],
    ensures
        k == 1,
        i == 6,
{
}

proof fn lemma_judith_is_not_judges()
    ensures
        !equal_ignoring_ascii_case("Judith"@, "Judges"@),
{
    reveal_strlit("Judith");
    reveal_strlit("Judges");
    assert(ascii_lowercase("Judith"@)[3] == 'i');
    assert(ascii_lowercase("Judges"@)[3] == 'g');
}

proof fn lemma_added_is_new(k: int, i: int)
    requires
        0 <= k < 7,
        0 <= i < 66,
    ensures
        !equal_ignoring_ascii_case(deuterocanon()[k], protestant()[i]),
{
    let added = deuterocanon()[k];
    let known = protestant()[i];
    if equal_ignoring_ascii_case(added, known) {
        lemma_marks();
        lemma_added_marks();
        lemma_mark_is_kept(added, known);
        lemma_added_marks_differ(k, i);
        lemma_judith_is_not_judges();
    }
}

proof fn lemma_no_place(name: Seq<char>, k: int, i: int)
    requires
        0 <= k < 7,
        0 <= i <= 66,
        equal_ignoring_ascii_case(deuterocanon()[k], name),
    ensures
        place_ignoring_case(protestant(), name, i) is None,
    decreases 66 - i,
{
    if i < 66 {
        lemma_added_is_new(k, i);
        lemma_no_place(name, k, i + 1);
    }
}

proof fn lemma_place_is_equal(list: Seq<Seq<char>>, name: Seq<char>, i: int)
    requires
        0 <= i,
    ensures
        place_ignoring_case(list, name, i) matches Some(at) ==> i <= at < list.len()
            && equal_ignoring_ascii_case(list[at], name),
    decreases list.len() - i,
{
    if i < list.len() && !equal_ignoring_ascii_case(list[i], name) {
        lemma_place_is_equal(list, name, i + 1);
    }
}

/// No book the deuterocanon adds has a number in the interlinear: inventing one
/// would return somebody else's Greek.
pub proof fn law_the_deuterocanon_has_no_interlinear(name: Seq<char>)
    requires
        place_ignoring_case(deuterocanon(), trimmed(name), 0) is Some,
    ensures
        interlinear_number(name) is None,
{
    lemma_place_is_equal(deuterocanon(), trimmed(name), 0);
    lemma_no_place(trimmed(name), place_ignoring_case(deuterocanon(), trimmed(name), 0)->0, 0);
}

} // verus!
