//! What an operator's words come to, stated of the words themselves.

use crate::commands::{
    addressed, after_wake, book_named, chapter_at, folded, folded_all, forms_of, heard, holds_words,
    ignorable, last_wake, names_of, passage, shipped_alone, shipped_opening, spoken, spoken_number,
    spoken_text, standing_alone, stands_at, stripped, translation_alone, translation_within,
    understood, verse_at, whole, window_at, Asked, Hearing,
};
use crate::numbers::{
    first_number, is_round, law_a_number_by_itself, lemma_first_number, lemma_no_number_word,
    looks_counting, number_at, value_of,
};
use crate::text::{
    alphanumeric, byte_len, is_word, joined, lemma_joined_push, lemma_split_joined,
    lemma_split_on_nonempty, lowercase_char, occurs_at, split_on, split_whitespace, starts_with,
};
use vstd::prelude::*;

verus! {

// ------------------------------------------------------------ ordinary words

/// The words that carry no instruction.
pub open spec fn ordinary_words() -> Seq<Seq<char>> {
    seq![
        "a"@,
        "an"@,
        "the"@,
        "please"@,
        "ok"@,
        "okay"@,
        "now"@,
        "just"@,
        "to"@,
        "me"@,
        "us"@,
        "give"@,
        "switch"@,
        "read"@,
        "from"@,
        "let"@,
        "lets"@,
        "put"@,
        "up"@,
    ]
}

proof fn lemma_kept_push(words: Seq<Seq<char>>, word: Seq<char>)
    ensures
        words.push(word).filter(|w: Seq<char>| !ignorable(w)) == if ignorable(word) {
            words.filter(|w: Seq<char>| !ignorable(w))
        } else {
            words.filter(|w: Seq<char>| !ignorable(w)).push(word)
        },
{
    reveal(Seq::filter);
    assert(words.push(word).drop_last() =~= words);
}

proof fn lemma_kept_append(a: Seq<Seq<char>>, b: Seq<Seq<char>>)
    ensures
        (a + b).filter(|w: Seq<char>| !ignorable(w)) == a.filter(|w: Seq<char>| !ignorable(w))
            + b.filter(|w: Seq<char>| !ignorable(w)),
    decreases b.len(),
{
    reveal(Seq::filter);
    if b.len() == 0 {
        assert(a + b =~= a);
        assert(a.filter(|w: Seq<char>| !ignorable(w)) + b.filter(|w: Seq<char>| !ignorable(w))
            =~= a.filter(|w: Seq<char>| !ignorable(w)));
    } else {
        let front = b.drop_last();
        lemma_kept_append(a, front);
        lemma_kept_push(a + front, b.last());
        lemma_kept_push(front, b.last());
        assert((a + front).push(b.last()) =~= a + b);
        assert(front.push(b.last()) =~= b);
        assert((a + b).filter(|w: Seq<char>| !ignorable(w)) =~= a.filter(
            |w: Seq<char>| !ignorable(w),
        ) + b.filter(|w: Seq<char>| !ignorable(w)));
    }
}

/// Ordinary words make no difference to an instruction that stands alone,
/// wherever they stand in it: "next verse please" is "next verse".
pub proof fn law_ordinary_words_carry_no_instruction(
    h: Hearing,
    before: Seq<Seq<char>>,
    i: int,
    after: Seq<Seq<char>>,
)
    requires
        0 <= i < ordinary_words().len(),
    ensures
        standing_alone(h, before.push(ordinary_words()[i]) + after) == standing_alone(
            h,
            before + after,
        ),
{
    lemma_ordinary(i);
    lemma_passed_over(before, ordinary_words()[i], after);
}

proof fn lemma_ordinary(i: int)
    requires
        0 <= i < ordinary_words().len(),
    ensures
        ignorable(ordinary_words()[i]),
{
}

proof fn lemma_passed_over(before: Seq<Seq<char>>, word: Seq<char>, after: Seq<Seq<char>>)
    requires
        ignorable(word),
    ensures
        stripped(before.push(word) + after) == stripped(before + after),
{
    lemma_kept_append(before.push(word), after);
    lemma_kept_append(before, after);
    lemma_kept_push(before, word);
}

/// Words that ask for something.
pub open spec fn asking_words() -> Seq<Seq<char>> {
    seq![
        "previous"@,
        "verse"@,
        "back"@,
        "go"@,
        "next"@,
        "one"@,
        "clear"@,
        "screen"@,
        "display"@,
        "blank"@,
        "chapter"@,
        "last"@,
        "and"@,
    ]
}

/// Whether a word begins and is as long as an ordinary one.
spec fn looks_ordinary(w: Seq<char>) -> bool {
    ||| w.len() == 1 && w[0] == 'a'
    ||| w.len() == 2 && w[0] == 'a' && w[1] == 'n'
    ||| w.len() == 3 && w[0] == 't' && w[1] == 'h'
    ||| w.len() == 6 && w[0] == 'p' && w[1] == 'l'
    ||| w.len() == 2 && w[0] == 'o' && w[1] == 'k'
    ||| w.len() == 4 && w[0] == 'o' && w[1] == 'k'
    ||| w.len() == 3 && w[0] == 'n' && w[1] == 'o'
    ||| w.len() == 4 && w[0] == 'j' && w[1] == 'u'
    ||| w.len() == 2 && w[0] == 't' && w[1] == 'o'
    ||| w.len() == 2 && w[0] == 'm' && w[1] == 'e'
    ||| w.len() == 2 && w[0] == 'u' && w[1] == 's'
    ||| w.len() == 4 && w[0] == 'g' && w[1] == 'i'
    ||| w.len() == 6 && w[0] == 's' && w[1] == 'w'
    ||| w.len() == 4 && w[0] == 'r' && w[1] == 'e'
    ||| w.len() == 4 && w[0] == 'f' && w[1] == 'r'
    ||| w.len() == 3 && w[0] == 'l' && w[1] == 'e'
    ||| w.len() == 4 && w[0] == 'l' && w[1] == 'e'
    ||| w.len() == 3 && w[0] == 'p' && w[1] == 'u'
    ||| w.len() == 2 && w[0] == 'u' && w[1] == 'p'
}

proof fn lemma_looks_ordinary(w: Seq<char>)
    requires
        ignorable(w),
    ensures
        looks_ordinary(w),
{
    reveal_strlit("a");
    reveal_strlit("an");
    reveal_strlit("the");
    reveal_strlit("please");
    reveal_strlit("ok");
    reveal_strlit("okay");
    reveal_strlit("now");
    reveal_strlit("just");
    reveal_strlit("to");
    reveal_strlit("me");
    reveal_strlit("us");
    reveal_strlit("give");
    reveal_strlit("switch");
    reveal_strlit("read");
    reveal_strlit("from");
    reveal_strlit("let");
    reveal_strlit("lets");
    reveal_strlit("put");
    reveal_strlit("up");
}

/// A word that asks for something is not passed over: it is kept among what asks.
pub proof fn law_asking_words_are_kept(i: int)
    ensures
        0 <= i < asking_words().len() ==> !ignorable(asking_words()[i]) && stripped(
            seq![asking_words()[i]],
        ) == asking_words()[i],
{
    lemma_asking_words();
    if 0 <= i < asking_words().len() {
        let word = asking_words()[i];
        lemma_kept_push(Seq::empty(), word);
        reveal(Seq::filter);
        assert(Seq::<Seq<char>>::empty().push(word) =~= seq![word]);
        assert(seq![word].filter(|w: Seq<char>| !ignorable(w)) =~= seq![word]);
    }
}

proof fn lemma_asking_words()
    ensures
        !ignorable("previous"@),
        !ignorable("verse"@),
        !ignorable("back"@),
        !ignorable("go"@),
        !ignorable("next"@),
        !ignorable("one"@),
        !ignorable("clear"@),
        !ignorable("screen"@),
        !ignorable("display"@),
        !ignorable("blank"@),
        !ignorable("chapter"@),
        !ignorable("last"@),
        !ignorable("and"@),
{
    assert(!ignorable("previous"@)) by {
        reveal_strlit("previous");
        if ignorable("previous"@) {
            lemma_looks_ordinary("previous"@);
        }
    }
    assert(!ignorable("verse"@)) by {
        reveal_strlit("verse");
        if ignorable("verse"@) {
            lemma_looks_ordinary("verse"@);
        }
    }
    assert(!ignorable("back"@)) by {
        reveal_strlit("back");
        if ignorable("back"@) {
            lemma_looks_ordinary("back"@);
        }
    }
    assert(!ignorable("go"@)) by {
        reveal_strlit("go");
        if ignorable("go"@) {
            lemma_looks_ordinary("go"@);
        }
    }
    assert(!ignorable("next"@)) by {
        reveal_strlit("next");
        if ignorable("next"@) {
            lemma_looks_ordinary("next"@);
        }
    }
    assert(!ignorable("one"@)) by {
        reveal_strlit("one");
        if ignorable("one"@) {
            lemma_looks_ordinary("one"@);
        }
    }
    assert(!ignorable("clear"@)) by {
        reveal_strlit("clear");
        if ignorable("clear"@) {
            lemma_looks_ordinary("clear"@);
        }
    }
    assert(!ignorable("screen"@)) by {
        reveal_strlit("screen");
        if ignorable("screen"@) {
            lemma_looks_ordinary("screen"@);
        }
    }
    assert(!ignorable("display"@)) by {
        reveal_strlit("display");
        if ignorable("display"@) {
            lemma_looks_ordinary("display"@);
        }
    }
    assert(!ignorable("blank"@)) by {
        reveal_strlit("blank");
        if ignorable("blank"@) {
            lemma_looks_ordinary("blank"@);
        }
    }
    assert(!ignorable("chapter"@)) by {
        reveal_strlit("chapter");
        if ignorable("chapter"@) {
            lemma_looks_ordinary("chapter"@);
        }
    }
    assert(!ignorable("last"@)) by {
        reveal_strlit("last");
        if ignorable("last"@) {
            lemma_looks_ordinary("last"@);
        }
    }
    assert(!ignorable("and"@)) by {
        reveal_strlit("and");
        if ignorable("and"@) {
            lemma_looks_ordinary("and"@);
        }
    }
}

// ------------------------------------------------------------ what ships

/// Whether words are a phrase that goes a verse back.
pub open spec fn says_previous(words: Seq<Seq<char>>) -> bool {
    words == seq!["previous"@, "verse"@] || words == seq!["verse"@, "back"@] || words == seq![
        "go"@,
        "back"@,
    ]
}

/// Whether words are a phrase that goes a verse on.
pub open spec fn says_next(words: Seq<Seq<char>>) -> bool {
    words == seq!["next"@, "verse"@] || words == seq!["next"@, "one"@]
}

/// Whether words are a phrase that blanks the screen.
pub open spec fn says_clear(words: Seq<Seq<char>>) -> bool {
    words == seq!["clear"@, "the"@, "screen"@] || words == seq!["clear"@, "the"@, "display"@]
        || words == seq!["blank"@, "the"@, "screen"@] || words == seq!["clear"@, "screen"@]
}

/// What a phrase that ships asks for.
pub open spec fn what_ships(words: Seq<Seq<char>>) -> Option<Asked> {
    if says_previous(words) {
        Some(Asked::PreviousVerse)
    } else if says_next(words) {
        Some(Asked::NextVerse)
    } else if says_clear(words) {
        Some(Asked::Clear)
    } else {
        None
    }
}

proof fn lemma_two_words(a: Seq<char>, b: Seq<char>)
    requires
        is_word(a),
        is_word(b),
    ensures
        joined(seq![a, b], " "@) == a + " "@ + b,
        split_whitespace(a + " "@ + b) == seq![a, b],
{
    lemma_joined_two(a, b);
    lemma_split_joined(seq![a, b]);
}

proof fn lemma_joined_two(a: Seq<char>, b: Seq<char>)
    ensures
        joined(seq![a, b], " "@) == a + " "@ + b,
{
    lemma_joined_push(seq![a], b, " "@);
    assert(seq![a].push(b) =~= seq![a, b]);
}

proof fn lemma_three_words(a: Seq<char>, b: Seq<char>, c: Seq<char>)
    requires
        is_word(a),
        is_word(b),
        is_word(c),
    ensures
        joined(seq![a, b, c], " "@) == a + " "@ + b + " "@ + c,
        split_whitespace(a + " "@ + b + " "@ + c) == seq![a, b, c],
{
    lemma_joined_two(a, b);
    lemma_joined_push(seq![a, b], c, " "@);
    assert(seq![a, b].push(c) =~= seq![a, b, c]);
    lemma_split_joined(seq![a, b, c]);
}

proof fn lemma_two_asking(a: Seq<char>, b: Seq<char>)
    requires
        !ignorable(a),
        !ignorable(b),
    ensures
        stripped(seq![a, b]) == a + " "@ + b,
{
    reveal(Seq::filter);
    lemma_kept_push(Seq::empty(), a);
    lemma_kept_push(seq![a], b);
    assert(Seq::<Seq<char>>::empty().push(a) =~= seq![a]);
    assert(seq![a].push(b) =~= seq![a, b]);
    assert(seq![a, b].filter(|w: Seq<char>| !ignorable(w)) =~= seq![a, b]);
    lemma_joined_two(a, b);
}

proof fn lemma_around_an_article(a: Seq<char>, b: Seq<char>)
    requires
        !ignorable(a),
        !ignorable(b),
    ensures
        stripped(seq![a, "the"@, b]) == a + " "@ + b,
{
    lemma_two_asking(a, b);
    lemma_ordinary(2);
    lemma_passed_over(seq![a], "the"@, seq![b]);
    assert(seq![a].push("the"@) + seq![b] =~= seq![a, "the"@, b]);
    assert(seq![a] + seq![b] =~= seq![a, b]);
}

proof fn lemma_written_two(phrase: Seq<char>, a: Seq<char>, b: Seq<char>)
    requires
        phrase == a + " "@ + b,
        is_word(a),
        is_word(b),
        !ignorable(a),
        !ignorable(b),
    ensures
        stripped(split_whitespace(phrase)) == phrase,
{
    lemma_two_words(a, b);
    lemma_two_asking(a, b);
}

proof fn lemma_written_around(phrase: Seq<char>, a: Seq<char>, b: Seq<char>)
    requires
        phrase == a + " "@ + "the"@ + " "@ + b,
        is_word(a),
        is_word(b),
        !ignorable(a),
        !ignorable(b),
    ensures
        stripped(split_whitespace(phrase)) == a + " "@ + b,
{
    reveal_strlit("the");
    lemma_three_words(a, "the"@, b);
    lemma_around_an_article(a, b);
}

proof fn lemma_phrase_previous_verse()
    ensures
        "previous verse"@ == "previous"@ + " "@ + "verse"@,
        stripped(split_whitespace("previous verse"@)) == "previous verse"@,
        stripped(seq!["previous"@, "verse"@]) == "previous verse"@,
{
    reveal_strlit("previous verse");
    reveal_strlit("previous");
    reveal_strlit("verse");
    reveal_strlit(" ");
    assert("previous verse"@ =~= "previous"@ + " "@ + "verse"@);
    lemma_asking_words();
    lemma_written_two("previous verse"@, "previous"@, "verse"@);
    lemma_two_asking("previous"@, "verse"@);
}

proof fn lemma_phrase_verse_back()
    ensures
        "verse back"@ == "verse"@ + " "@ + "back"@,
        stripped(split_whitespace("verse back"@)) == "verse back"@,
        stripped(seq!["verse"@, "back"@]) == "verse back"@,
{
    reveal_strlit("verse back");
    reveal_strlit("verse");
    reveal_strlit("back");
    reveal_strlit(" ");
    assert("verse back"@ =~= "verse"@ + " "@ + "back"@);
    lemma_asking_words();
    lemma_written_two("verse back"@, "verse"@, "back"@);
    lemma_two_asking("verse"@, "back"@);
}

proof fn lemma_phrase_go_back()
    ensures
        "go back"@ == "go"@ + " "@ + "back"@,
        stripped(split_whitespace("go back"@)) == "go back"@,
        stripped(seq!["go"@, "back"@]) == "go back"@,
{
    reveal_strlit("go back");
    reveal_strlit("go");
    reveal_strlit("back");
    reveal_strlit(" ");
    assert("go back"@ =~= "go"@ + " "@ + "back"@);
    lemma_asking_words();
    lemma_written_two("go back"@, "go"@, "back"@);
    lemma_two_asking("go"@, "back"@);
}

proof fn lemma_phrase_next_verse()
    ensures
        "next verse"@ == "next"@ + " "@ + "verse"@,
        stripped(split_whitespace("next verse"@)) == "next verse"@,
        stripped(seq!["next"@, "verse"@]) == "next verse"@,
{
    reveal_strlit("next verse");
    reveal_strlit("next");
    reveal_strlit("verse");
    reveal_strlit(" ");
    assert("next verse"@ =~= "next"@ + " "@ + "verse"@);
    lemma_asking_words();
    lemma_written_two("next verse"@, "next"@, "verse"@);
    lemma_two_asking("next"@, "verse"@);
}

proof fn lemma_phrase_next_one()
    ensures
        "next one"@ == "next"@ + " "@ + "one"@,
        stripped(split_whitespace("next one"@)) == "next one"@,
        stripped(seq!["next"@, "one"@]) == "next one"@,
{
    reveal_strlit("next one");
    reveal_strlit("next");
    reveal_strlit("one");
    reveal_strlit(" ");
    assert("next one"@ =~= "next"@ + " "@ + "one"@);
    lemma_asking_words();
    lemma_written_two("next one"@, "next"@, "one"@);
    lemma_two_asking("next"@, "one"@);
}

proof fn lemma_phrase_clear_the_screen()
    ensures
        "clear the screen"@ == "clear"@ + " "@ + "the"@ + " "@ + "screen"@,
        stripped(split_whitespace("clear the screen"@)) == "clear"@ + " "@ + "screen"@,
        stripped(seq!["clear"@, "the"@, "screen"@]) == "clear"@ + " "@ + "screen"@,
{
    reveal_strlit("clear the screen");
    reveal_strlit("clear");
    reveal_strlit("the");
    reveal_strlit("screen");
    reveal_strlit(" ");
    assert("clear the screen"@ =~= "clear"@ + " "@ + "the"@ + " "@ + "screen"@);
    lemma_asking_words();
    lemma_written_around("clear the screen"@, "clear"@, "screen"@);
    lemma_around_an_article("clear"@, "screen"@);
}

proof fn lemma_phrase_clear_the_display()
    ensures
        "clear the display"@ == "clear"@ + " "@ + "the"@ + " "@ + "display"@,
        stripped(split_whitespace("clear the display"@)) == "clear"@ + " "@ + "display"@,
        stripped(seq!["clear"@, "the"@, "display"@]) == "clear"@ + " "@ + "display"@,
{
    reveal_strlit("clear the display");
    reveal_strlit("clear");
    reveal_strlit("the");
    reveal_strlit("display");
    reveal_strlit(" ");
    assert("clear the display"@ =~= "clear"@ + " "@ + "the"@ + " "@ + "display"@);
    lemma_asking_words();
    lemma_written_around("clear the display"@, "clear"@, "display"@);
    lemma_around_an_article("clear"@, "display"@);
}

proof fn lemma_phrase_blank_the_screen()
    ensures
        "blank the screen"@ == "blank"@ + " "@ + "the"@ + " "@ + "screen"@,
        stripped(split_whitespace("blank the screen"@)) == "blank"@ + " "@ + "screen"@,
        stripped(seq!["blank"@, "the"@, "screen"@]) == "blank"@ + " "@ + "screen"@,
{
    reveal_strlit("blank the screen");
    reveal_strlit("blank");
    reveal_strlit("the");
    reveal_strlit("screen");
    reveal_strlit(" ");
    assert("blank the screen"@ =~= "blank"@ + " "@ + "the"@ + " "@ + "screen"@);
    lemma_asking_words();
    lemma_written_around("blank the screen"@, "blank"@, "screen"@);
    lemma_around_an_article("blank"@, "screen"@);
}

proof fn lemma_phrase_clear_screen()
    ensures
        "clear screen"@ == "clear"@ + " "@ + "screen"@,
        stripped(split_whitespace("clear screen"@)) == "clear screen"@,
        stripped(seq!["clear"@, "screen"@]) == "clear screen"@,
{
    reveal_strlit("clear screen");
    reveal_strlit("clear");
    reveal_strlit("screen");
    reveal_strlit(" ");
    assert("clear screen"@ =~= "clear"@ + " "@ + "screen"@);
    lemma_asking_words();
    lemma_written_two("clear screen"@, "clear"@, "screen"@);
    lemma_two_asking("clear"@, "screen"@);
}

proof fn lemma_first_letters()
    ensures
        "previous verse"@.len() == 14 && "previous verse"@[0] == 'p',
        "verse back"@.len() == 10 && "verse back"@[0] == 'v',
        "go back"@.len() == 7 && "go back"@[0] == 'g',
        "next verse"@.len() == 10 && "next verse"@[0] == 'n',
        "next one"@.len() == 8 && "next one"@[0] == 'n',
        "clear screen"@.len() == 12 && "clear screen"@[0] == 'c',
        "clear the screen"@.len() == 16 && "clear the screen"@[0] == 'c',
        "clear the display"@.len() == 17 && "clear the display"@[0] == 'c',
        "blank the screen"@.len() == 16 && "blank the screen"@[0] == 'b',
        "clear"@.len() == 5 && "clear"@[0] == 'c',
        "blank"@.len() == 5 && "blank"@[0] == 'b',
{
    reveal_strlit("previous verse");
    reveal_strlit("verse back");
    reveal_strlit("go back");
    reveal_strlit("next verse");
    reveal_strlit("next one");
    reveal_strlit("clear the screen");
    reveal_strlit("clear the display");
    reveal_strlit("blank the screen");
    reveal_strlit("clear screen");
    reveal_strlit("clear");
    reveal_strlit("blank");
}

proof fn lemma_alone(said: Seq<char>)
    ensures
        said == "previous verse"@ || said == "verse back"@ || said == "go back"@ ==> (shipped_alone(
            said,
            0,
        ) matches Some(found) && found.0 == Asked::PreviousVerse),
        said == "next verse"@ || said == "next one"@ ==> (shipped_alone(said, 0) matches Some(
            found,
        ) && found.0 == Asked::NextVerse),
        said == "clear"@ + " "@ + "screen"@ || said == "clear"@ + " "@ + "display"@ || said
            == "blank"@ + " "@ + "screen"@ ==> (shipped_alone(said, 0) matches Some(found)
            && found.0 == Asked::Clear),
{
    lemma_phrase_previous_verse();
    lemma_phrase_verse_back();
    lemma_phrase_go_back();
    lemma_phrase_next_verse();
    lemma_phrase_next_one();
    lemma_phrase_clear_the_screen();
    lemma_phrase_clear_the_display();
    lemma_phrase_blank_the_screen();
    lemma_phrase_clear_screen();
    lemma_first_letters();
    reveal_with_fuel(shipped_alone, 10);
    if said == "clear"@ + " "@ + "screen"@ || said == "clear"@ + " "@ + "display"@ {
        assert(said[0] == 'c');
    }
    if said == "blank"@ + " "@ + "screen"@ {
        assert(said[0] == 'b');
    }
}

/// Whether the wake word, if there is one, is nowhere among some words.
pub open spec fn is_not_woken(h: Hearing, words: Seq<Seq<char>>) -> bool {
    h.wake.len() == 0 || forall|at: int| !#[trigger] window_at(words, split_on(h.wake, ' '), at)
}

proof fn lemma_no_wake(words: Seq<Seq<char>>, wake: Seq<Seq<char>>, at: int)
    requires
        forall|k: int| !#[trigger] window_at(words, wake, k),
    ensures
        last_wake(words, wake, at) is None,
    decreases at + 1,
{
    if at >= 0 {
        lemma_no_wake(words, wake, at - 1);
    }
}

proof fn lemma_by_itself(h: Hearing, words: Seq<Seq<char>>)
    requires
        words.len() <= 12,
        is_not_woken(h, words),
        stripped(words).len() > 0,
    ensures
        understood(h, words) == whole(h, stripped(words)),
{
    let wake = split_on(h.wake, ' ');
    if h.wake.len() > 0 {
        lemma_no_wake(words, wake, words.len() - wake.len());
    }
    assert(after_wake(h, words) is None);
}

/// The phrases that ship are obeyed when they are all that is said: "previous
/// verse", "verse back" and "go back" go a verse back, "next verse" and "next
/// one" a verse on, and the ways to clear or blank the screen clear it.
pub proof fn law_the_phrases_that_ship_are_obeyed(
    h: Hearing,
    words: Seq<Seq<char>>,
    ended: bool,
)
    requires
        h.custom.len() == 0,
        h.last is None,
        is_not_woken(h, words),
    ensures
        says_previous(words) ==> heard(h, words, ended).0 == Some(Asked::PreviousVerse),
        says_next(words) ==> heard(h, words, ended).0 == Some(Asked::NextVerse),
        says_clear(words) ==> heard(h, words, ended).0 == Some(Asked::Clear),
{
    if what_ships(words) is Some {
    lemma_phrase_previous_verse();
        lemma_phrase_verse_back();
        lemma_phrase_go_back();
        lemma_phrase_next_verse();
        lemma_phrase_next_one();
        lemma_phrase_clear_the_screen();
        lemma_phrase_clear_the_display();
        lemma_phrase_blank_the_screen();
        lemma_phrase_clear_screen();
        lemma_first_letters();
        let said = stripped(words);
        assert(said.len() > 0);
        lemma_alone(said);
        lemma_by_itself(h, words);
    }
}

// --------------------------------------------------------- after the wake word

proof fn lemma_joined_opening(a: Seq<Seq<char>>, b: Seq<Seq<char>>)
    requires
        a.len() > 0,
    ensures
        starts_with(joined(a + b, " "@), joined(a, " "@)),
        joined(a + b, " "@).len() >= joined(a, " "@).len(),
    decreases b.len(),
{
    let first = joined(a, " "@);
    if b.len() == 0 {
        assert(a + b =~= a);
        assert(first.subrange(0, first.len() as int) =~= first);
    } else {
        let front = b.drop_last();
        lemma_joined_opening(a, front);
        assert((a + b).drop_last() =~= a + front);
        assert((a + front).push(b.last()) =~= a + b);
        lemma_joined_push(a + front, b.last(), " "@);
        let all = joined(a + b, " "@);
        let part = joined(a + front, " "@);
        assert(all.subrange(0, first.len() as int) =~= part.subrange(0, first.len() as int));
    }
}

proof fn lemma_woken(words: Seq<Seq<char>>, wake: Seq<Seq<char>>, from: int, at: int)
    requires
        0 <= from <= at,
        window_at(words, wake, from),
        forall|k: int| k > from ==> !#[trigger] window_at(words, wake, k),
    ensures
        last_wake(words, wake, at) == Some(from),
    decreases at - from,
{
    if at > from {
        lemma_woken(words, wake, from, at - 1);
    }
}

/// Whether the wake word opens some words at a place, and is not said again.
pub open spec fn wakes_at(h: Hearing, words: Seq<Seq<char>>, at: int) -> bool {
    &&& h.wake.len() > 0
    &&& window_at(words, split_on(h.wake, ' '), at)
    &&& forall|k: int| k > at ==> !#[trigger] window_at(words, split_on(h.wake, ' '), k)
}

proof fn lemma_addressed(h: Hearing, words: Seq<Seq<char>>, at: int)
    requires
        words.len() <= 12,
        wakes_at(h, words, at),
        joined(words.skip(at + split_on(h.wake, ' ').len()), " "@).len() > 0,
    ensures
        after_wake(h, words) == addressed(
            h,
            joined(words.skip(at + split_on(h.wake, ' ').len()), " "@),
        ),
{
    let wake = split_on(h.wake, ' ');
    lemma_woken(words, wake, at, words.len() - wake.len());
}

proof fn lemma_opening(said: Seq<char>)
    ensures
        starts_with(said, "previous verse"@) || starts_with(said, "verse back"@) || starts_with(
            said,
            "go back"@,
        ) ==> (shipped_opening(said, 0) matches Some(found) && found.0 == Asked::PreviousVerse),
        starts_with(said, "next verse"@) || starts_with(said, "next one"@) ==> (shipped_opening(
            said,
            0,
        ) matches Some(found) && found.0 == Asked::NextVerse),
        starts_with(said, "clear the screen"@) || starts_with(said, "clear the display"@)
            || starts_with(said, "blank the screen"@) || starts_with(said, "clear screen"@) ==> (
        shipped_opening(said, 0) matches Some(found) && found.0 == Asked::Clear),
{
    lemma_first_letters();
    reveal_with_fuel(shipped_opening, 10);
    if said.len() > 0 {
        lemma_first_of(said, "previous verse"@);
        lemma_first_of(said, "verse back"@);
        lemma_first_of(said, "go back"@);
        lemma_first_of(said, "next verse"@);
        lemma_first_of(said, "next one"@);
        lemma_first_of(said, "clear the screen"@);
        lemma_first_of(said, "clear the display"@);
        lemma_first_of(said, "blank the screen"@);
        lemma_first_of(said, "clear screen"@);
    }
}

proof fn lemma_first_of(said: Seq<char>, phrase: Seq<char>)
    requires
        phrase.len() > 0,
    ensures
        starts_with(said, phrase) ==> said.len() > 0 && said[0] == phrase[0],
{
    if starts_with(said, phrase) {
        assert(said.subrange(0, phrase.len() as int)[0] == said[0]);
    }
}

/// After the wake word a phrase that ships is obeyed whatever follows it.
pub proof fn law_a_phrase_after_the_wake_word_is_obeyed(
    h: Hearing,
    before: Seq<Seq<char>>,
    phrase: Seq<Seq<char>>,
    after: Seq<Seq<char>>,
    ended: bool,
)
    requires
        h.custom.len() == 0,
        h.last is None,
        before.len() + split_on(h.wake, ' ').len() + phrase.len() + after.len() <= 12,
        wakes_at(h, before + split_on(h.wake, ' ') + phrase + after, before.len() as int),
    ensures
        says_previous(phrase) ==> heard(
            h,
            before + split_on(h.wake, ' ') + phrase + after,
            ended,
        ).0 == Some(Asked::PreviousVerse),
        says_next(phrase) ==> heard(h, before + split_on(h.wake, ' ') + phrase + after, ended).0
            == Some(Asked::NextVerse),
        says_clear(phrase) ==> heard(h, before + split_on(h.wake, ' ') + phrase + after, ended).0
            == Some(Asked::Clear),
{
    let wake = split_on(h.wake, ' ');
    let words = before + wake + phrase + after;
    let at = before.len() as int;
    if what_ships(phrase) is Some {
        lemma_phrases_joined(phrase);
        lemma_joined_opening(phrase, after);
        assert(words.skip(at + wake.len()) =~= phrase + after);
        lemma_addressed(h, words, at);
        lemma_opening(joined(phrase + after, " "@));
    }
}

proof fn lemma_phrases_joined(phrase: Seq<Seq<char>>)
    requires
        what_ships(phrase) is Some,
    ensures
        joined(phrase, " "@).len() > 0,
        says_previous(phrase) ==> joined(phrase, " "@) == "previous verse"@ || joined(phrase, " "@)
            == "verse back"@ || joined(phrase, " "@) == "go back"@,
        says_next(phrase) ==> joined(phrase, " "@) == "next verse"@ || joined(phrase, " "@)
            == "next one"@,
        says_clear(phrase) ==> joined(phrase, " "@) == "clear the screen"@ || joined(phrase, " "@)
            == "clear the display"@ || joined(phrase, " "@) == "blank the screen"@ || joined(
            phrase,
            " "@,
        ) == "clear screen"@,
{
    lemma_first_letters();
    lemma_phrase_previous_verse();
    lemma_phrase_verse_back();
    lemma_phrase_go_back();
    lemma_phrase_next_verse();
    lemma_phrase_next_one();
    lemma_phrase_clear_the_screen();
    lemma_phrase_clear_the_display();
    lemma_phrase_blank_the_screen();
    lemma_phrase_clear_screen();
    lemma_joined_two("previous"@, "verse"@);
    lemma_joined_two("verse"@, "back"@);
    lemma_joined_two("go"@, "back"@);
    lemma_joined_two("next"@, "verse"@);
    lemma_joined_two("next"@, "one"@);
    lemma_joined_two("clear"@, "screen"@);
    lemma_joined_three("clear"@, "the"@, "screen"@);
    lemma_joined_three("clear"@, "the"@, "display"@);
    lemma_joined_three("blank"@, "the"@, "screen"@);
}

proof fn lemma_joined_three(a: Seq<char>, b: Seq<char>, c: Seq<char>)
    ensures
        joined(seq![a, b, c], " "@) == a + " "@ + b + " "@ + c,
{
    lemma_joined_two(a, b);
    lemma_joined_push(seq![a, b], c, " "@);
    assert(seq![a, b].push(c) =~= seq![a, b, c]);
}

// ---------------------------------------------------------- a church's own words

/// A church's own phrase is obeyed before any that ships, both when it is all that
/// is said and after the wake word: they added it because ours did not fit.
pub proof fn law_a_churchs_own_phrase_wins(
    h: Hearing,
    words: Seq<Seq<char>>,
    at: int,
    ended: bool,
)
    requires
        h.custom.len() == 1,
        h.last is None,
        words.len() <= 12,
    ensures
        is_not_woken(h, words) && stripped(words).len() > 0 && stripped(words) == stripped(
            spoken(h.custom[0].0),
        ) ==> heard(h, words, ended).0 == Some(h.custom[0].1),
        wakes_at(h, words, at) && spoken_text(h.custom[0].0).len() > 0 && starts_with(
            joined(words.skip(at + split_on(h.wake, ' ').len()), " "@),
            spoken_text(h.custom[0].0),
        ) ==> heard(h, words, ended).0 == Some(h.custom[0].1),
{
    if is_not_woken(h, words) && stripped(words).len() > 0 {
        lemma_by_itself(h, words);
    }
    if wakes_at(h, words, at) && spoken_text(h.custom[0].0).len() > 0 && starts_with(
        joined(words.skip(at + split_on(h.wake, ' ').len()), " "@),
        spoken_text(h.custom[0].0),
    ) {
        lemma_addressed(h, words, at);
    }
}

// --------------------------------------------------------------- what is said

/// Whether a word is folded to itself: letters and digits, in lower case.
pub open spec fn is_folded(word: Seq<char>) -> bool {
    &&& is_word(word)
    &&& forall|i: int|
        0 <= i < word.len() ==> alphanumeric(#[trigger] word[i]) && lowercase_char(word[i]) == seq![
            word[i],
        ]
}

proof fn lemma_folded(word: Seq<char>)
    requires
        forall|i: int|
            0 <= i < word.len() ==> alphanumeric(#[trigger] word[i]) && lowercase_char(word[i])
                == seq![word[i]],
    ensures
        folded(word) == word,
    decreases word.len(),
{
    if word.len() > 0 {
        let front = word.drop_last();
        assert forall|i: int| 0 <= i < front.len() implies alphanumeric(#[trigger] front[i])
            && lowercase_char(front[i]) == seq![front[i]] by {
            assert(front[i] == word[i]);
        }
        lemma_folded(front);
        assert(alphanumeric(word[word.len() - 1]));
        assert(front + seq![word.last()] =~= word);
    }
}

proof fn lemma_folded_all(words: Seq<Seq<char>>)
    requires
        forall|i: int| 0 <= i < words.len() ==> is_folded(#[trigger] words[i]),
    ensures
        folded_all(words) == words,
    decreases words.len(),
{
    if words.len() > 0 {
        let front = words.drop_last();
        assert forall|i: int| 0 <= i < front.len() implies is_folded(#[trigger] front[i]) by {
            assert(front[i] == words[i]);
        }
        lemma_folded_all(front);
        assert(is_folded(words[words.len() - 1]));
        lemma_folded(words.last());
        assert(front.push(words.last()) =~= words);
    }
}

/// Words in lower case with a space between each are heard as those words.
pub proof fn law_plain_words_are_heard_as_they_are(words: Seq<Seq<char>>)
    ensures
        (forall|i: int| 0 <= i < words.len() ==> is_folded(#[trigger] words[i])) ==> spoken(
            joined(words, " "@),
        ) == words,
{
    if forall|i: int| 0 <= i < words.len() ==> is_folded(#[trigger] words[i]) {
        assert forall|i: int| 0 <= i < words.len() implies is_word(#[trigger] words[i]) by {
            assert(is_folded(words[i]));
        }
        lemma_split_joined(words);
        lemma_folded_all(words);
    }
}

/// A word is heard character by character, and a character that is neither letter
/// nor digit is not heard at all: "Castavox," is "castavox".
pub proof fn law_a_word_is_heard_by_its_letters(a: Seq<char>, c: char, b: Seq<char>)
    ensures
        folded(a.push(c) + b) == folded(a) + (if alphanumeric(c) {
            lowercase_char(c)
        } else {
            Seq::empty()
        }) + folded(b),
    decreases b.len(),
{
    if b.len() == 0 {
        assert(a.push(c) + b =~= a.push(c));
        assert(a.push(c).drop_last() =~= a);
        assert(folded(a.push(c) + b) =~= folded(a) + (if alphanumeric(c) {
            lowercase_char(c)
        } else {
            Seq::empty()
        }) + folded(b));
    } else {
        law_a_word_is_heard_by_its_letters(a, c, b.drop_last());
        assert((a.push(c) + b).drop_last() =~= a.push(c) + b.drop_last());
        assert(folded(a.push(c) + b) =~= folded(a) + (if alphanumeric(c) {
            lowercase_char(c)
        } else {
            Seq::empty()
        }) + folded(b));
    }
}

// ------------------------------------------------------------------ passages

/// Whether words begin with a book's spoken name.
pub open spec fn opens_with(words: Seq<Seq<char>>, name: Seq<char>) -> bool {
    split_on(name, ' ').is_prefix_of(words)
}

/// Whether the first book whose name the words begin with is the `i`th.
pub open spec fn names_book(
    books: Seq<(Seq<char>, Seq<char>)>,
    words: Seq<Seq<char>>,
    i: int,
) -> bool {
    &&& 0 <= i < books.len()
    &&& opens_with(words, books[i].0)
    &&& forall|j: int| 0 <= j < i ==> !opens_with(words, (#[trigger] books[j]).0)
}

/// Whether the words begin with the name of no book.
pub open spec fn names_no_book(books: Seq<(Seq<char>, Seq<char>)>, words: Seq<Seq<char>>) -> bool {
    forall|j: int| 0 <= j < books.len() ==> !opens_with(words, (#[trigger] books[j]).0)
}

proof fn lemma_no_book(books: Seq<(Seq<char>, Seq<char>)>, words: Seq<Seq<char>>, from: int)
    requires
        0 <= from,
        names_no_book(books, words),
    ensures
        book_named(books, words, from) is None,
    decreases books.len() - from,
{
    if from < books.len() {
        let name = split_on(books[from].0, ' ');
        assert(!opens_with(words, books[from].0));
        if name.len() <= words.len() && words.take(name.len() as int) == name {
            assert(words.subrange(0, name.len() as int) =~= words.take(name.len() as int));
        }
        lemma_no_book(books, words, from + 1);
    }
}

proof fn lemma_book(books: Seq<(Seq<char>, Seq<char>)>, words: Seq<Seq<char>>, i: int, from: int)
    requires
        0 <= from <= i,
        names_book(books, words, i),
    ensures
        book_named(books, words, from) == Some(
            (books[i].1, split_on(books[i].0, ' ').len() as int),
        ),
    decreases i - from,
{
    let name = split_on(books[from].0, ' ');
    if from == i {
        assert(words.take(name.len() as int) =~= words.subrange(0, name.len() as int));
    } else {
        assert(!opens_with(words, books[from].0));
        if name.len() <= words.len() && words.take(name.len() as int) == name {
            assert(words.subrange(0, name.len() as int) =~= words.take(name.len() as int));
        }
        lemma_book(books, words, i, from + 1);
    }
}

/// Whether a word does not go on with the number before it.
pub open spec fn stands_apart(x: i64, rest: Seq<Seq<char>>) -> bool {
    rest.len() == 0 || (rest[0] != "hundred"@ && !(is_round(x as int) && (value_of(rest[0])
        matches Some(y) && y < 10)))
}

proof fn lemma_number_first(c: Seq<char>, x: i64, rest: Seq<Seq<char>>)
    requires
        value_of(c) == Some(x),
        stands_apart(x, rest),
    ensures
        first_number(seq![c] + rest) == Some((x, 1int)),
{
    let said = seq![c] + rest;
    assert(number_at(said, 0) == Some((x, 1int))) by {
        assert(said[0] == c);
        if rest.len() > 0 {
            assert(said[1] == rest[0]);
        }
    }
    lemma_first_number(said);
    assert(said.take(1) =~= seq![c]);
    law_a_number_by_itself(c, x);
}

proof fn lemma_spoken_number(words: Seq<Seq<char>>, at: int, x: i64)
    requires
        0 <= at < words.len(),
        value_of(words[at]) == Some(x),
        stands_apart(x, words.skip(at + 1)),
    ensures
        spoken_number(words, at) == Some((x, at + 1)),
{
    lemma_number_first(words[at], x, words.skip(at + 1));
    assert(words.skip(at) =~= seq![words[at]] + words.skip(at + 1));
}

proof fn lemma_place_words()
    ensures
        value_of("chapter"@) is None,
        value_of("verse"@) is None,
        "chapter"@ != "verse"@,
        "chapter"@ != "hundred"@,
        "verse"@ != "hundred"@,
        "next"@ != "previous"@,
        "next"@ != "last"@,
        "previous"@ != "chapter"@,
        "next"@ != "chapter"@,
        "last"@ != "chapter"@,
{
    reveal_strlit("chapter");
    reveal_strlit("verse");
    reveal_strlit("hundred");
    reveal_strlit("next");
    reveal_strlit("previous");
    reveal_strlit("last");
    lemma_no_number_word("chapter"@);
    lemma_no_number_word("verse"@);
    assert("next"@[0] == 'n' && "last"@[0] == 'l');
    assert("chapter"@[0] == 'c' && "hundred"@[0] == 'h');
}

/// "Next chapter" is a chapter on and "previous chapter" or "last chapter" a
/// chapter back, with a verse where one is named.
pub proof fn law_a_chapter_is_stepped(
    books: Seq<(Seq<char>, Seq<char>)>,
    step: Seq<char>,
    v: Seq<char>,
    y: i64,
)
    requires
        value_of(v) == Some(y),
        step == "next"@ || step == "previous"@ || step == "last"@,
    ensures
        ({
            let by: i64 = if step == "next"@ {
                1
            } else {
                (-1) as i64
            };
            let short = seq![step, "chapter"@];
            let long = seq![step, "chapter"@, "verse"@, v];
            &&& names_no_book(books, short) ==> passage(books, short) == Some(
                (Asked::Passage { book: None, chapter: None, by, verse: None }, 2int),
            )
            &&& names_no_book(books, long) ==> passage(books, long) == Some(
                (Asked::Passage { book: None, chapter: None, by, verse: Some(y) }, 4int),
            )
        }),
{
    lemma_place_words();
    let short = seq![step, "chapter"@];
    let long = seq![step, "chapter"@, "verse"@, v];
    if names_no_book(books, short) {
        lemma_no_book(books, short, 0);
    }
    if names_no_book(books, long) {
        lemma_no_book(books, long, 0);
        lemma_spoken_number(long, 3, y);
    }
}

/// "Chapter four", "chapter four verse nine" and "verse nine" are places in the
/// book being read. A number without its word is none, and neither is a word
/// without its number.
pub proof fn law_a_place_in_the_book_being_read(
    books: Seq<(Seq<char>, Seq<char>)>,
    words: Seq<Seq<char>>,
    c: Seq<char>,
    v: Seq<char>,
    x: i64,
    y: i64,
)
    requires
        value_of(c) == Some(x),
        value_of(v) == Some(y),
        names_no_book(books, words),
    ensures
        words == seq!["chapter"@, c] ==> passage(books, words) == Some(
            (Asked::Passage { book: None, chapter: Some(x), by: 0, verse: None }, 2int),
        ),
        words == seq!["chapter"@, c, "verse"@, v] ==> passage(books, words) == Some(
            (Asked::Passage { book: None, chapter: Some(x), by: 0, verse: Some(y) }, 4int),
        ),
        words == seq!["verse"@, v] ==> passage(books, words) == Some(
            (Asked::Passage { book: None, chapter: None, by: 0, verse: Some(y) }, 2int),
        ),
        words == seq![c] || words == seq!["chapter"@] || words == seq!["verse"@] ==> passage(
            books,
            words,
        ) is None,
{
    lemma_place_words();
    lemma_no_book(books, words, 0);
    if words == seq!["chapter"@, c] {
        assert(words[1] == c);
        lemma_spoken_number(words, 1, x);
    }
    if words == seq!["chapter"@, c, "verse"@, v] {
        assert(words[1] == c && words[3] == v && words[2] == "verse"@);
        assert(words.skip(2)[0] == "verse"@);
        lemma_spoken_number(words, 1, x);
        lemma_spoken_number(words, 3, y);
    }
    if words == seq!["verse"@, v] {
        assert(words[0] == "verse"@ && words[1] == v);
        lemma_spoken_number(words, 1, y);
    }
    if words == seq!["chapter"@] || words == seq!["verse"@] {
        lemma_nothing_behind(words);
    }
    if words == seq![c] {
        assert(words[0] == c);
    }
}

proof fn lemma_nothing_behind(words: Seq<Seq<char>>)
    requires
        words.len() == 1,
    ensures
        spoken_number(words, 1) is None,
{
    assert(words.skip(1).len() == 0);
}

/// Whether words are a book's name and then a chapter and a verse, with the words
/// "chapter" and "verse" or without.
pub open spec fn is_full_reference(
    words: Seq<Seq<char>>,
    name: Seq<Seq<char>>,
    c: Seq<char>,
    v: Seq<char>,
) -> bool {
    ||| words == name + seq![c, v]
    ||| words == name + seq![c, "verse"@, v]
    ||| words == name + seq!["chapter"@, c, v]
    ||| words == name + seq!["chapter"@, c, "verse"@, v]
}

/// "John nine eight", "John nine verse eight" and "John chapter nine verse eight"
/// are one request: that book, that chapter, that verse.
pub proof fn law_a_reference_is_read_however_it_is_said(
    books: Seq<(Seq<char>, Seq<char>)>,
    i: int,
    words: Seq<Seq<char>>,
    c: Seq<char>,
    v: Seq<char>,
    x: i64,
    y: i64,
)
    requires
        value_of(c) == Some(x),
        value_of(v) == Some(y),
        !(is_round(x as int) && y < 10),
        names_book(books, words, i),
        is_full_reference(words, split_on(books[i].0, ' '), c, v),
    ensures
        passage(books, words) == Some(
            (
                Asked::Passage {
                    book: Some(books[i].1),
                    chapter: Some(x),
                    by: 0,
                    verse: Some(y),
                },
                words.len() as int,
            ),
        ),
{
    lemma_no_hundred(c, x);
    lemma_no_hundred(v, y);
    lemma_book(books, words, i, 0);
    lemma_full_reference(books, words, split_on(books[i].0, ' '), c, v, x, y);
    reveal(reads_as);
}

/// Whether words are read as the place in the book they name.
#[verifier::opaque]
spec fn reads_as(
    books: Seq<(Seq<char>, Seq<char>)>,
    words: Seq<Seq<char>>,
    x: i64,
    y: i64,
) -> bool {
    passage(books, words) == Some(
        (
            Asked::Passage {
                book: Some((book_named(books, words, 0)->0).0),
                chapter: Some(x),
                by: 0,
                verse: Some(y),
            },
            words.len() as int,
        ),
    )
}

#[verifier::spinoff_prover]
proof fn lemma_full_reference(
    books: Seq<(Seq<char>, Seq<char>)>,
    words: Seq<Seq<char>>,
    name: Seq<Seq<char>>,
    c: Seq<char>,
    v: Seq<char>,
    x: i64,
    y: i64,
)
    requires
        book_named(books, words, 0) matches Some(found) && found.1 == name.len(),
        value_of(c) == Some(x),
        value_of(v) == Some(y),
        !(is_round(x as int) && y < 10),
        v != "hundred"@ && v != "verse"@ && c != "chapter"@,
        is_full_reference(words, name, c, v),
    ensures
        reads_as(books, words, x, y),
{
    let at = name.len() as int;
    if words == name + seq![c, v] {
        lemma_behind(words, name, seq![c, v]);
        lemma_reference(books, words, at, at, at + 1, x, y);
    } else if words == name + seq![c, "verse"@, v] {
        lemma_behind(words, name, seq![c, "verse"@, v]);
        lemma_reference(books, words, at, at, at + 2, x, y);
    } else if words == name + seq!["chapter"@, c, v] {
        lemma_behind(words, name, seq!["chapter"@, c, v]);
        lemma_reference(books, words, at, at + 1, at + 2, x, y);
    } else {
        lemma_behind(words, name, seq!["chapter"@, c, "verse"@, v]);
        lemma_reference(books, words, at, at + 1, at + 3, x, y);
    }
}

proof fn lemma_behind(words: Seq<Seq<char>>, name: Seq<Seq<char>>, tail: Seq<Seq<char>>)
    requires
        words == name + tail,
    ensures
        words.len() == name.len() + tail.len(),
        tail.len() > 0 ==> words[name.len() as int] == tail[0],
        tail.len() > 1 ==> words[(name.len() + 1) as int] == tail[1],
        tail.len() > 2 ==> words[(name.len() + 2) as int] == tail[2],
        tail.len() > 3 ==> words[(name.len() + 3) as int] == tail[3],
{
}

proof fn lemma_reference(
    books: Seq<(Seq<char>, Seq<char>)>,
    words: Seq<Seq<char>>,
    at: int,
    chapter: int,
    verse: int,
    x: i64,
    y: i64,
)
    requires
        book_named(books, words, 0) matches Some(found) && found.1 == at,
        0 <= at <= chapter < verse,
        verse == words.len() - 1,
        value_of(words[chapter]) == Some(x),
        value_of(words[verse]) == Some(y),
        !(is_round(x as int) && y < 10),
        words[verse] != "hundred"@ && words[verse] != "verse"@,
        chapter == at && words[at] != "chapter"@ || chapter == at + 1 && words[at] == "chapter"@,
        verse == chapter + 1 || verse == chapter + 2 && words[chapter + 1] == "verse"@,
    ensures
        reads_as(books, words, x, y),
{
    reveal(reads_as);
    lemma_place_words();
    assert(words.skip(chapter + 1)[0] == words[chapter + 1]);
    assert(words.skip(verse + 1).len() == 0);
    lemma_spoken_number(words, chapter, x);
    lemma_spoken_number(words, verse, y);
    assert(chapter_at(words, at, true) == Some((Some(x), chapter + 1)));
    assert(verse_at(words, chapter + 1, true) == Some((Some(y), verse + 1)));
}

proof fn lemma_no_hundred(c: Seq<char>, x: i64)
    requires
        value_of(c) == Some(x),
    ensures
        c != "hundred"@,
        c != "chapter"@,
        c != "verse"@,
{
    lemma_place_words();
    reveal_strlit("hundred");
    lemma_no_number_word("hundred"@);
}

/// A book and a chapter without a verse are the top of that chapter, and a book by
/// itself is somebody saying a name.
pub proof fn law_a_book_and_a_chapter(
    books: Seq<(Seq<char>, Seq<char>)>,
    i: int,
    words: Seq<Seq<char>>,
    c: Seq<char>,
    x: i64,
)
    requires
        value_of(c) == Some(x),
        names_book(books, words, i),
    ensures
        words == split_on(books[i].0, ' ') + seq![c] || words == split_on(books[i].0, ' ') + seq![
            "chapter"@,
            c,
        ] ==> passage(books, words) == Some(
            (
                Asked::Passage { book: Some(books[i].1), chapter: Some(x), by: 0, verse: None },
                words.len() as int,
            ),
        ),
        words == split_on(books[i].0, ' ') ==> passage(books, words) is None,
{
    lemma_place_words();
    lemma_no_hundred(c, x);
    lemma_book(books, words, i, 0);
    let name = split_on(books[i].0, ' ');
    let at = name.len() as int;
    if words == name + seq![c] {
        assert(words[at] == c);
        lemma_spoken_number(words, at, x);
        assert(words.skip(at + 1).len() == 0);
    }
    if words == name + seq!["chapter"@, c] {
        assert(words[at] == "chapter"@ && words[at + 1] == c);
        lemma_spoken_number(words, at + 1, x);
        assert(words.skip(at + 2).len() == 0);
    }
    if words == name {
        assert(words.skip(at).len() == 0);
    }
}

/// A word that stands for a number is not passed over.
pub proof fn law_numbers_are_kept(word: Seq<char>)
    requires
        value_of(word) is Some,
    ensures
        !ignorable(word),
{
    if ignorable(word) {
        lemma_looks_ordinary(word);
        lemma_the_only_the(word);
        lemma_no_number_word(word);
    }
}

proof fn lemma_the_only_the(word: Seq<char>)
    requires
        looks_ordinary(word),
    ensures
        !looks_counting(word),
{
}

/// Whether words are all there is to a phrase that ships.
pub open spec fn is_bare_phrase(words: Seq<Seq<char>>) -> bool {
    ||| words == seq!["previous"@, "verse"@]
    ||| words == seq!["verse"@, "back"@]
    ||| words == seq!["go"@, "back"@]
    ||| words == seq!["next"@, "verse"@]
    ||| words == seq!["next"@, "one"@]
    ||| words == seq!["clear"@, "screen"@]
    ||| words == seq!["clear"@, "display"@]
    ||| words == seq!["blank"@, "screen"@]
}

proof fn lemma_is_bare(said: Seq<char>, words: Seq<Seq<char>>, a: Seq<char>, b: Seq<char>)
    requires
        said == joined(words, " "@),
        forall|i: int| 0 <= i < words.len() ==> is_word(#[trigger] words[i]),
        is_word(a),
        is_word(b),
        said == a + " "@ + b,
    ensures
        words == seq![a, b],
{
    lemma_split_joined(words);
    lemma_two_words(a, b);
}

proof fn lemma_words()
    ensures
        is_word("previous"@),
        is_word("verse"@),
        is_word("back"@),
        is_word("go"@),
        is_word("next"@),
        is_word("one"@),
        is_word("clear"@),
        is_word("screen"@),
        is_word("display"@),
        is_word("blank"@),
{
    reveal_strlit("previous");
    reveal_strlit("verse");
    reveal_strlit("back");
    reveal_strlit("go");
    reveal_strlit("next");
    reveal_strlit("one");
    reveal_strlit("clear");
    reveal_strlit("screen");
    reveal_strlit("display");
    reveal_strlit("blank");
}

proof fn lemma_nothing_ships(words: Seq<Seq<char>>)
    requires
        forall|i: int| 0 <= i < words.len() ==> is_word(#[trigger] words[i]),
        !is_bare_phrase(words),
    ensures
        shipped_alone(joined(words, " "@), 0) is None,
{
    let said = joined(words, " "@);
    lemma_words();
    lemma_phrase_previous_verse();
    lemma_phrase_verse_back();
    lemma_phrase_go_back();
    lemma_phrase_next_verse();
    lemma_phrase_next_one();
    lemma_phrase_clear_the_screen();
    lemma_phrase_clear_the_display();
    lemma_phrase_blank_the_screen();
    lemma_phrase_clear_screen();
    if said == "previous"@ + " "@ + "verse"@ {
        lemma_is_bare(said, words, "previous"@, "verse"@);
    }
    if said == "verse"@ + " "@ + "back"@ {
        lemma_is_bare(said, words, "verse"@, "back"@);
    }
    if said == "go"@ + " "@ + "back"@ {
        lemma_is_bare(said, words, "go"@, "back"@);
    }
    if said == "next"@ + " "@ + "verse"@ {
        lemma_is_bare(said, words, "next"@, "verse"@);
    }
    if said == "next"@ + " "@ + "one"@ {
        lemma_is_bare(said, words, "next"@, "one"@);
    }
    if said == "clear"@ + " "@ + "screen"@ {
        lemma_is_bare(said, words, "clear"@, "screen"@);
    }
    if said == "clear"@ + " "@ + "display"@ {
        lemma_is_bare(said, words, "clear"@, "display"@);
    }
    if said == "blank"@ + " "@ + "screen"@ {
        lemma_is_bare(said, words, "blank"@, "screen"@);
    }
    reveal_with_fuel(shipped_alone, 10);
}

proof fn lemma_all_kept(words: Seq<Seq<char>>)
    requires
        forall|i: int| 0 <= i < words.len() ==> !ignorable(#[trigger] words[i]),
    ensures
        words.filter(|w: Seq<char>| !ignorable(w)) == words,
    decreases words.len(),
{
    reveal(Seq::filter);
    if words.len() > 0 {
        let front = words.drop_last();
        assert forall|i: int| 0 <= i < front.len() implies !ignorable(#[trigger] front[i]) by {
            assert(front[i] == words[i]);
        }
        lemma_all_kept(front);
        lemma_kept_push(front, words.last());
        assert(!ignorable(words[words.len() - 1]));
        assert(front.push(words.last()) =~= words);
    } else {
        assert(words.filter(|w: Seq<char>| !ignorable(w)) =~= words);
    }
}

proof fn lemma_split_on_joined(words: Seq<Seq<char>>)
    requires
        words.len() > 0,
        forall|i: int| 0 <= i < words.len() ==> !(#[trigger] words[i]).contains(' '),
    ensures
        split_on(joined(words, " "@), ' ') == words,
    decreases words.len(),
{
    if words.len() == 1 {
        lemma_no_gap(Seq::empty(), words[0]);
        assert(Seq::<char>::empty() + words[0] =~= words[0]);
        assert(split_on(words[0], ' ') =~= words);
    } else {
        let front = words.drop_last();
        assert forall|i: int| 0 <= i < front.len() implies !(#[trigger] front[i]).contains(' ') by {
            assert(front[i] == words[i]);
        }
        lemma_split_on_joined(front);
        reveal_strlit(" ");
        let before = joined(front, " "@);
        let gap = before.push(' ');
        assert(before + " "@ =~= gap);
        assert(gap.drop_last() =~= before);
        assert(!words[words.len() - 1].contains(' '));
        lemma_no_gap(gap, words.last());
        assert(front.push(words.last()) =~= words);
    }
}

proof fn lemma_no_gap(before: Seq<char>, word: Seq<char>)
    requires
        before.len() == 0 || before.last() == ' ',
        !word.contains(' '),
    ensures
        split_on(before + word, ' ') == split_on(before, ' ').drop_last().push(word),
    decreases word.len(),
{
    lemma_split_on_nonempty(before, ' ');
    if word.len() == 0 {
        assert(before + word =~= before);
        assert(split_on(before, ' ').last() =~= word);
        assert(split_on(before, ' ').drop_last().push(word) =~= split_on(before, ' '));
    } else {
        let front = word.drop_last();
        assert(!front.contains(' ')) by {
            if front.contains(' ') {
                let i = front.index_of(' ');
                assert(word[i] == ' ');
            }
        }
        lemma_no_gap(before, front);
        assert(word[word.len() - 1] != ' ') by {
            assert(word.contains(word[word.len() - 1]));
        }
        assert((before + word).drop_last() =~= before + front);
        let parts = split_on(before, ' ').drop_last();
        assert(parts.push(front).drop_last() =~= parts);
        assert(front.push(word.last()) =~= word);
    }
}

/// A place is obeyed when it is all that is said, and then is what the words are
/// read as; words left over make it no instruction.
pub proof fn law_a_place_said_alone_is_obeyed(h: Hearing, words: Seq<Seq<char>>, ended: bool)
    requires
        h.custom.len() == 0,
        h.last is None,
        is_not_woken(h, words),
        0 < words.len() <= 12,
        forall|i: int|
            0 <= i < words.len() ==> is_word(#[trigger] words[i]) && !ignorable(words[i]),
        !is_bare_phrase(words),
    ensures
        passage(h.books, words) matches Some((asked, used)) ==> used == words.len() ==> heard(
            h,
            words,
            ended,
        ).0 == Some(asked),
        (match passage(h.books, words) {
            Some((asked, used)) => used != words.len(),
            None => true,
        }) && h.named.len() == 0 ==> heard(h, words, ended).0 is None,
{
    lemma_all_kept(words);
    lemma_nothing_ships(words);
    assert forall|i: int| 0 <= i < words.len() implies !(#[trigger] words[i]).contains(' ') by {
        assert(is_word(words[i]));
        if words[i].contains(' ') {
            let k = words[i].index_of(' ');
            assert(words[i][k] == ' ');
        }
    }
    lemma_split_on_joined(words);
    assert(stripped(words) == joined(words, " "@));
    assert(joined(words, " "@).len() > 0) by {
        if joined(words, " "@).len() == 0 {
            lemma_split_joined(words);
            assert(joined(words, " "@) =~= Seq::empty());
            assert(split_whitespace(Seq::<char>::empty()) =~= Seq::empty());
        }
    }
    lemma_by_itself(h, words);
}

// ------------------------------------------------------------ names as spoken

/// A book whose name begins with a one, two or three is said with the digit, with
/// the ordinal and with the cardinal, and any other as it is.
pub proof fn law_a_numbered_book_is_said_three_ways(book: Seq<char>, rest: Seq<char>)
    ensures
        spoken_text(book) == "1 "@ + rest ==> forms_of(book) == seq![
            "1 "@ + rest,
            "first "@ + rest,
            "one "@ + rest,
        ],
        spoken_text(book) == "2 "@ + rest ==> forms_of(book) == seq![
            "2 "@ + rest,
            "second "@ + rest,
            "two "@ + rest,
        ],
        spoken_text(book) == "3 "@ + rest ==> forms_of(book) == seq![
            "3 "@ + rest,
            "third "@ + rest,
            "three "@ + rest,
        ],
        spoken_text(book).len() > 0 && !('1' <= spoken_text(book)[0] <= '3') ==> forms_of(book)
            == seq![spoken_text(book)],
{
    reveal_strlit("1 ");
    reveal_strlit("2 ");
    reveal_strlit("3 ");
    let name = spoken_text(book);
    lemma_first_of(name, "1 "@);
    lemma_first_of(name, "2 "@);
    lemma_first_of(name, "3 "@);
    if name == "1 "@ + rest {
        lemma_after_digit(name, "1 "@, rest);
        assert(forms_of(book) =~= seq!["1 "@ + rest, "first "@ + rest, "one "@ + rest]);
    }
    if name == "2 "@ + rest {
        lemma_after_digit(name, "2 "@, rest);
        assert(forms_of(book) =~= seq!["2 "@ + rest, "second "@ + rest, "two "@ + rest]);
    }
    if name == "3 "@ + rest {
        lemma_after_digit(name, "3 "@, rest);
        assert(forms_of(book) =~= seq!["3 "@ + rest, "third "@ + rest, "three "@ + rest]);
    }
}

proof fn lemma_after_digit(name: Seq<char>, digit: Seq<char>, rest: Seq<char>)
    requires
        name == digit + rest,
    ensures
        starts_with(name, digit),
        name.skip(digit.len() as int) == rest,
{
    assert(name.subrange(0, digit.len() as int) =~= digit);
    assert(name.skip(digit.len() as int) =~= rest);
}

/// A translation is asked for by its code, by its full name, and by its name
/// without a trailing "version", and by nothing else.
pub proof fn law_a_translation_has_three_names(
    id: Seq<char>,
    name: Seq<char>,
    front: Seq<Seq<char>>,
    named: (Seq<char>, Seq<char>),
)
    requires
        front.len() > 0,
    ensures
        spoken(name) == front.push("version"@) ==> (names_of(id, name).contains(named) <==> named.1
            == id && (named.0 == spoken_text(id) || named.0 == joined(
            front.push("version"@),
            " "@,
        ) || named.0 == joined(front, " "@))),
        spoken(name) == front && front.last() != "version"@ ==> (names_of(id, name).contains(named)
            <==> named.1 == id && (named.0 == spoken_text(id) || named.0 == joined(front, " "@))),
{
    let all = names_of(id, name);
    if spoken(name) == front.push("version"@) {
        assert(front.push("version"@).drop_last() =~= front);
        assert(all[0] == (spoken_text(id), id));
        assert(all[1] == (joined(front.push("version"@), " "@), id));
        assert(all[2] == (joined(front, " "@), id));
    }
    if spoken(name) == front && front.last() != "version"@ {
        assert(all[0] == (spoken_text(id), id));
        assert(all[1] == (joined(front, " "@), id));
    }
}

/// After the wake word, a translation is switched to where its name stands among
/// the words as whole words; said alone, where its name is all that is said. A
/// name of one or two letters is passed over.
pub proof fn law_a_named_translation_is_switched_to(h: Hearing, said: Seq<char>)
    requires
        h.custom.len() == 0,
        h.named.len() == 1,
        shipped_opening(said, 0) is None,
        shipped_alone(said, 0) is None,
        passage(h.books, split_on(said, ' ')) is None,
    ensures
        addressed(h, said) is Some <==> byte_len(h.named[0].0) >= 3 && exists|at: int|
            #[trigger] occurs_at(said, h.named[0].0, at) && (at == 0 || said[at - 1] == ' ') && (at
                + h.named[0].0.len() == said.len() || said[at + h.named[0].0.len()] == ' '),
        addressed(h, said) matches Some(found) ==> found.0 == (Asked::Switch {
            translation: h.named[0].1,
        }),
        whole(h, said) is Some <==> byte_len(h.named[0].0) >= 3 && said == stripped(
            spoken(h.named[0].0),
        ),
        whole(h, said) matches Some(found) ==> found.0 == (Asked::Switch {
            translation: h.named[0].1,
        }),
{
    let name = h.named[0].0;
    reveal_with_fuel(translation_within, 2);
    reveal_with_fuel(translation_alone, 2);
    if holds_words(said, name) {
        let at = choose|at: int| #[trigger] stands_at(said, name, at);
        assert(occurs_at(said, name, at));
    }
    if exists|at: int|
        #[trigger] occurs_at(said, name, at) && (at == 0 || said[at - 1] == ' ') && (at
            + name.len() == said.len() || said[at + name.len()] == ' ') {
        let at = choose|at: int|
            #[trigger] occurs_at(said, name, at) && (at == 0 || said[at - 1] == ' ') && (at
                + name.len() == said.len() || said[at + name.len()] == ' ');
        assert(stands_at(said, name, at));
    }
}

} // verus!
