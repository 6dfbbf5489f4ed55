//! Things an operator can say instead of reaching for the laptop.
//!
//! A preacher saying "and the next verse says" is not asking for anything, so
//! three guards stand between speech and the screen:
//!
//! 1. The words have to be addressed to the machine: by a wake word, after
//!    which anything may follow, or by being the whole of what was said.
//! 2. Only the tail of the transcript counts.
//! 3. One utterance is obeyed once, however often it arrives while it settles.

use crate::numbers::{first_number, read_first, says, word_is};
use crate::order::{lemma_sorted, sort, sorted, views};
use crate::text::{
    alphanumeric, byte_len, chars_list, chars_of, copy_range, count_bytes, find_at, is_alphanumeric,
    join_texts, joined, lemma_prefix_step, lowercase_char, occurs_at, push_all, push_text,
    same_text, split_on, split_text, split_whitespace, starts_with, text_of, text_starts_with,
    texts, to_lowercase_char, words_of, words_of_text,
};
use vstd::prelude::*;

verus! {

/// How far back a command may be found, in words.
pub const TAIL: usize = 12;

// --------------------------------------------------------------------- types

/// What an operator asked for.
#[derive(Debug, PartialEq, Eq)]
pub enum Command {
    NextVerse,
    PreviousVerse,
    /// Blank the screen. Never the reverse.
    Clear,
    /// Read from another translation.
    Switch { translation: String },
    /// Somewhere else in the scripture: a chapter, a verse, or a whole
    /// reference.
    Passage {
        /// Named only when the operator said one; otherwise the book being read.
        book: Option<String>,
        /// An absolute chapter, when one was named.
        chapter: Option<i64>,
        /// A relative move: 1 for "next chapter", -1 for "previous".
        by: i64,
        /// Absent means the top of the chapter.
        verse: Option<i64>,
    },
}

/// A command as contracts speak of it.
pub enum Asked {
    NextVerse,
    PreviousVerse,
    Clear,
    Switch { translation: Seq<char> },
    Passage { book: Option<Seq<char>>, chapter: Option<i64>, by: i64, verse: Option<i64> },
}

pub open spec fn opt_text(text: Option<String>) -> Option<Seq<char>> {
    match text {
        Some(text) => Some(text@),
        None => None,
    }
}

impl View for Command {
    type V = Asked;

    open spec fn view(&self) -> Asked {
        match *self {
            Command::NextVerse => Asked::NextVerse,
            Command::PreviousVerse => Asked::PreviousVerse,
            Command::Clear => Asked::Clear,
            Command::Switch { translation } => Asked::Switch { translation: translation@ },
            Command::Passage { book, chapter, by, verse } => Asked::Passage {
                book: opt_text(book),
                chapter,
                by,
                verse,
            },
        }
    }
}

/// A phrase a church has taught the application, pointed at an action.
#[derive(Debug, PartialEq, Eq)]
pub struct Phrase {
    /// What somebody says, in their own words.
    pub said: String,
    pub does: Command,
}

impl View for Phrase {
    type V = (Seq<char>, Asked);

    open spec fn view(&self) -> (Seq<char>, Asked) {
        (self.said@, self.does@)
    }
}

/// What identifies an utterance for as long as it is still being revised: the
/// phrase that matched, or the place that was asked for.
pub enum Key {
    Phrase(Seq<char>),
    Place(Asked),
}

#[derive(Debug)]
enum Heard {
    Phrase(String),
    Place(Command),
}

impl Heard {
    spec fn key(self) -> Key {
        match self {
            Heard::Phrase(text) => Key::Phrase(text@),
            Heard::Place(command) => Key::Place(command@),
        }
    }
}

/// Everything needed to read the stream for commands.
#[derive(Debug)]
pub struct Listener {
    wake: String,
    named: Vec<(String, String)>,
    books: Vec<(String, String)>,
    custom: Vec<Phrase>,
    last: Option<Heard>,
}

/// A listener as contracts speak of it.
pub struct Hearing {
    /// The wake word, folded to words; empty when none is set.
    pub wake: Seq<char>,
    /// Translations by every name a person might say them by, longest first.
    pub named: Seq<(Seq<char>, Seq<char>)>,
    /// Book names as spoken, paired with the library's spelling, longest first.
    pub books: Seq<(Seq<char>, Seq<char>)>,
    /// The church's own phrases.
    pub custom: Seq<(Seq<char>, Asked)>,
    /// The last thing acted on, while its utterance is still being revised.
    pub last: Option<Key>,
}

pub open spec fn pairs(list: Seq<(String, String)>) -> Seq<(Seq<char>, Seq<char>)> {
    list.map_values(|p: (String, String)| (p.0@, p.1@))
}

pub open spec fn phrases(list: Seq<Phrase>) -> Seq<(Seq<char>, Asked)> {
    list.map_values(|p: Phrase| p@)
}

impl View for Listener {
    type V = Hearing;

    closed spec fn view(&self) -> Hearing {
        Hearing {
            wake: self.wake@,
            named: pairs(self.named@),
            books: pairs(self.books@),
            custom: phrases(self.custom@),
            last: match self.last {
                Some(heard) => Some(heard.key()),
                None => None,
            },
        }
    }
}

// ------------------------------------------------------------- what is said

/// A word with everything but letters and digits dropped, in lower case.
pub open spec fn folded(token: Seq<char>) -> Seq<char>
    decreases token.len(),
{
    if token.len() == 0 {
        Seq::empty()
    } else if alphanumeric(token.last()) {
        folded(token.drop_last()) + lowercase_char(token.last())
    } else {
        folded(token.drop_last())
    }
}

/// The folded words of a list, without those of which nothing is left.
pub open spec fn folded_all(tokens: Seq<Seq<char>>) -> Seq<Seq<char>>
    decreases tokens.len(),
{
    if tokens.len() == 0 {
        Seq::empty()
    } else if folded(tokens.last()).len() == 0 {
        folded_all(tokens.drop_last())
    } else {
        folded_all(tokens.drop_last()).push(folded(tokens.last()))
    }
}

/// A text as the words somebody said.
pub open spec fn spoken(text: Seq<char>) -> Seq<Seq<char>> {
    folded_all(split_whitespace(text))
}

/// A text as the words somebody said, with one space between each.
pub open spec fn spoken_text(text: Seq<char>) -> Seq<char> {
    joined(spoken(text), " "@)
}

/// Words that carry no instruction.
pub open spec fn ignorable(word: Seq<char>) -> bool {
    ||| word == "a"@
    ||| word == "an"@
    ||| word == "the"@
    ||| word == "please"@
    ||| word == "ok"@
    ||| word == "okay"@
    ||| word == "now"@
    ||| word == "just"@
    ||| word == "to"@
    ||| word == "me"@
    ||| word == "us"@
    ||| word == "give"@
    ||| word == "switch"@
    ||| word == "read"@
    ||| word == "from"@
    ||| word == "let"@
    ||| word == "lets"@
    ||| word == "put"@
    ||| word == "up"@
}

/// The words that actually ask for something.
pub open spec fn stripped(words: Seq<Seq<char>>) -> Seq<char> {
    joined(words.filter(|w: Seq<char>| !ignorable(w)), " "@)
}

/// The phrases that ship, in the order in which they are tried. They are written
/// as they are said: lower-case words with one space between each.
pub open spec fn built_in() -> Seq<(Seq<char>, Asked)> {
    seq![
        ("previous verse"@, Asked::PreviousVerse),
        ("verse back"@, Asked::PreviousVerse),
        ("go back"@, Asked::PreviousVerse),
        ("next verse"@, Asked::NextVerse),
        ("next one"@, Asked::NextVerse),
        ("clear the screen"@, Asked::Clear),
        ("clear the display"@, Asked::Clear),
        ("blank the screen"@, Asked::Clear),
        ("clear screen"@, Asked::Clear),
    ]
}

/// Folds a text to lower-case words with everything else dropped.
pub fn words(text: &str) -> (r: Vec<String>)
    ensures
        texts(r@) == spoken(text@),
{
    let tokens: Vec<Vec<char>> = words_of(chars_of(text).as_slice());
    let ghost all = chars_list(tokens@);
    let mut out: Vec<String> = Vec::new();
    let mut i: usize = 0;
    while i < tokens.len()
        invariant
            i <= tokens.len(),
            all == chars_list(tokens@),
            texts(out@) == folded_all(all.take(i as int)),
        decreases tokens.len() - i,
    {
        let word: Vec<char> = fold(tokens[i].as_slice());
        if word.len() > 0 {
            push_text(&mut out, text_of(word.as_slice()));
        }
        i += 1;
        proof {
            lemma_prefix_step(all, i - 1);
        }
    }
    assert(all.take(i as int) =~= all);
    out
}

fn fold(token: &[char]) -> (r: Vec<char>)
    ensures
        r@ == folded(token@),
{
    let mut out: Vec<char> = Vec::new();
    let mut i: usize = 0;
    while i < token.len()
        invariant
            i <= token.len(),
            out@ == folded(token@.take(i as int)),
        decreases token.len() - i,
    {
        if is_alphanumeric(token[i]) {
            let lower: Vec<char> = to_lowercase_char(token[i]);
            push_all(&mut out, lower.as_slice());
        }
        i += 1;
        proof {
            lemma_prefix_step(token@, i - 1);
        }
    }
    assert(token@.take(i as int) =~= token@);
    out
}

fn is_ignorable(word: &str) -> (r: bool)
    ensures
        r == ignorable(word@),
{
    same_text(word, "a") || same_text(word, "an") || same_text(word, "the") || same_text(
        word,
        "please",
    ) || same_text(word, "ok") || same_text(word, "okay") || same_text(word, "now") || same_text(
        word,
        "just",
    ) || same_text(word, "to") || same_text(word, "me") || same_text(word, "us") || same_text(
        word,
        "give",
    ) || same_text(word, "switch") || same_text(word, "read") || same_text(word, "from")
        || same_text(word, "let") || same_text(word, "lets") || same_text(word, "put")
        || same_text(word, "up")
}

/// The words that actually ask for something.
pub fn strip(tail: &[String]) -> (r: String)
    ensures
        r@ == stripped(texts(tail@)),
{
    let mut kept: Vec<String> = Vec::new();
    let ghost all = texts(tail@);
    let ghost wanted = |w: Seq<char>| !ignorable(w);
    let mut i: usize = 0;
    proof {
        reveal(Seq::filter);
    }
    assert(texts(kept@) =~= all.take(0).filter(wanted));
    while i < tail.len()
        invariant
            i <= tail.len(),
            all == texts(tail@),
            wanted == (|w: Seq<char>| !ignorable(w)),
            texts(kept@) == all.take(i as int).filter(wanted),
        decreases tail.len() - i,
    {
        proof {
            lemma_prefix_step(all, i as int);
            reveal(Seq::filter);
        }
        if !is_ignorable(tail[i].as_str()) {
            push_text(&mut kept, tail[i].clone());
        }
        i += 1;
    }
    assert(all.take(i as int) =~= all);
    join_texts(kept.as_slice(), " ")
}

// ------------------------------------------------------------------- names

/// Whether one name is longer than another.
pub open spec fn longer() -> spec_fn((Seq<char>, Seq<char>), (Seq<char>, Seq<char>)) -> bool {
    |a: (Seq<char>, Seq<char>), b: (Seq<char>, Seq<char>)| byte_len(a.0) > byte_len(b.0)
}

/// Names longest first; those of one length keep their order.
pub open spec fn longest_first(list: Seq<(Seq<char>, Seq<char>)>) -> Seq<(Seq<char>, Seq<char>)> {
    sorted(list, longer())
}

/// A list without the entries named like the entry kept before them.
pub open spec fn without_repeats(list: Seq<(Seq<char>, Seq<char>)>) -> Seq<(Seq<char>, Seq<char>)>
    decreases list.len(),
{
    if list.len() == 0 {
        Seq::empty()
    } else {
        let before = without_repeats(list.drop_last());
        if before.len() > 0 && before.last().0 == list.last().0 {
            before
        } else {
            before.push(list.last())
        }
    }
}

/// Every name of one translation: its code, its full name, and its name without
/// the trailing "version".
pub open spec fn names_of(id: Seq<char>, name: Seq<char>) -> Seq<(Seq<char>, Seq<char>)> {
    let said = spoken(name);
    let both = seq![(spoken_text(id), id), (spoken_text(name), id)];
    if said.len() > 1 && said.last() == "version"@ {
        both.push((joined(said.drop_last(), " "@), id))
    } else {
        both
    }
}

pub open spec fn all_names(
    translations: Seq<(Seq<char>, Seq<char>)>,
) -> Seq<(Seq<char>, Seq<char>)>
    decreases translations.len(),
{
    if translations.len() == 0 {
        Seq::empty()
    } else {
        let (id, name) = translations.last();
        all_names(translations.drop_last()) + names_of(id, name)
    }
}

/// The readings of a name that begins with a digit, added to those before.
pub open spec fn with_ordinals(
    forms: Seq<Seq<char>>,
    name: Seq<char>,
    digit: Seq<char>,
    ordinal: Seq<char>,
    cardinal: Seq<char>,
) -> Seq<Seq<char>> {
    if starts_with(name, digit) {
        let rest = name.skip(digit.len() as int);
        forms.push(ordinal + rest).push(cardinal + rest)
    } else {
        forms
    }
}

/// The ways a book's name is actually said: "1 John" is "first john" as often
/// as "one john". Everything else is itself.
pub open spec fn forms_of(book: Seq<char>) -> Seq<Seq<char>> {
    let name = spoken_text(book);
    let ones = with_ordinals(seq![name], name, "1 "@, "first "@, "one "@);
    let twos = with_ordinals(ones, name, "2 "@, "second "@, "two "@);
    with_ordinals(twos, name, "3 "@, "third "@, "three "@)
}

pub open spec fn all_forms(books: Seq<Seq<char>>) -> Seq<(Seq<char>, Seq<char>)>
    decreases books.len(),
{
    if books.len() == 0 {
        Seq::empty()
    } else {
        all_forms(books.drop_last()) + forms_of(books.last()).map_values(
            |form: Seq<char>| (form, books.last()),
        )
    }
}

/// Names in the order in which they are looked for.
pub open spec fn in_search_order(list: Seq<(Seq<char>, Seq<char>)>) -> Seq<
    (Seq<char>, Seq<char>),
> {
    without_repeats(longest_first(list))
}

/// A longer name stands before every shorter one.
pub open spec fn sorted_by_length(list: Seq<(Seq<char>, Seq<char>)>) -> bool {
    forall|i: int, j: int|
        0 <= i <= j < list.len() ==> byte_len((#[trigger] list[i]).0) >= byte_len(
            (#[trigger] list[j]).0,
        )
}

/// Putting names longest first reorders them and loses none.
pub proof fn lemma_longest_first(list: Seq<(Seq<char>, Seq<char>)>)
    ensures
        sorted_by_length(longest_first(list)),
        longest_first(list).len() == list.len(),
        longest_first(list).to_multiset() == list.to_multiset(),
{
    lemma_sorted(list, longer());
    let ordered = longest_first(list);
    assert forall|i: int, j: int| 0 <= i <= j < ordered.len() implies byte_len(
        (#[trigger] ordered[i]).0,
    ) >= byte_len((#[trigger] ordered[j]).0) by {
        if i < j {
            assert(!longer()(ordered[j], ordered[i]));
        }
    }
}

proof fn lemma_without_repeats(list: Seq<(Seq<char>, Seq<char>)>)
    requires
        sorted_by_length(list),
    ensures
        sorted_by_length(without_repeats(list)),
        list.len() > 0 ==> {
            &&& without_repeats(list).len() > 0
            &&& without_repeats(list).last().0 == list.last().0
        },
    decreases list.len(),
{
    if list.len() > 0 {
        let front = list.drop_last();
        assert(sorted_by_length(front));
        lemma_without_repeats(front);
        let before = without_repeats(front);
        if front.len() > 0 {
            assert(byte_len(front.last().0) >= byte_len(list.last().0));
        }
        assert forall|i: int, j: int|
            0 <= i <= j < without_repeats(list).len() implies byte_len(
            (#[trigger] without_repeats(list)[i]).0,
        ) >= byte_len((#[trigger] without_repeats(list)[j]).0) by {
            if j == before.len() && before.len() > 0 && i < j {
                assert(byte_len(before[i].0) >= byte_len(before.last().0));
            }
        }
    }
}

/// The longer name wins: whichever of two names is looked for first is at least
/// as long, so "new king james" is never read as "king james", nor "1 john" as
/// "john".
pub proof fn law_longer_names_are_looked_for_first(list: Seq<(Seq<char>, Seq<char>)>)
    ensures
        sorted_by_length(in_search_order(list)),
{
    lemma_longest_first(list);
    lemma_without_repeats(longest_first(list));
}

// The `pairs` of a longer list.
proof fn lemma_pairs_push(list: Seq<(String, String)>, p: (String, String))
    ensures
        pairs(list.push(p)) == pairs(list).push((p.0@, p.1@)),
{
    assert(pairs(list.push(p)) =~= pairs(list).push((p.0@, p.1@)));
}

fn push_pair(out: &mut Vec<(String, String)>, name: String, id: String)
    ensures
        final(out)@ == old(out)@.push((name, id)),
        pairs(final(out)@) == pairs(old(out)@).push((name@, id@)),
{
    proof {
        lemma_pairs_push(out@, (name, id));
    }
    out.push((name, id));
}

fn order(list: Vec<(String, String)>) -> (r: Vec<(String, String)>)
    ensures
        pairs(r@) == in_search_order(pairs(list@)),
{
    let ghost all = pairs(list@);
    let is_longer = |a: &(String, String), b: &(String, String)| -> (r: bool)
        ensures
            r == (byte_len(a.0@) > byte_len(b.0@)),
        { count_bytes(a.0.as_str()) > count_bytes(b.0.as_str()) };
    assert(views(list@) =~= all);
    let sorted: Vec<(String, String)> = sort(list, is_longer, Ghost(longer()));
    assert(views(sorted@) =~= pairs(sorted@));
    let ghost ordered = longest_first(all);
    let mut out: Vec<(String, String)> = Vec::new();
    let mut k: usize = 0;
    assert(pairs(out@) =~= without_repeats(ordered.take(0)));
    while k < sorted.len()
        invariant
            k <= sorted.len(),
            ordered == pairs(sorted@),
            pairs(out@) == without_repeats(ordered.take(k as int)),
        decreases sorted.len() - k,
    {
        let repeat: bool = out.len() > 0 && same_text(
            out[out.len() - 1].0.as_str(),
            sorted[k].0.as_str(),
        );
        assert(pairs(out@).len() == out@.len());
        if !repeat {
            push_pair(&mut out, sorted[k].0.clone(), sorted[k].1.clone());
        }
        k += 1;
        proof {
            lemma_prefix_step(ordered, k - 1);
        }
    }
    assert(ordered.take(k as int) =~= ordered);
    out
}

fn ordinals(
    forms: &mut Vec<String>,
    name: &String,
    digit: &str,
    ordinal: &str,
    cardinal: &str,
)
    ensures
        texts(final(forms)@) == with_ordinals(
            texts(old(forms)@),
            name@,
            digit@,
            ordinal@,
            cardinal@,
        ),
{
    if text_starts_with(name.as_str(), digit) {
        let chars: Vec<char> = chars_of(name.as_str());
        let skipped: usize = chars_of(digit).len();
        let rest: String = text_of(
            copy_range(chars.as_slice(), skipped, chars.len()).as_slice(),
        );
        assert(rest@ =~= name@.skip(digit@.len() as int));
        let mut first: String = ordinal.to_owned();
        first.push_str(rest.as_str());
        push_text(forms, first);
        let mut second: String = cardinal.to_owned();
        second.push_str(rest.as_str());
        push_text(forms, second);
    }
}

/// The ways a book's name is actually said.
pub fn spoken_forms(book: &str) -> (forms: Vec<String>)
    ensures
        texts(forms@) == forms_of(book@),
{
    let name: String = join_texts(words(book).as_slice(), " ");
    let mut forms: Vec<String> = Vec::new();
    push_text(&mut forms, name.clone());
    assert(texts(forms@) =~= seq![name@]);
    ordinals(&mut forms, &name, "1 ", "first ", "one ");
    ordinals(&mut forms, &name, "2 ", "second ", "two ");
    ordinals(&mut forms, &name, "3 ", "third ", "three ");
    forms
}

fn name_translations(translations: &[(String, String)]) -> (named: Vec<(String, String)>)
    ensures
        pairs(named@) == all_names(pairs(translations@)),
{
    let ghost all = pairs(translations@);
    let mut named: Vec<(String, String)> = Vec::new();
    let mut i: usize = 0;
    assert(pairs(named@) =~= all_names(all.take(0)));
    while i < translations.len()
        invariant
            i <= translations.len(),
            all == pairs(translations@),
            pairs(named@) == all_names(all.take(i as int)),
        decreases translations.len() - i,
    {
        let id: &String = &translations[i].0;
        let name: &String = &translations[i].1;
        let ghost before = pairs(named@);
        push_pair(&mut named, join_texts(words(id.as_str()).as_slice(), " "), id.clone());
        let mut short: Vec<String> = words(name.as_str());
        let ghost said = texts(short@);
        push_pair(&mut named, join_texts(short.as_slice(), " "), id.clone());
        assert(said.len() == short@.len());
        if short.len() > 1 && same_text(short[short.len() - 1].as_str(), "version") {
            short.pop();
            assert(texts(short@) =~= said.drop_last());
            push_pair(&mut named, join_texts(short.as_slice(), " "), id.clone());
        }
        i += 1;
        proof {
            lemma_prefix_step(all, i - 1);
            assert(all[i - 1] == (id@, name@));
            assert(pairs(named@) =~= before + names_of(id@, name@));
        }
    }
    assert(all.take(i as int) =~= all);
    named
}

fn name_books(books: &[String]) -> (spoken: Vec<(String, String)>)
    ensures
        pairs(spoken@) == all_forms(texts(books@)),
{
    let ghost all = texts(books@);
    let mut out: Vec<(String, String)> = Vec::new();
    let mut i: usize = 0;
    assert(pairs(out@) =~= all_forms(all.take(0)));
    while i < books.len()
        invariant
            i <= books.len(),
            all == texts(books@),
            pairs(out@) == all_forms(all.take(i as int)),
        decreases books.len() - i,
    {
        let book: &String = &books[i];
        let forms: Vec<String> = spoken_forms(book.as_str());
        let ghost before = pairs(out@);
        let ghost new = texts(forms@).map_values(|form: Seq<char>| (form, book@));
        let mut k: usize = 0;
        assert(pairs(out@) =~= before + new.take(0));
        while k < forms.len()
            invariant
                k <= forms.len(),
                new == texts(forms@).map_values(|form: Seq<char>| (form, book@)),
                pairs(out@) == before + new.take(k as int),
            decreases forms.len() - k,
        {
            push_pair(&mut out, forms[k].clone(), book.clone());
            k += 1;
            assert(new.take(k as int) =~= new.take(k - 1).push(new[k - 1]));
            assert(pairs(out@) =~= before + new.take(k as int));
        }
        assert(new.take(k as int) =~= new);
        i += 1;
        proof {
            lemma_prefix_step(all, i - 1);
            assert(all.take(i as int).last() == book@);
        }
    }
    assert(all.take(i as int) =~= all);
    out
}

// ------------------------------------------------------------------ passages

/// The number whose words begin at `at`, and where its words end.
pub open spec fn spoken_number(words: Seq<Seq<char>>, at: int) -> Option<(i64, int)> {
    if at < 0 || at > words.len() {
        None
    } else {
        match first_number(words.skip(at)) {
            Some((value, used)) => Some((value, at + used)),
            None => None,
        }
    }
}

/// The first book, from the `i`th on, whose name the words begin with: its
/// spelling, and how many words its name took.
pub open spec fn book_named(
    books: Seq<(Seq<char>, Seq<char>)>,
    words: Seq<Seq<char>>,
    i: int,
) -> Option<(Seq<char>, int)>
    decreases books.len() - i,
{
    if i < 0 || i >= books.len() {
        None
    } else {
        let name = split_on(books[i].0, ' ');
        if name.len() <= words.len() && words.take(name.len() as int) == name {
            Some((books[i].1, name.len() as int))
        } else {
            book_named(books, words, i + 1)
        }
    }
}

/// A relative move of a chapter, when the words begin with one.
pub open spec fn chapter_step(words: Seq<Seq<char>>) -> i64 {
    if !says(words, 1, "chapter"@) {
        0
    } else if words[0] == "next"@ {
        1
    } else if words[0] == "previous"@ || words[0] == "last"@ {
        (-1) as i64
    } else {
        0
    }
}

/// A number that may be left out: its value when it is there, and where the
/// reading goes on.
pub open spec fn required(number: Option<(i64, int)>) -> Option<(Option<i64>, int)> {
    match number {
        Some((value, next)) => Some((Some(value), next)),
        None => None,
    }
}

/// The chapter from `at` on. "chapter" is optional once a book has been named,
/// and a chapter that was announced has to follow.
pub open spec fn chapter_at(words: Seq<Seq<char>>, at: int, with_book: bool) -> Option<
    (Option<i64>, int),
> {
    if says(words, at, "chapter"@) {
        required(spoken_number(words, at + 1))
    } else if with_book {
        required(spoken_number(words, at))
    } else {
        Some((None, at))
    }
}

/// The verse from `at` on, spoken with or, once a book has been named, without
/// the word.
pub open spec fn verse_at(words: Seq<Seq<char>>, at: int, with_book: bool) -> Option<
    (Option<i64>, int),
> {
    if says(words, at, "verse"@) {
        required(spoken_number(words, at + 1))
    } else {
        match spoken_number(words, at) {
            Some((value, next)) if with_book && at < words.len() => Some((Some(value), next)),
            _ => Some((None, at)),
        }
    }
}

/// The place a run of words asks for, and how many words asked for it: the
/// book, then the chapter, then the verse.
pub open spec fn passage(books: Seq<(Seq<char>, Seq<char>)>, words: Seq<Seq<char>>) -> Option<
    (Asked, int),
> {
    let named = book_named(books, words, 0);
    let (book, start): (Option<Seq<char>>, int) = match named {
        Some((spelling, used)) => (Some(spelling), used),
        None => (None, 0),
    };
    let by = if book is None {
        chapter_step(words)
    } else {
        0
    };
    let chapter = if by != 0 {
        Some((None, 2))
    } else {
        chapter_at(words, start, book is Some)
    };
    match chapter {
        None => None,
        Some((chapter, after)) => match verse_at(words, after, book is Some) {
            None => None,
            Some((verse, end)) => if chapter is None && verse is None && by == 0 {
                None
            } else {
                Some((Asked::Passage { book, chapter, by, verse }, end))
            },
        },
    }
}

fn same_words(a: &[String], from: usize, b: &[String]) -> (r: bool)
    requires
        from <= a.len(),
    ensures
        r == (from + b.len() <= a.len() && texts(a@).subrange(from as int, from + b@.len())
            == texts(b@)),
{
    if b.len() > a.len() - from {
        return false;
    }
    let mut k: usize = 0;
    while k < b.len()
        invariant
            k <= b.len(),
            from + b.len() <= a.len(),
            forall|j: int| 0 <= j < k ==> a@[from + j]@ == (#[trigger] b@[j])@,
        decreases b.len() - k,
    {
        if !same_text(a[from + k].as_str(), b[k].as_str()) {
            assert(texts(a@).subrange(from as int, from + b@.len())[k as int] != texts(
                b@,
            )[k as int]);
            return false;
        }
        k += 1;
    }
    assert(texts(a@).subrange(from as int, from + b@.len()) =~= texts(b@));
    true
}

fn copy_opt(text: &Option<String>) -> (r: Option<String>)
    ensures
        opt_text(r) == opt_text(*text),
{
    match text {
        Some(text) => Some(text.clone()),
        None => None,
    }
}

impl Clone for Command {
    fn clone(&self) -> (r: Command)
        ensures
            r@ == self@,
    {
        match self {
            Command::NextVerse => Command::NextVerse,
            Command::PreviousVerse => Command::PreviousVerse,
            Command::Clear => Command::Clear,
            Command::Switch { translation } => Command::Switch { translation: translation.clone() },
            Command::Passage { book, chapter, by, verse } => Command::Passage {
                book: copy_opt(book),
                chapter: *chapter,
                by: *by,
                verse: *verse,
            },
        }
    }
}

impl Clone for Phrase {
    fn clone(&self) -> (r: Phrase)
        ensures
            r@ == self@,
    {
        Phrase { said: self.said.clone(), does: self.does.clone() }
    }
}

impl Heard {
    fn copy(&self) -> (r: Heard)
        ensures
            r.key() == self.key(),
    {
        match self {
            Heard::Phrase(text) => Heard::Phrase(text.clone()),
            Heard::Place(command) => Heard::Place(command.clone()),
        }
    }
}

impl Clone for Listener {
    fn clone(&self) -> (r: Listener)
        ensures
            r@ == self@,
    {
        Listener {
            wake: self.wake.clone(),
            named: copy_pairs(self.named.as_slice()),
            books: copy_pairs(self.books.as_slice()),
            custom: copy_phrases(self.custom.as_slice()),
            last: match &self.last {
                Some(heard) => Some(heard.copy()),
                None => None,
            },
        }
    }
}

fn copy_pairs(list: &[(String, String)]) -> (r: Vec<(String, String)>)
    ensures
        pairs(r@) == pairs(list@),
{
    let ghost all = pairs(list@);
    let mut out: Vec<(String, String)> = Vec::new();
    let mut i: usize = 0;
    assert(pairs(out@) =~= all.take(0));
    while i < list.len()
        invariant
            i <= list.len(),
            all == pairs(list@),
            pairs(out@) == all.take(i as int),
        decreases list.len() - i,
    {
        push_pair(&mut out, list[i].0.clone(), list[i].1.clone());
        i += 1;
        assert(pairs(out@) =~= all.take(i as int));
    }
    assert(all.take(i as int) =~= all);
    out
}

fn copy_phrases(list: &[Phrase]) -> (r: Vec<Phrase>)
    ensures
        phrases(r@) == phrases(list@),
{
    let ghost all = phrases(list@);
    let mut out: Vec<Phrase> = Vec::new();
    let mut i: usize = 0;
    assert(phrases(out@) =~= all.take(0));
    while i < list.len()
        invariant
            i <= list.len(),
            all == phrases(list@),
            phrases(out@) == all.take(i as int),
        decreases list.len() - i,
    {
        let phrase: Phrase = list[i].clone();
        let ghost before = phrases(out@);
        out.push(phrase);
        i += 1;
        assert(phrases(out@) =~= before.push(phrase@));
        assert(all.take(i as int) =~= all.take(i - 1).push(all[i - 1]));
    }
    assert(all.take(i as int) =~= all);
    out
}

fn same_opt(a: &Option<String>, b: &Option<String>) -> (r: bool)
    ensures
        r == (opt_text(*a) == opt_text(*b)),
{
    match (a, b) {
        (Some(a), Some(b)) => same_text(a.as_str(), b.as_str()),
        (None, None) => true,
        _ => false,
    }
}

fn same_command(a: &Command, b: &Command) -> (r: bool)
    ensures
        r == (a@ == b@),
{
    match (a, b) {
        (Command::NextVerse, Command::NextVerse) => true,
        (Command::PreviousVerse, Command::PreviousVerse) => true,
        (Command::Clear, Command::Clear) => true,
        (Command::Switch { translation: a }, Command::Switch { translation: b }) => same_text(
            a.as_str(),
            b.as_str(),
        ),
        (
            Command::Passage { book: b1, chapter: c1, by: m1, verse: v1 },
            Command::Passage { book: b2, chapter: c2, by: m2, verse: v2 },
        ) => same_opt(b1, b2) && *c1 == *c2 && *m1 == *m2 && *v1 == *v2,
        _ => false,
    }
}

impl Heard {
    fn same(&self, other: &Heard) -> (r: bool)
        ensures
            r == (self.key() == other.key()),
    {
        match (self, other) {
            (Heard::Phrase(a), Heard::Phrase(b)) => same_text(a.as_str(), b.as_str()),
            (Heard::Place(a), Heard::Place(b)) => same_command(a, b),
            _ => false,
        }
    }
}

/// One number starting at `at`, and where its words ended.
fn number(words: &[String], at: usize) -> (r: Option<(i64, usize)>)
    ensures
        match spoken_number(texts(words@), at as int) {
            Some((value, next)) => r matches Some((v, n)) && v == value && n == next && at < n
                <= words.len(),
            None => r is None,
        },
{
    if at > words.len() {
        return None;
    }
    let rest: &[String] = vstd::slice::slice_subrange(words, at, words.len());
    assert(texts(rest@) =~= texts(words@).skip(at as int));
    match read_first(rest) {
        Some((value, used)) => Some((value, at + used)),
        None => None,
    }
}

/// Everywhere in the scripture somebody might ask to be taken, from the books
/// by their spoken names, and how many words the request used.
pub fn match_passage(books: &[(String, String)], words: &[String]) -> (r: Option<
    (Command, usize),
>)
    ensures
        match passage(pairs(books@), texts(words@)) {
            Some((asked, end)) => r matches Some((command, used)) && command@ == asked && used
                == end,
            None => r is None,
        },
{
    let ghost said = texts(words@);
    let ghost known = pairs(books@);
    let mut at: usize = 0;
    let mut book: Option<String> = None;
    let mut i: usize = 0;
    while i < books.len() && book.is_none()
        invariant
            i <= books.len(),
            said == texts(words@),
            known == pairs(books@),
            at <= words.len(),
            match book {
                Some(spelling) => book_named(known, said, 0) == Some((spelling@, at as int)),
                None => at == 0 && book_named(known, said, 0) == book_named(known, said, i as int),
            },
        decreases books.len() - i, (if book is None {
            1int
        } else {
            0int
        }),
    {
        let name: Vec<String> = split_text(books[i].0.as_str(), ' ');
        assert(texts(name@).len() == name@.len());
        if same_words(words, 0, name.as_slice()) {
            assert(said.subrange(0, name@.len() as int) =~= said.take(name@.len() as int));
            at = name.len();
            book = Some(books[i].1.clone());
        } else {
            if name.len() <= words.len() {
                assert(said.subrange(0, name@.len() as int) =~= said.take(name@.len() as int));
            }
            i += 1;
        }
    }
    let with_book: bool = book.is_some();
    let mut by: i64 = 0;
    if !with_book && word_is(words, 1, "chapter") {
        if same_text(words[0].as_str(), "next") {
            by = 1;
        } else if same_text(words[0].as_str(), "previous") || same_text(words[0].as_str(), "last") {
            by = -1;
        }
    }
    let mut chapter: Option<i64> = None;
    if by != 0 {
        at = 2;
    } else if word_is(words, at, "chapter") {
        match number(words, at + 1) {
            Some((value, used)) => {
                chapter = Some(value);
                at = used;
            },
            None => {
                return None;
            },
        }
    } else if with_book {
        match number(words, at) {
            Some((value, used)) => {
                chapter = Some(value);
                at = used;
            },
            None => {
                return None;
            },
        }
    }
    let mut verse: Option<i64> = None;
    if word_is(words, at, "verse") {
        match number(words, at + 1) {
            Some((value, used)) => {
                verse = Some(value);
                at = used;
            },
            None => {
                return None;
            },
        }
    } else if with_book && at < words.len() {
        if let Some((value, used)) = number(words, at) {
            verse = Some(value);
            at = used;
        }
    }
    if chapter.is_none() && verse.is_none() && by == 0 {
        return None;
    }
    Some((Command::Passage { book, chapter, by, verse }, at))
}

// ------------------------------------------------------------------ matching

/// Whether a text holds a name as whole words: somewhere, with a space or
/// nothing on either side.
pub open spec fn holds_words(hay: Seq<char>, needle: Seq<char>) -> bool {
    exists|at: int| #[trigger] stands_at(hay, needle, at)
}

pub open spec fn stands_at(hay: Seq<char>, needle: Seq<char>, at: int) -> bool {
    &&& occurs_at(hay, needle, at)
    &&& at == 0 || hay[at - 1] == ' '
    &&& at + needle.len() == hay.len() || hay[at + needle.len()] == ' '
}

/// The first of the church's own phrases, from the `i`th on, that the words
/// begin with.
pub open spec fn own_phrase_opening(
    custom: Seq<(Seq<char>, Asked)>,
    said: Seq<char>,
    i: int,
) -> Option<(Asked, Key)>
    decreases custom.len() - i,
{
    if i < 0 || i >= custom.len() {
        None
    } else {
        let want = spoken_text(custom[i].0);
        if want.len() > 0 && starts_with(said, want) {
            Some((custom[i].1, Key::Phrase(want)))
        } else {
            own_phrase_opening(custom, said, i + 1)
        }
    }
}

/// The first of the church's own phrases, from the `i`th on, that is all that
/// was said.
pub open spec fn own_phrase_alone(
    custom: Seq<(Seq<char>, Asked)>,
    said: Seq<char>,
    i: int,
) -> Option<(Asked, Key)>
    decreases custom.len() - i,
{
    if i < 0 || i >= custom.len() {
        None
    } else {
        let want = stripped(spoken(custom[i].0));
        if want.len() > 0 && said == want {
            Some((custom[i].1, Key::Phrase(want)))
        } else {
            own_phrase_alone(custom, said, i + 1)
        }
    }
}

/// The first phrase that ships, from the `i`th on, that the words begin with.
pub open spec fn shipped_opening(said: Seq<char>, i: int) -> Option<(Asked, Key)>
    decreases built_in().len() - i,
{
    if i < 0 || i >= built_in().len() {
        None
    } else if starts_with(said, built_in()[i].0) {
        Some((built_in()[i].1, Key::Phrase(built_in()[i].0)))
    } else {
        shipped_opening(said, i + 1)
    }
}

/// The first phrase that ships, from the `i`th on, that is all that was said.
pub open spec fn shipped_alone(said: Seq<char>, i: int) -> Option<(Asked, Key)>
    decreases built_in().len() - i,
{
    if i < 0 || i >= built_in().len() {
        None
    } else if said == stripped(split_whitespace(built_in()[i].0)) {
        Some((built_in()[i].1, Key::Phrase(built_in()[i].0)))
    } else {
        shipped_alone(said, i + 1)
    }
}

/// The first translation, from the `i`th name on, whose name the words hold. A
/// name of fewer than three bytes is never looked for.
pub open spec fn translation_within(
    named: Seq<(Seq<char>, Seq<char>)>,
    said: Seq<char>,
    i: int,
) -> Option<(Asked, Key)>
    decreases named.len() - i,
{
    if i < 0 || i >= named.len() {
        None
    } else if byte_len(named[i].0) >= 3 && holds_words(said, named[i].0) {
        Some((Asked::Switch { translation: named[i].1 }, Key::Phrase(named[i].0)))
    } else {
        translation_within(named, said, i + 1)
    }
}

/// The first translation, from the `i`th name on, whose name is all that was
/// said.
pub open spec fn translation_alone(
    named: Seq<(Seq<char>, Seq<char>)>,
    said: Seq<char>,
    i: int,
) -> Option<(Asked, Key)>
    decreases named.len() - i,
{
    if i < 0 || i >= named.len() {
        None
    } else if byte_len(named[i].0) >= 3 && said == stripped(spoken(named[i].0)) {
        Some((Asked::Switch { translation: named[i].1 }, Key::Phrase(named[i].0)))
    } else {
        translation_alone(named, said, i + 1)
    }
}

/// Either answer, the first one first.
pub open spec fn or_else(a: Option<(Asked, Key)>, b: Option<(Asked, Key)>) -> Option<(Asked, Key)> {
    if a is Some {
        a
    } else {
        b
    }
}

pub open spec fn place_opening(h: Hearing, said: Seq<char>) -> Option<(Asked, Key)> {
    match passage(h.books, split_on(said, ' ')) {
        Some((asked, end)) => Some((asked, Key::Place(asked))),
        None => None,
    }
}

pub open spec fn place_alone(h: Hearing, said: Seq<char>) -> Option<(Asked, Key)> {
    let words = split_on(said, ' ');
    match passage(h.books, words) {
        Some((asked, end)) if end == words.len() => Some((asked, Key::Place(asked))),
        _ => None,
    }
}

/// What words addressed to the machine ask for: a church's own phrase first,
/// then one that ships, then a place, then a translation.
pub open spec fn addressed(h: Hearing, said: Seq<char>) -> Option<(Asked, Key)> {
    or_else(
        own_phrase_opening(h.custom, said, 0),
        or_else(
            shipped_opening(said, 0),
            or_else(place_opening(h, said), translation_within(h.named, said, 0)),
        ),
    )
}

/// What words ask for when they have to be the whole instruction.
pub open spec fn whole(h: Hearing, said: Seq<char>) -> Option<(Asked, Key)> {
    or_else(
        own_phrase_alone(h.custom, said, 0),
        or_else(
            shipped_alone(said, 0),
            or_else(place_alone(h, said), translation_alone(h.named, said, 0)),
        ),
    )
}

pub open spec fn window_at(words: Seq<Seq<char>>, wake: Seq<Seq<char>>, at: int) -> bool {
    &&& 0 <= at
    &&& at + wake.len() <= words.len()
    &&& words.subrange(at, at + wake.len()) == wake
}

/// Where the wake word was said last, at `at` or before.
pub open spec fn last_wake(words: Seq<Seq<char>>, wake: Seq<Seq<char>>, at: int) -> Option<int>
    decreases at + 1,
{
    if at < 0 {
        None
    } else if window_at(words, wake, at) {
        Some(at)
    } else {
        last_wake(words, wake, at - 1)
    }
}

/// An instruction following the last wake word, if one is set and was said.
pub open spec fn after_wake(h: Hearing, tail: Seq<Seq<char>>) -> Option<(Asked, Key)> {
    let wake = split_on(h.wake, ' ');
    match last_wake(tail, wake, tail.len() - wake.len()) {
        Some(at) if h.wake.len() > 0 => {
            let rest = joined(tail.skip(at + wake.len()), " "@);
            if rest.len() == 0 {
                None
            } else {
                addressed(h, rest)
            }
        },
        _ => None,
    }
}

/// An instruction that is the whole of what was said.
pub open spec fn standing_alone(h: Hearing, tail: Seq<Seq<char>>) -> Option<(Asked, Key)> {
    let bare = stripped(tail);
    if bare.len() == 0 {
        None
    } else {
        whole(h, bare)
    }
}

/// The last words of a transcript.
pub open spec fn tail_of(words: Seq<Seq<char>>) -> Seq<Seq<char>> {
    if words.len() <= TAIL {
        words
    } else {
        words.skip(words.len() - TAIL)
    }
}

/// What the words of a transcript ask for.
pub open spec fn understood(h: Hearing, words: Seq<Seq<char>>) -> Option<(Asked, Key)> {
    or_else(after_wake(h, tail_of(words)), standing_alone(h, tail_of(words)))
}

pub open spec fn remembering(h: Hearing, last: Option<Key>) -> Hearing {
    Hearing { last, ..h }
}

/// What is done about the words of a transcript, and what is remembered.
///
/// Words that ask for nothing clear the memory. What was already acted on is
/// not acted on again, and is forgotten once its utterance has ended.
pub open spec fn heard(h: Hearing, words: Seq<Seq<char>>, ended: bool) -> (Option<Asked>, Hearing) {
    match understood(h, words) {
        None => (None, remembering(h, None)),
        Some((asked, key)) => if h.last == Some(key) {
            (None, remembering(h, if ended {
                None
            } else {
                h.last
            }))
        } else {
            (Some(asked), remembering(h, if ended {
                None
            } else {
                Some(key)
            }))
        },
    }
}

/// Whether `haystack` contains `needle` as whole words.
pub fn contains_words(haystack: &str, needle: &str) -> (r: bool)
    ensures
        r == holds_words(haystack@, needle@),
{
    let hay: Vec<char> = chars_of(haystack);
    let name: Vec<char> = chars_of(needle);
    if name.len() > hay.len() {
        return false;
    }
    let last: usize = hay.len() - name.len();
    let mut at: usize = 0;
    while at <= last
        invariant
            hay@ == haystack@,
            name@ == needle@,
            last == hay.len() - name.len(),
            at <= last + 1,
            forall|k: int| 0 <= k < at ==> !#[trigger] stands_at(haystack@, needle@, k),
        decreases last + 1 - at,
    {
        if find_at(hay.as_slice(), name.as_slice(), at) && (at == 0 || hay[at - 1]
            == ' ') && (at + name.len() == hay.len() || hay[at + name.len()] == ' ') {
            assert(stands_at(haystack@, needle@, at as int));
            return true;
        }
        assert(!stands_at(haystack@, needle@, at as int));
        if at == last {
            return false;
        }
        at += 1;
    }
    false
}

fn shipped() -> (r: Vec<(&'static str, Command)>)
    ensures
        r.len() == built_in().len(),
        forall|i: int|
            0 <= i < r.len() ==> (#[trigger] r@[i]).0@ == built_in()[i].0 && r@[i].1@
                == built_in()[i].1,
{
    vec![
        ("previous verse", Command::PreviousVerse),
        ("verse back", Command::PreviousVerse),
        ("go back", Command::PreviousVerse),
        ("next verse", Command::NextVerse),
        ("next one", Command::NextVerse),
        ("clear the screen", Command::Clear),
        ("clear the display", Command::Clear),
        ("blank the screen", Command::Clear),
        ("clear screen", Command::Clear),
    ]
}

spec fn answers(r: Option<(Command, Heard)>, wanted: Option<(Asked, Key)>) -> bool {
    match wanted {
        Some((asked, key)) => r matches Some((command, heard)) && command@ == asked && heard.key()
            == key,
        None => r is None,
    }
}

impl Listener {
    /// `translations` is `(id, name)`: "ESV", "English Standard Version".
    pub fn new(
        wake: &str,
        translations: &[(String, String)],
        books: &[String],
        custom: &[Phrase],
    ) -> (listener: Self)
        ensures
            listener@ == (Hearing {
                wake: spoken_text(wake@),
                named: in_search_order(all_names(pairs(translations@))),
                books: in_search_order(all_forms(texts(books@))),
                custom: phrases(custom@),
                last: None,
            }),
    {
        Listener {
            wake: join_texts(words(wake).as_slice(), " "),
            named: order(name_translations(translations)),
            books: order(name_books(books)),
            custom: copy_phrases(custom),
            last: None,
        }
    }

    /// Reads the tail of the transcript for an instruction.
    ///
    /// `ended` says whether this is a completed utterance rather than words the
    /// engine is still revising.
    pub fn hear(&mut self, transcript: &str, ended: bool) -> (r: Option<Command>)
        ensures
            final(self)@ == heard(old(self)@, spoken(transcript@), ended).1,
            match heard(old(self)@, spoken(transcript@), ended).0 {
                Some(asked) => r matches Some(command) && command@ == asked,
                None => r is None,
            },
    {
        let said: Vec<String> = words(transcript);
        self.hear_words(said.as_slice(), ended)
    }

    /// Reads the tail of a list of words for an instruction.
    pub fn hear_words(&mut self, said: &[String], ended: bool) -> (r: Option<Command>)
        ensures
            final(self)@ == heard(old(self)@, texts(said@), ended).1,
            match heard(old(self)@, texts(said@), ended).0 {
                Some(asked) => r matches Some(command) && command@ == asked,
                None => r is None,
            },
    {
        let from: usize = if said.len() <= TAIL {
            0
        } else {
            said.len() - TAIL
        };
        let tail: &[String] = vstd::slice::slice_subrange(said, from, said.len());
        assert(texts(tail@) =~= tail_of(texts(said@)));
        let found: Option<(Command, Heard)> = match self.after_wake(tail) {
            Some(found) => Some(found),
            None => self.standing_alone(tail),
        };
        match found {
            None => {
                self.last = None;
                None
            },
            Some((command, phrase)) => {
                let again: bool = match &self.last {
                    Some(last) => last.same(&phrase),
                    None => false,
                };
                if again {
                    if ended {
                        self.last = None;
                    }
                    None
                } else {
                    self.last = if ended {
                        None
                    } else {
                        Some(phrase)
                    };
                    Some(command)
                }
            },
        }
    }

    /// Forgets what was last obeyed, so the same words said again are heard.
    pub fn forget(&mut self)
        ensures
            final(self)@ == remembering(old(self)@, None),
    {
        self.last = None;
    }

    fn after_wake(&self, tail: &[String]) -> (r: Option<(Command, Heard)>)
        ensures
            answers(r, after_wake(self@, texts(tail@))),
    {
        if self.wake.as_str().is_empty() {
            return None;
        }
        let wake: Vec<String> = split_text(self.wake.as_str(), ' ');
        let ghost said = texts(tail@);
        let ghost name = texts(wake@);
        assert(name.len() == wake@.len());
        if wake.len() > tail.len() {
            assert(last_wake(said, name, said.len() - name.len()) is None);
            return None;
        }
        let mut at: usize = tail.len() - wake.len();
        let mut found: bool = same_words(tail, at, wake.as_slice());
        while !found && at > 0
            invariant
                at + wake.len() <= tail.len(),
                said == texts(tail@),
                name == texts(wake@),
                name.len() == wake.len(),
                found == window_at(said, name, at as int),
                last_wake(said, name, said.len() - name.len()) == last_wake(said, name, at as int),
            decreases at,
        {
            at -= 1;
            found = same_words(tail, at, wake.as_slice());
        }
        if !found {
            assert(last_wake(said, name, -1) is None);
            return None;
        }
        let rest: &[String] = vstd::slice::slice_subrange(tail, at + wake.len(), tail.len());
        assert(texts(rest@) =~= said.skip(at + name.len()));
        let words: String = join_texts(rest, " ");
        if words.as_str().is_empty() {
            return None;
        }
        self.match_phrase(words.as_str())
    }

    fn standing_alone(&self, tail: &[String]) -> (r: Option<(Command, Heard)>)
        ensures
            answers(r, standing_alone(self@, texts(tail@))),
    {
        let bare: String = strip(tail);
        if bare.as_str().is_empty() {
            return None;
        }
        self.match_exactly(bare.as_str())
    }

    fn match_exactly(&self, said: &str) -> (r: Option<(Command, Heard)>)
        ensures
            answers(r, whole(self@, said@)),
    {
        let mut i: usize = 0;
        while i < self.custom.len()
            invariant
                i <= self.custom.len(),
                own_phrase_alone(self@.custom, said@, 0) == own_phrase_alone(
                    self@.custom,
                    said@,
                    i as int,
                ),
            decreases self.custom.len() - i,
        {
            let want: String = strip(words(self.custom[i].said.as_str()).as_slice());
            assert(self@.custom[i as int] == self.custom@[i as int]@);
            if !want.as_str().is_empty() && same_text(said, want.as_str()) {
                return Some((self.custom[i].does.clone(), Heard::Phrase(want)));
            }
            i += 1;
        }
        let built: Vec<(&'static str, Command)> = shipped();
        let mut k: usize = 0;
        while k < built.len()
            invariant
                k <= built.len(),
                own_phrase_alone(self@.custom, said@, 0) is None,
                built.len() == built_in().len(),
                forall|j: int|
                    0 <= j < built.len() ==> (#[trigger] built@[j]).0@ == built_in()[j].0
                        && built@[j].1@ == built_in()[j].1,
                shipped_alone(said@, 0) == shipped_alone(said@, k as int),
            decreases built.len() - k,
        {
            if same_text(said, strip(words_of_text(built[k].0).as_slice()).as_str()) {
                return Some((built[k].1.clone(), Heard::Phrase(built[k].0.to_owned())));
            }
            k += 1;
        }
        let spoken: Vec<String> = split_text(said, ' ');
        assert(texts(spoken@).len() == spoken@.len());
        if let Some((command, consumed)) = match_passage(self.books.as_slice(), spoken.as_slice()) {
            if consumed == spoken.len() {
                let key: Heard = Heard::Place(command.clone());
                return Some((command, key));
            }
        }
        let mut n: usize = 0;
        while n < self.named.len()
            invariant
                n <= self.named.len(),
                own_phrase_alone(self@.custom, said@, 0) is None,
                shipped_alone(said@, 0) is None,
                place_alone(self@, said@) is None,
                translation_alone(self@.named, said@, 0) == translation_alone(
                    self@.named,
                    said@,
                    n as int,
                ),
            decreases self.named.len() - n,
        {
            let name: &String = &self.named[n].0;
            assert(self@.named[n as int] == (name@, self.named@[n as int].1@));
            if count_bytes(name.as_str()) >= 3 && same_text(
                said,
                strip(words(name.as_str()).as_slice()).as_str(),
            ) {
                return Some(
                    (
                        Command::Switch { translation: self.named[n].1.clone() },
                        Heard::Phrase(name.clone()),
                    ),
                );
            }
            n += 1;
        }
        None
    }

    fn match_phrase(&self, said: &str) -> (r: Option<(Command, Heard)>)
        ensures
            answers(r, addressed(self@, said@)),
    {
        let mut i: usize = 0;
        while i < self.custom.len()
            invariant
                i <= self.custom.len(),
                own_phrase_opening(self@.custom, said@, 0) == own_phrase_opening(
                    self@.custom,
                    said@,
                    i as int,
                ),
            decreases self.custom.len() - i,
        {
            let want: String = join_texts(words(self.custom[i].said.as_str()).as_slice(), " ");
            assert(self@.custom[i as int] == self.custom@[i as int]@);
            if !want.as_str().is_empty() && text_starts_with(said, want.as_str()) {
                return Some((self.custom[i].does.clone(), Heard::Phrase(want)));
            }
            i += 1;
        }
        let built: Vec<(&'static str, Command)> = shipped();
        let mut k: usize = 0;
        while k < built.len()
            invariant
                k <= built.len(),
                own_phrase_opening(self@.custom, said@, 0) is None,
                built.len() == built_in().len(),
                forall|j: int|
                    0 <= j < built.len() ==> (#[trigger] built@[j]).0@ == built_in()[j].0
                        && built@[j].1@ == built_in()[j].1,
                shipped_opening(said@, 0) == shipped_opening(said@, k as int),
            decreases built.len() - k,
        {
            if text_starts_with(said, built[k].0) {
                return Some((built[k].1.clone(), Heard::Phrase(built[k].0.to_owned())));
            }
            k += 1;
        }
        let spoken: Vec<String> = split_text(said, ' ');
        if let Some((command, _)) = match_passage(self.books.as_slice(), spoken.as_slice()) {
            let key: Heard = Heard::Place(command.clone());
            return Some((command, key));
        }
        let mut n: usize = 0;
        while n < self.named.len()
            invariant
                n <= self.named.len(),
                own_phrase_opening(self@.custom, said@, 0) is None,
                shipped_opening(said@, 0) is None,
                place_opening(self@, said@) is None,
                translation_within(self@.named, said@, 0) == translation_within(
                    self@.named,
                    said@,
                    n as int,
                ),
            decreases self.named.len() - n,
        {
            let name: &String = &self.named[n].0;
            assert(self@.named[n as int] == (name@, self.named@[n as int].1@));
            if count_bytes(name.as_str()) >= 3 && contains_words(said, name.as_str()) {
                return Some(
                    (
                        Command::Switch { translation: self.named[n].1.clone() },
                        Heard::Phrase(name.clone()),
                    ),
                );
            }
            n += 1;
        }
        None
    }
}

// ---------------------------------------------------------------------- laws

/// One utterance is obeyed once: after an instruction has been acted on, words
/// that ask for the same thing are not acted on again while the utterance is
/// still being revised, however much more has been said.
pub proof fn law_an_utterance_is_obeyed_once(
    h: Hearing,
    first: Seq<Seq<char>>,
    again: Seq<Seq<char>>,
    ended: bool,
)
    requires
        heard(h, first, false).0 is Some,
        understood(h, again) is Some,
        (understood(h, again)->0).1 == (understood(h, first)->0).1,
    ensures
        heard(heard(h, first, false).1, again, ended).0 is None,
{
    let after = heard(h, first, false).1;
    assert(understood(after, again) == understood(h, again));
}

/// The same instruction twice is two instructions: once an utterance has ended,
/// the same words are obeyed again.
pub proof fn law_an_ended_utterance_may_be_repeated(h: Hearing, words: Seq<Seq<char>>, ended: bool)
    requires
        understood(h, words) is Some,
    ensures
        heard(heard(h, words, true).1, words, ended).0 == Some((understood(h, words)->0).0),
{
    let after = heard(h, words, true).1;
    assert(understood(after, words) == understood(h, words));
}

/// Speech that asks for nothing changes nothing but the memory, and lets the
/// same instruction be given again.
pub proof fn law_other_speech_forgets(
    h: Hearing,
    other: Seq<Seq<char>>,
    words: Seq<Seq<char>>,
    ended: bool,
)
    requires
        understood(h, other) is None,
        understood(h, words) is Some,
    ensures
        heard(h, other, ended).0 is None,
        heard(heard(h, other, ended).1, words, ended).0 == Some((understood(h, words)->0).0),
{
    let after = heard(h, other, ended).1;
    assert(understood(after, words) == understood(h, words));
}

/// Only the tail counts: what was said before the last twelve words makes no
/// difference.
pub proof fn law_only_the_tail_counts(
    h: Hearing,
    before: Seq<Seq<char>>,
    tail: Seq<Seq<char>>,
    ended: bool,
)
    requires
        tail.len() == 12,
    ensures
        heard(h, before + tail, ended) == heard(h, tail, ended),
{
    assert(tail_of(before + tail) =~= tail);
}

/// The wake word is a way in and not a toll: with or without one, an
/// instruction that is the whole of what was said is understood.
pub proof fn law_a_wake_word_is_no_toll(h: Hearing, wake: Seq<char>, words: Seq<Seq<char>>)
    requires
        standing_alone(h, tail_of(words)) is Some,
    ensures
        understood(Hearing { wake, ..h }, words) is Some,
        understood(Hearing { wake: Seq::empty(), ..h }, words) == standing_alone(h, tail_of(words)),
{
    assert(standing_alone(Hearing { wake, ..h }, tail_of(words)) == standing_alone(
        h,
        tail_of(words),
    ));
    assert(standing_alone(Hearing { wake: Seq::empty(), ..h }, tail_of(words)) == standing_alone(
        h,
        tail_of(words),
    ));
}

/// Nothing said can put something on the screen unprompted: words that name
/// neither a known phrase, a place nor a translation are never obeyed.
pub proof fn law_nothing_else_is_a_command(h: Hearing, words: Seq<Seq<char>>, ended: bool)
    requires
        after_wake(h, tail_of(words)) is None,
        standing_alone(h, tail_of(words)) is None,
    ensures
        heard(h, words, ended).0 is None,
{
}

/// Another instruction is obeyed at once, though the utterance that brought the
/// first has not ended.
pub proof fn law_another_instruction_is_obeyed(
    h: Hearing,
    first: Seq<Seq<char>>,
    second: Seq<Seq<char>>,
    ended: bool,
)
    requires
        understood(h, first) is Some,
        understood(h, second) is Some,
        (understood(h, first)->0).1 != (understood(h, second)->0).1,
    ensures
        heard(heard(h, first, false).1, second, ended).0 == Some((understood(h, second)->0).0),
{
    let after = heard(h, first, false).1;
    assert(understood(after, second) == understood(h, second));
}

} // verus!
