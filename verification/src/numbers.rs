//! Numbers as people say them out loud.
//!
//! A recogniser writes "twenty eight" or "28" depending on the engine, the
//! phrasing and its mood, so anything reading speech for a chapter or a verse
//! has to accept both. "three sixteen" is two numbers and "twenty eight" is
//! one, and getting that backwards turns John 3:16 into John 316.

use crate::text::{chars_of, is_digit, parse_i64, same_text, signed_value, texts};
use vstd::prelude::*;

verus! {

/// The numbers with a word of their own.
pub open spec fn number_word(token: Seq<char>) -> Option<i64> {
    if token == "one"@ {
        Some(1)
    } else if token == "two"@ {
        Some(2)
    } else if token == "three"@ {
        Some(3)
    } else if token == "four"@ {
        Some(4)
    } else if token == "five"@ {
        Some(5)
    } else if token == "six"@ {
        Some(6)
    } else if token == "seven"@ {
        Some(7)
    } else if token == "eight"@ {
        Some(8)
    } else if token == "nine"@ {
        Some(9)
    } else if token == "ten"@ {
        Some(10)
    } else if token == "eleven"@ {
        Some(11)
    } else if token == "twelve"@ {
        Some(12)
    } else if token == "thirteen"@ {
        Some(13)
    } else if token == "fourteen"@ {
        Some(14)
    } else if token == "fifteen"@ {
        Some(15)
    } else if token == "sixteen"@ {
        Some(16)
    } else if token == "seventeen"@ {
        Some(17)
    } else if token == "eighteen"@ {
        Some(18)
    } else if token == "nineteen"@ {
        Some(19)
    } else if token == "twenty"@ {
        Some(20)
    } else if token == "thirty"@ {
        Some(30)
    } else if token == "forty"@ {
        Some(40)
    } else if token == "fifty"@ {
        Some(50)
    } else if token == "sixty"@ {
        Some(60)
    } else if token == "seventy"@ {
        Some(70)
    } else if token == "eighty"@ {
        Some(80)
    } else if token == "ninety"@ {
        Some(90)
    } else {
        None
    }
}

/// What one word is worth as a number: its digits, or the word for it.
pub open spec fn value_of(token: Seq<char>) -> Option<i64> {
    match signed_value(token) {
        Some(v) => Some(v as i64),
        None => number_word(token),
    }
}

/// A multiple of ten that absorbs a unit said after it.
pub open spec fn is_ten(value: i64) -> bool {
    value == 20 || value == 30 || value == 40 || value == 50 || value == 60 || value == 70 || value
        == 80 || value == 90
}

pub open spec fn says(tokens: Seq<Seq<char>>, at: int, word: Seq<char>) -> bool {
    0 <= at < tokens.len() && tokens[at] == word
}

pub open spec fn value_at(tokens: Seq<Seq<char>>, at: int) -> Option<i64> {
    if 0 <= at < tokens.len() {
        value_of(tokens[at])
    } else {
        None
    }
}

/// The number whose words begin at `at`, and where its words end.
///
/// A ten absorbs a unit below ten, and "hundred" multiplies what came before
/// and takes in a number below a hundred after it, with or without "and". The
/// arithmetic is that of an `i64`, so a number beyond it wraps round.
pub open spec fn number_at(tokens: Seq<Seq<char>>, at: int) -> Option<(i64, int)> {
    match value_at(tokens, at) {
        None => None,
        Some(value) => if says(tokens, at + 1, "hundred"@) {
            let base = value.wrapping_mul(100);
            let after = if says(tokens, at + 2, "and"@) {
                at + 3
            } else {
                at + 2
            };
            match value_at(tokens, after) {
                Some(rest) if rest < 100 => {
                    let sum = base.wrapping_add(rest);
                    match value_at(tokens, after + 1) {
                        Some(unit) if is_ten(rest) && unit < 10 => Some(
                            (sum.wrapping_add(unit), after + 2),
                        ),
                        _ => Some((sum, after + 1)),
                    }
                },
                _ => Some((base, after)),
            }
        } else {
            match value_at(tokens, at + 1) {
                Some(unit) if is_ten(value) && unit < 10 => Some(
                    (value.wrapping_add(unit), at + 2),
                ),
                _ => Some((value, at + 1)),
            }
        },
    }
}

/// The numbers read from `at` on, after those already `found`; three at most.
///
/// "and" between two numbers is skipped, and the first word that is no number
/// ends the reading.
pub open spec fn numbers_from(tokens: Seq<Seq<char>>, at: int, found: Seq<i64>) -> Seq<i64>
    decreases tokens.len() - at,
{
    if at < 0 || at >= tokens.len() {
        found
    } else if says(tokens, at, "and"@) && found.len() > 0 {
        numbers_from(tokens, at + 1, found)
    } else {
        match number_at(tokens, at) {
            None => found,
            Some((value, next)) => if found.len() == 2 {
                found.push(value)
            } else {
                numbers_from(tokens, next, found.push(value))
            },
        }
    }
}

/// The numbers a run of words begins with.
pub open spec fn numbers_in(tokens: Seq<Seq<char>>) -> Seq<i64> {
    numbers_from(tokens, 0, Seq::empty())
}

/// The fewest words, but no fewer than `from`, that read as `value` and nothing
/// else.
pub open spec fn shortest_run(tokens: Seq<Seq<char>>, value: i64, from: int) -> int
    decreases tokens.len() + 1 - from,
{
    if from < 0 || from > tokens.len() || numbers_in(tokens.take(from)) == seq![value] {
        from
    } else {
        shortest_run(tokens, value, from + 1)
    }
}

/// The first number a run of words begins with, and how many words it takes.
pub open spec fn first_number(tokens: Seq<Seq<char>>) -> Option<(i64, int)> {
    if numbers_in(tokens).len() == 0 {
        None
    } else {
        let value = numbers_in(tokens)[0];
        Some((value, shortest_run(tokens, value, 1)))
    }
}

/// What was already found stays at the front of what is found in the end.
pub proof fn lemma_found_is_kept(tokens: Seq<Seq<char>>, at: int, found: Seq<i64>)
    ensures
        found.len() <= numbers_from(tokens, at, found).len(),
        numbers_from(tokens, at, found).take(found.len() as int) == found,
    decreases tokens.len() - at,
{
    if at < 0 || at >= tokens.len() {
        assert(found.take(found.len() as int) =~= found);
    } else if says(tokens, at, "and"@) && found.len() > 0 {
        lemma_found_is_kept(tokens, at + 1, found);
    } else {
        match number_at(tokens, at) {
            None => {
                assert(found.take(found.len() as int) =~= found);
            },
            Some((value, next)) => {
                if found.len() != 2 {
                    lemma_found_is_kept(tokens, next, found.push(value));
                    let all = numbers_from(tokens, at, found);
                    assert(all.take(found.len() as int) =~= all.take((found.len() + 1) as int).take(
                        found.len() as int,
                    ));
                }
                assert(found.push(value).take(found.len() as int) =~= found);
            },
        }
    }
}

/// There is a first number exactly when the first word is one, and the words up
/// to where it ends read as that number and nothing else.
pub proof fn lemma_first_number(tokens: Seq<Seq<char>>)
    ensures
        numbers_in(tokens).len() > 0 <==> number_at(tokens, 0) is Some,
        number_at(tokens, 0) matches Some((value, next)) ==> {
            &&& 1 <= next <= tokens.len()
            &&& numbers_in(tokens)[0] == value
            &&& numbers_in(tokens.take(next)) == seq![value]
        },
{
    match number_at(tokens, 0) {
        None => {},
        Some((value, next)) => {
            let found = Seq::<i64>::empty().push(value);
            lemma_found_is_kept(tokens, next, found);
            assert(numbers_in(tokens) == numbers_from(tokens, next, found));
            assert(numbers_in(tokens)[0] == numbers_in(tokens).take(1)[0]);
            let part = tokens.take(next);
            assert(forall|i: int| 0 <= i < next ==> part[i] == tokens[i]);
            assert(number_at(part, 0) == Some((value, next)));
            assert(numbers_in(part) == numbers_from(part, next, found));
            assert(found =~= seq![value]);
        },
    }
}

/// What one word is worth as a number.
pub fn word_value(token: &str) -> (r: Option<i64>)
    ensures
        r == value_of(token@),
{
    if let Some(number) = parse_i64(chars_of(token).as_slice()) {
        return Some(number);
    }
    if same_text(token, "one") {
        Some(1)
    } else if same_text(token, "two") {
        Some(2)
    } else if same_text(token, "three") {
        Some(3)
    } else if same_text(token, "four") {
        Some(4)
    } else if same_text(token, "five") {
        Some(5)
    } else if same_text(token, "six") {
        Some(6)
    } else if same_text(token, "seven") {
        Some(7)
    } else if same_text(token, "eight") {
        Some(8)
    } else if same_text(token, "nine") {
        Some(9)
    } else if same_text(token, "ten") {
        Some(10)
    } else if same_text(token, "eleven") {
        Some(11)
    } else if same_text(token, "twelve") {
        Some(12)
    } else if same_text(token, "thirteen") {
        Some(13)
    } else if same_text(token, "fourteen") {
        Some(14)
    } else if same_text(token, "fifteen") {
        Some(15)
    } else if same_text(token, "sixteen") {
        Some(16)
    } else if same_text(token, "seventeen") {
        Some(17)
    } else if same_text(token, "eighteen") {
        Some(18)
    } else if same_text(token, "nineteen") {
        Some(19)
    } else if same_text(token, "twenty") {
        Some(20)
    } else if same_text(token, "thirty") {
        Some(30)
    } else if same_text(token, "forty") {
        Some(40)
    } else if same_text(token, "fifty") {
        Some(50)
    } else if same_text(token, "sixty") {
        Some(60)
    } else if same_text(token, "seventy") {
        Some(70)
    } else if same_text(token, "eighty") {
        Some(80)
    } else if same_text(token, "ninety") {
        Some(90)
    } else {
        None
    }
}

fn absorbs_a_unit(value: i64) -> (r: bool)
    ensures
        r == is_ten(value),
{
    value == 20 || value == 30 || value == 40 || value == 50 || value == 60 || value == 70 || value
        == 80 || value == 90
}

/// Whether a given word is said at a given place.
pub fn word_is(tokens: &[String], at: usize, word: &str) -> (r: bool)
    ensures
        r == says(texts(tokens@), at as int, word@),
{
    at < tokens.len() && same_text(tokens[at].as_str(), word)
}

fn worth(tokens: &[String], at: usize) -> (r: Option<i64>)
    ensures
        r == value_at(texts(tokens@), at as int),
{
    if at < tokens.len() {
        word_value(tokens[at].as_str())
    } else {
        None
    }
}

/// One number from `at` on, and where its words ended.
fn read_one(tokens: &[String], at: usize) -> (r: Option<(i64, usize)>)
    requires
        at < tokens.len(),
    ensures
        match number_at(texts(tokens@), at as int) {
            Some((value, next)) => r matches Some((v, n)) && v == value && n == next && at < n
                <= tokens.len(),
            None => r is None,
        },
{
    let value: i64 = match worth(tokens, at) {
        Some(value) => value,
        None => {
            return None;
        },
    };
    let mut index: usize = at + 1;
    let mut total: i64 = value;
    if word_is(tokens, index, "hundred") {
        total = total.wrapping_mul(100);
        index += 1;
        if word_is(tokens, index, "and") {
            index += 1;
        }
        if let Some(rest) = worth(tokens, index) {
            if rest < 100 {
                total = total.wrapping_add(rest);
                index += 1;
                if absorbs_a_unit(rest) {
                    if let Some(unit) = worth(tokens, index) {
                        if unit < 10 {
                            total = total.wrapping_add(unit);
                            index += 1;
                        }
                    }
                }
            }
        }
    } else if absorbs_a_unit(value) {
        if let Some(unit) = worth(tokens, index) {
            if unit < 10 {
                total = total.wrapping_add(unit);
                index += 1;
            }
        }
    }
    Some((total, index))
}

/// Collapses a run of number words into the numbers they name.
///
/// "twenty eight" is one number; "three sixteen" is two. The difference is
/// whether the words compose: tens absorb a following unit, and "hundred"
/// multiplies what came before.
pub fn read_numbers(tokens: &[String]) -> (numbers: Vec<i64>)
    ensures
        numbers@ == numbers_in(texts(tokens@)),
        numbers.len() <= 3,
{
    let mut numbers: Vec<i64> = Vec::new();
    let mut index: usize = 0;
    let ghost said = texts(tokens@);
    while index < tokens.len()
        invariant
            index <= tokens.len(),
            said == texts(tokens@),
            numbers.len() <= 2,
            numbers_in(said) == numbers_from(said, index as int, numbers@),
        decreases tokens.len() - index,
    {
        if numbers.len() > 0 && word_is(tokens, index, "and") {
            index += 1;
            continue;
        }
        match read_one(tokens, index) {
            None => {
                return numbers;
            },
            Some((value, next)) => {
                numbers.push(value);
                if numbers.len() == 3 {
                    return numbers;
                }
                index = next;
            },
        }
    }
    numbers
}

fn is_just(numbers: &Vec<i64>, value: i64) -> (r: bool)
    ensures
        r == (numbers@ == seq![value]),
{
    if numbers.len() == 1 && numbers[0] == value {
        assert(numbers@ =~= seq![value]);
        true
    } else {
        assert(numbers@ == seq![value] ==> numbers@.len() == 1 && numbers@[0] == value);
        false
    }
}

/// The first number in `tokens`, and how many words it took.
///
/// `read_numbers` says what the numbers are; this says where the first one
/// ends: the shortest run of words that reads as the whole first number.
pub fn read_first(tokens: &[String]) -> (r: Option<(i64, usize)>)
    ensures
        r is Some <==> numbers_in(texts(tokens@)).len() > 0,
        r matches Some((value, used)) ==> {
            &&& value == numbers_in(texts(tokens@))[0]
            &&& 1 <= used <= tokens.len()
            &&& numbers_in(texts(tokens@).take(used as int)) == seq![value]
            &&& forall|k: int|
                1 <= k < used ==> numbers_in(#[trigger] texts(tokens@).take(k)) != seq![value]
            &&& first_number(texts(tokens@)) == Some((value, used as int))
        },
{
    let ghost said = texts(tokens@);
    proof {
        lemma_first_number(said);
    }
    let all: Vec<i64> = read_numbers(tokens);
    if all.len() == 0 {
        return None;
    }
    let first: i64 = all[0];
    let mut used: usize = 1;
    while used <= tokens.len()
        invariant
            1 <= used,
            said == texts(tokens@),
            numbers_in(said).len() > 0,
            first == numbers_in(said)[0],
            number_at(said, 0) is Some,
            number_at(said, 0) matches Some((value, next)) ==> {
                &&& 1 <= next <= tokens.len()
                &&& numbers_in(said)[0] == value
                &&& numbers_in(said.take(next)) == seq![value]
            },
            forall|k: int|
                1 <= k < used ==> numbers_in(#[trigger] said.take(k)) != seq![first],
            shortest_run(said, first, 1) == shortest_run(said, first, used as int),
        decreases tokens.len() + 1 - used,
    {
        let part: &[String] = vstd::slice::slice_subrange(tokens, 0, used);
        assert(texts(part@) =~= said.take(used as int));
        if is_just(&read_numbers(part), first) {
            return Some((first, used));
        }
        if used == tokens.len() {
            assert(false) by {
                let (value, next) = number_at(said, 0).unwrap();
                assert(numbers_in(said.take(next)) == seq![first]);
            }
        }
        used += 1;
    }
    assert(false) by {
        let (value, next) = number_at(said, 0).unwrap();
        assert(numbers_in(said.take(next)) == seq![first]);
    }
    None
}

// ---------------------------------------------------------------------- laws

/// Whether a word begins like one that stands for a number.
pub open spec fn looks_counting(w: Seq<char>) -> bool {
    w.len() > 0 && (is_digit(w[0]) || w[0] == '+' || w[0] == '-' || w.len() >= 3 && {
        ||| w[0] == 'o' && w[1] == 'n'
        ||| w[0] == 't' && w[1] == 'w'
        ||| w[0] == 't' && w[1] == 'h' && w.len() >= 5
        ||| w[0] == 'f' && w[1] == 'o'
        ||| w[0] == 'f' && w[1] == 'i'
        ||| w[0] == 's' && w[1] == 'i'
        ||| w[0] == 's' && w[1] == 'e'
        ||| w[0] == 'e' && w[1] == 'i'
        ||| w[0] == 'n' && w[1] == 'i'
        ||| w[0] == 't' && w[1] == 'e'
        ||| w[0] == 'e' && w[1] == 'l'
    })
}

proof fn lemma_looks_counting(w: Seq<char>)
    requires
        value_of(w) is Some,
    ensures
        looks_counting(w),
{
    reveal_strlit("one");
    reveal_strlit("two");
    reveal_strlit("three");
    reveal_strlit("four");
    reveal_strlit("five");
    reveal_strlit("six");
    reveal_strlit("seven");
    reveal_strlit("eight");
    reveal_strlit("nine");
    reveal_strlit("ten");
    reveal_strlit("eleven");
    reveal_strlit("twelve");
    reveal_strlit("thirteen");
    reveal_strlit("fourteen");
    reveal_strlit("fifteen");
    reveal_strlit("sixteen");
    reveal_strlit("seventeen");
    reveal_strlit("eighteen");
    reveal_strlit("nineteen");
    reveal_strlit("twenty");
    reveal_strlit("thirty");
    reveal_strlit("forty");
    reveal_strlit("fifty");
    reveal_strlit("sixty");
    reveal_strlit("seventy");
    reveal_strlit("eighty");
    reveal_strlit("ninety");
}

/// A word that begins like none that stands for a number is no number.
pub proof fn lemma_no_number_word(w: Seq<char>)
    requires
        !looks_counting(w),
    ensures
        value_of(w) is None,
{
    if value_of(w) is Some {
        lemma_looks_counting(w);
    }
}

/// "hundred" and "and" are no numbers by themselves.
proof fn lemma_joining_words()
    ensures
        value_of("hundred"@) is None,
        value_of("and"@) is None,
{
    reveal_strlit("hundred");
    reveal_strlit("and");
    reveal_strlit("one");
    reveal_strlit("two");
    reveal_strlit("three");
    reveal_strlit("four");
    reveal_strlit("five");
    reveal_strlit("six");
    reveal_strlit("seven");
    reveal_strlit("eight");
    reveal_strlit("nine");
    reveal_strlit("ten");
    reveal_strlit("eleven");
    reveal_strlit("twelve");
    reveal_strlit("thirteen");
    reveal_strlit("fourteen");
    reveal_strlit("fifteen");
    reveal_strlit("sixteen");
    reveal_strlit("seventeen");
    reveal_strlit("eighteen");
    reveal_strlit("nineteen");
    reveal_strlit("twenty");
    reveal_strlit("thirty");
    reveal_strlit("forty");
    reveal_strlit("fifty");
    reveal_strlit("sixty");
    reveal_strlit("seventy");
    reveal_strlit("eighty");
    reveal_strlit("ninety");
    assert(!is_digit("hundred"@[0]));
    assert(!is_digit("and"@[0]));
}

/// Whether a number is a ten with a word of its own: twenty, thirty, up to ninety.
pub open spec fn is_round(n: int) -> bool {
    20 <= n <= 90 && n % 10 == 0
}

/// The words for one to nineteen, in order.
pub open spec fn counting_words() -> Seq<Seq<char>> {
    seq![
        "one"@,
        "two"@,
        "three"@,
        "four"@,
        "five"@,
        "six"@,
        "seven"@,
        "eight"@,
        "nine"@,
        "ten"@,
        "eleven"@,
        "twelve"@,
        "thirteen"@,
        "fourteen"@,
        "fifteen"@,
        "sixteen"@,
        "seventeen"@,
        "eighteen"@,
        "nineteen"@,
    ]
}

/// The words for twenty to ninety, in order.
pub open spec fn round_words() -> Seq<Seq<char>> {
    seq![
        "twenty"@,
        "thirty"@,
        "forty"@,
        "fifty"@,
        "sixty"@,
        "seventy"@,
        "eighty"@,
        "ninety"@,
    ]
}

#[verifier::rlimit(60)]
proof fn lemma_counting_words()
    ensures
        value_of("one"@) == Some(1i64),
        value_of("two"@) == Some(2i64),
        value_of("three"@) == Some(3i64),
        value_of("four"@) == Some(4i64),
        value_of("five"@) == Some(5i64),
        value_of("six"@) == Some(6i64),
        value_of("seven"@) == Some(7i64),
        value_of("eight"@) == Some(8i64),
        value_of("nine"@) == Some(9i64),
        value_of("ten"@) == Some(10i64),
        value_of("eleven"@) == Some(11i64),
        value_of("twelve"@) == Some(12i64),
        value_of("thirteen"@) == Some(13i64),
        value_of("fourteen"@) == Some(14i64),
        value_of("fifteen"@) == Some(15i64),
        value_of("sixteen"@) == Some(16i64),
        value_of("seventeen"@) == Some(17i64),
        value_of("eighteen"@) == Some(18i64),
        value_of("nineteen"@) == Some(19i64),
{
    reveal_strlit("one");
    reveal_strlit("two");
    reveal_strlit("three");
    reveal_strlit("four");
    reveal_strlit("five");
    reveal_strlit("six");
    reveal_strlit("seven");
    reveal_strlit("eight");
    reveal_strlit("nine");
    reveal_strlit("ten");
    reveal_strlit("eleven");
    reveal_strlit("twelve");
    reveal_strlit("thirteen");
    reveal_strlit("fourteen");
    reveal_strlit("fifteen");
    reveal_strlit("sixteen");
    reveal_strlit("seventeen");
    reveal_strlit("eighteen");
    reveal_strlit("nineteen");
    reveal_strlit("twenty");
    reveal_strlit("thirty");
    reveal_strlit("forty");
    reveal_strlit("fifty");
    reveal_strlit("sixty");
    reveal_strlit("seventy");
    reveal_strlit("eighty");
    reveal_strlit("ninety");
}

#[verifier::rlimit(60)]
proof fn lemma_round_words()
    ensures
        value_of("twenty"@) == Some(20i64),
        value_of("thirty"@) == Some(30i64),
        value_of("forty"@) == Some(40i64),
        value_of("fifty"@) == Some(50i64),
        value_of("sixty"@) == Some(60i64),
        value_of("seventy"@) == Some(70i64),
        value_of("eighty"@) == Some(80i64),
        value_of("ninety"@) == Some(90i64),
{
    reveal_strlit("one");
    reveal_strlit("two");
    reveal_strlit("three");
    reveal_strlit("four");
    reveal_strlit("five");
    reveal_strlit("six");
    reveal_strlit("seven");
    reveal_strlit("eight");
    reveal_strlit("nine");
    reveal_strlit("ten");
    reveal_strlit("eleven");
    reveal_strlit("twelve");
    reveal_strlit("thirteen");
    reveal_strlit("fourteen");
    reveal_strlit("fifteen");
    reveal_strlit("sixteen");
    reveal_strlit("seventeen");
    reveal_strlit("eighteen");
    reveal_strlit("nineteen");
    reveal_strlit("twenty");
    reveal_strlit("thirty");
    reveal_strlit("forty");
    reveal_strlit("fifty");
    reveal_strlit("sixty");
    reveal_strlit("seventy");
    reveal_strlit("eighty");
    reveal_strlit("ninety");
    assert("twelve"@[1] == 'w');
    assert("sixteen"@[1] == 'i');
    assert("seventy"@[1] == 'e');
    assert("twenty"@[1] == 'w');
    assert("thirty"@[1] == 'h');
    assert("forty"@[1] == 'o');
    assert("fifty"@[1] == 'i');
    assert("sixty"@[1] == 'i');
    assert("seven"@[1] == 'e');
    assert("three"@[1] == 'h');
    assert("eight"@[1] == 'i');
}

/// The words count: the first nineteen stand for one to nineteen in order, and
/// those of the tens for twenty, thirty and so on.
pub proof fn law_number_words_count(i: int)
    ensures
        0 <= i < counting_words().len() ==> value_of(counting_words()[i]) == Some((i + 1) as i64),
        0 <= i < round_words().len() ==> value_of(round_words()[i]) == Some((10 * (i + 2)) as i64),
{
    lemma_counting_words();
    lemma_round_words();
}

proof fn lemma_one_number(said: Seq<Seq<char>>, v: i64)
    requires
        number_at(said, 0) == Some((v, said.len() as int)),
    ensures
        numbers_in(said) == seq![v],
{
    lemma_first_number(said);
    assert(said.take(said.len() as int) =~= said);
}

proof fn lemma_two_numbers(said: Seq<Seq<char>>, v: i64, at: int, w: i64)
    requires
        number_at(said, 0) == Some((v, at)),
        number_at(said, at) == Some((w, said.len() as int)),
        0 < at < said.len(),
        said[at] != "and"@,
    ensures
        numbers_in(said) == seq![v, w],
{
    lemma_joining_words();
    reveal_with_fuel(numbers_from, 3);
    assert(Seq::<i64>::empty().push(v).push(w) =~= seq![v, w]);
}

/// One number by itself is that number.
pub proof fn law_a_number_by_itself(word: Seq<char>, x: i64)
    requires
        value_of(word) == Some(x),
    ensures
        numbers_in(seq![word]) == seq![x],
        first_number(seq![word]) == Some((x, 1int)),
{
    lemma_joining_words();
    let said = seq![word];
    assert(number_at(said, 0) == Some((x, 1int)));
    lemma_first_number(said);
    assert(said.take(1) =~= said);
}

/// A ten absorbs a unit: "twenty eight" is one number.
pub proof fn law_a_ten_absorbs_a_unit(ten: Seq<char>, unit: Seq<char>, x: i64, y: i64)
    requires
        value_of(ten) == Some(x),
        is_round(x as int),
        value_of(unit) == Some(y),
        y < 10,
    ensures
        numbers_in(seq![ten, unit]) == seq![(x + y) as i64],
{
    lemma_joining_words();
    let said = seq![ten, unit];
    assert(number_at(said, 0) == Some(((x + y) as i64, 2int)));
    lemma_first_number(said);
    assert(said.take(2) =~= said);
}

/// Any other two numbers stand apart: "three sixteen" is two numbers. With "and"
/// between them every two do.
pub proof fn law_other_numbers_stand_apart(first: Seq<char>, second: Seq<char>, x: i64, y: i64)
    requires
        value_of(first) == Some(x),
        value_of(second) == Some(y),
    ensures
        !(is_round(x as int) && y < 10) ==> numbers_in(seq![first, second]) == seq![x, y],
        numbers_in(seq![first, "and"@, second]) == seq![x, y],
{
    lemma_joining_words();
    reveal_strlit("hundred");
    reveal_strlit("and");
    if !(is_round(x as int) && y < 10) {
        lemma_two_numbers(seq![first, second], x, 1, y);
    }
    let apart = seq![first, "and"@, second];
    reveal_with_fuel(numbers_from, 4);
    assert(number_at(apart, 0) == Some((x, 1int)));
    assert(number_at(apart, 2) == Some((y, 3int)));
    assert(Seq::<i64>::empty().push(x).push(y) =~= seq![x, y]);
}

/// "hundred" multiplies what came before it, and takes in nothing that is not
/// below a hundred.
pub proof fn law_hundreds_multiply(h: Seq<char>, other: Seq<char>, x: i64, y: i64)
    requires
        value_of(h) == Some(x),
        value_of(other) == Some(y),
        -90_000_000_000_000_000 <= x <= 90_000_000_000_000_000,
    ensures
        numbers_in(seq![h, "hundred"@]) == seq![(100 * x) as i64],
        0 <= y < 100 ==> numbers_in(seq![h, "hundred"@, other]) == seq![(100 * x + y) as i64],
        0 <= y < 100 ==> numbers_in(seq![h, "hundred"@, "and"@, other]) == seq![
            (100 * x + y) as i64,
        ],
        y >= 100 ==> numbers_in(seq![h, "hundred"@, other]) == seq![(100 * x) as i64, y],
        y >= 100 ==> numbers_in(seq![h, "hundred"@, "and"@, other]) == seq![(100 * x) as i64, y],
{
    lemma_joining_words();
    reveal_strlit("hundred");
    reveal_strlit("and");
    let times = (100 * x) as i64;
    let sum = (100 * x + y) as i64;
    lemma_one_number(seq![h, "hundred"@], times);
    let with = seq![h, "hundred"@, other];
    let joined = seq![h, "hundred"@, "and"@, other];
    if 0 <= y < 100 {
        lemma_one_number(with, sum);
        lemma_one_number(joined, sum);
    }
    if y >= 100 {
        lemma_two_numbers(with, times, 2, y);
        lemma_two_numbers(joined, times, 3, y);
    }
}

/// A hundred takes in a ten and the unit behind it, with or without "and": "one
/// hundred and twenty three" is one number. A unit does not follow anything else.
pub proof fn law_a_hundred_takes_in_a_ten_and_a_unit(
    h: Seq<char>,
    t: Seq<char>,
    u: Seq<char>,
    x: i64,
    y: i64,
    z: i64,
)
    requires
        value_of(h) == Some(x),
        value_of(t) == Some(y),
        value_of(u) == Some(z),
        -90_000_000_000_000_000 <= x <= 90_000_000_000_000_000,
        0 <= y < 100,
        z >= 0,
    ensures
        is_round(y as int) && z < 10 ==> numbers_in(seq![h, "hundred"@, t, u]) == seq![
            (100 * x + y + z) as i64,
        ],
        is_round(y as int) && z < 10 ==> numbers_in(seq![h, "hundred"@, "and"@, t, u]) == seq![
            (100 * x + y + z) as i64,
        ],
        !(is_round(y as int) && z < 10) ==> numbers_in(seq![h, "hundred"@, t, u]) == seq![
            (100 * x + y) as i64,
            z,
        ],
        !(is_round(y as int) && z < 10) ==> numbers_in(seq![h, "hundred"@, "and"@, t, u]) == seq![
            (100 * x + y) as i64,
            z,
        ],
{
    lemma_joining_words();
    reveal_strlit("hundred");
    reveal_strlit("and");
    let sum = (100 * x + y) as i64;
    let all = (100 * x + y + z) as i64;
    let with = seq![h, "hundred"@, t, u];
    let joined = seq![h, "hundred"@, "and"@, t, u];
    if is_round(y as int) && z < 10 {
        lemma_one_number(with, all);
        lemma_one_number(joined, all);
    } else {
        lemma_two_numbers(with, sum, 3, z);
        lemma_two_numbers(joined, sum, 4, z);
    }
}

proof fn lemma_shortest(tokens: Seq<Seq<char>>, value: i64, from: int, upto: int)
    requires
        0 <= from <= upto <= tokens.len(),
        numbers_in(tokens.take(upto)) == seq![value],
    ensures
        shortest_run(tokens, value, from) <= upto,
    decreases upto - from,
{
    if from < upto && numbers_in(tokens.take(from)) != seq![value] {
        lemma_shortest(tokens, value, from + 1, upto);
    }
}

proof fn lemma_behind(
    a: Seq<Seq<char>>,
    b: Seq<Seq<char>>,
    at: int,
    found: Seq<i64>,
    more: Seq<i64>,
)
    requires
        0 <= at,
        found.len() <= 1,
        more.len() == 1,
        found.len() > 0 || at >= b.len() || b[at] != "and"@,
    ensures
        numbers_from(a + b, a.len() + at, more + found) == more + (if numbers_from(
            b,
            at,
            found,
        ).len() > 2 {
            numbers_from(b, at, found).take(2)
        } else {
            numbers_from(b, at, found)
        }),
    decreases b.len() - at,
{
    let said = a + b;
    let all = more + found;
    lemma_found_is_kept(b, at, found);
    assert(forall|k: int| 0 <= k < b.len() ==> said[a.len() + k] == b[k]);
    if at >= b.len() {
        assert(found.take(found.len() as int) =~= found);
    } else {
        assert(says(said, a.len() + at, "and"@) == says(b, at, "and"@));
        if says(b, at, "and"@) {
            lemma_behind(a, b, at + 1, found, more);
        } else {
            lemma_number_behind(a, b, at);
            match number_at(b, at) {
                None => {
                    assert(found.take(found.len() as int) =~= found);
                },
                Some((value, next)) => {
                    assert(all.push(value) =~= more + found.push(value));
                    if found.len() == 1 {
                        lemma_found_is_kept(b, next, found.push(value));
                        let longer = numbers_from(b, next, found.push(value));
                        assert(longer.take(2) =~= found.push(value));
                        if longer.len() == 2 {
                            assert(longer =~= longer.take(2));
                        }
                    } else {
                        lemma_behind(a, b, next, found.push(value), more);
                    }
                },
            }
        }
    }
}

proof fn lemma_number_behind(a: Seq<Seq<char>>, b: Seq<Seq<char>>, at: int)
    requires
        0 <= at,
    ensures
        match number_at(b, at) {
            Some((value, next)) => number_at(a + b, a.len() + at) == Some(
                (value, a.len() + next),
            ) && at < next,
            None => number_at(a + b, a.len() + at) is None,
        },
{
    let said = a + b;
    assert(forall|k: int| 0 <= k < b.len() ==> said[a.len() + k] == b[k]);
}

/// Numbers are read one after another: behind words that are one whole number,
/// further words are read as they are by themselves, three numbers in all, unless
/// they go on with the number before them.
pub proof fn law_numbers_are_read_one_after_another(a: Seq<Seq<char>>, b: Seq<Seq<char>>, v: i64)
    requires
        first_number(a) == Some((v, a.len() as int)),
        value_of(a.last()) matches Some(n) && !is_round(n as int),
        b.len() > 0,
        b[0] != "hundred"@,
        b[0] != "and"@,
    ensures
        numbers_in(a + b) == seq![v] + (if numbers_in(b).len() > 2 {
            numbers_in(b).take(2)
        } else {
            numbers_in(b)
        }),
{
    lemma_joining_words();
    lemma_first_number(a);
    let (value, next) = number_at(a, 0)->0;
    lemma_shortest(a, v, 1, next);
    let said = a + b;
    assert(forall|k: int| 0 <= k < a.len() ==> said[k] == a[k]);
    assert(said[a.len() as int] == b[0]);
    assert(number_at(said, 0) == Some((v, a.len() as int)));
    let found = Seq::<i64>::empty().push(v);
    assert(found + Seq::<i64>::empty() =~= found);
    lemma_behind(a, b, 0, Seq::empty(), found);
    assert(found =~= seq![v]);
}

/// A number reads alike in words and in digits.
pub proof fn law_words_and_digits_read_alike(
    ten: Seq<char>,
    unit: Seq<char>,
    digits: Seq<char>,
    x: i64,
    y: i64,
)
    requires
        value_of(ten) == Some(x),
        is_round(x as int),
        value_of(unit) == Some(y),
        y < 10,
        value_of(digits) == Some((x + y) as i64),
    ensures
        numbers_in(seq![ten, unit]) == numbers_in(seq![digits]),
{
    law_a_ten_absorbs_a_unit(ten, unit, x, y);
    law_a_number_by_itself(digits, (x + y) as i64);
}

proof fn lemma_stops(
    before: Seq<Seq<char>>,
    word: Seq<char>,
    rest: Seq<Seq<char>>,
    at: int,
    found: Seq<i64>,
)
    requires
        value_of(word) is None,
        word != "hundred"@,
        word != "and"@,
        0 <= at <= before.len(),
    ensures
        numbers_from(before.push(word) + rest, at, found) == numbers_from(before, at, found),
    decreases before.len() - at,
{
    let said = before.push(word) + rest;
    assert(forall|k: int| 0 <= k < before.len() ==> said[k] == before[k]);
    assert(said[before.len() as int] == word);
    if at < before.len() {
        if says(before, at, "and"@) && found.len() > 0 {
            lemma_stops(before, word, rest, at + 1, found);
        } else {
            assert(number_at(said, at) == number_at(before, at));
            if let Some((value, next)) = number_at(before, at) {
                if found.len() != 2 {
                    lemma_stops(before, word, rest, next, found.push(value));
                }
            }
        }
    }
}

/// The first word that is no number ends the reading: whatever follows it, the
/// numbers are those of the words before it.
pub proof fn law_reading_stops_at_the_first_other_word(
    before: Seq<Seq<char>>,
    word: Seq<char>,
    rest: Seq<Seq<char>>,
)
    requires
        value_of(word) is None,
        word != "hundred"@,
        word != "and"@,
    ensures
        numbers_in(before.push(word) + rest) == numbers_in(before),
{
    lemma_stops(before, word, rest, 0, Seq::empty());
}

} // verus!
