//! The language a model is told to decode, and what is made of what it writes.

use crate::text::{
    chars_of, fields, join_texts, joined, lemma_prefix_step, lemma_split_joined,
    lemma_split_whitespace, lowercase, split_whitespace, text_of, to_lowercase, words_of_text,
};
use vstd::prelude::*;

verus! {

// ------------------------------------------------------------------ language

/// The part of a locale before its region.
pub open spec fn before_region(locale: Seq<char>) -> Seq<char>
    decreases locale.len(),
{
    if locale.len() == 0 || locale[0] == '-' || locale[0] == '_' {
        Seq::empty()
    } else {
        seq![locale[0]] + before_region(locale.skip(1))
    }
}

/// The part of a locale before its region.
pub fn bare_code(locale: &str) -> (r: String)
    ensures
        r@ == before_region(locale@),
{
    let chars: Vec<char> = chars_of(locale);
    let mut out: Vec<char> = Vec::new();
    let mut i: usize = 0;
    assert(locale@.skip(0) =~= locale@);
    while i < chars.len() && chars[i] != '-' && chars[i] != '_'
        invariant
            i <= chars.len(),
            chars@ == locale@,
            before_region(locale@) == out@ + before_region(locale@.skip(i as int)),
        decreases chars.len() - i,
    {
        let ghost before = out@;
        let ghost rest = locale@.skip(i as int);
        assert(rest[0] == chars@[i as int]);
        assert(rest.skip(1) =~= locale@.skip(i + 1));
        out.push(chars[i]);
        assert(out@ + before_region(locale@.skip(i + 1)) =~= before + (seq![rest[0]]
            + before_region(rest.skip(1))));
        i += 1;
    }
    assert(i < chars.len() ==> locale@.skip(i as int)[0] == chars@[i as int]);
    assert(before_region(locale@.skip(i as int)) =~= Seq::empty());
    assert(out@ =~= before_region(locale@));
    text_of(out.as_slice())
}

/// The code a model is asked whether it knows.
pub fn language_code(locale: &str) -> (r: String)
    ensures
        r@ == lowercase(before_region(locale@)),
{
    to_lowercase(bare_code(locale).as_str())
}

/// The language a model should be told to decode. `known` is the model's own
/// spelling of the code that [`language_code`] gives, where it knows it. An
/// English-only model is asked for English whatever was chosen, and so is any
/// model of a language it has never heard of.
pub fn decode_language<'a>(english_only: bool, known: Option<&'a str>) -> (r: &'a str)
    ensures
        r@ == match known {
            Some(code) if !english_only => code@,
            _ => "en"@,
        },
{
    if english_only {
        return "en";
    }
    match known {
        Some(code) => code,
        None => "en",
    }
}

// --------------------------------------------------------------------- words

pub open spec fn opens(c: char) -> bool {
    c == '[' || c == '('
}

pub open spec fn closes(c: char) -> bool {
    c == ']' || c == ')'
}

/// How deep in brackets the end of a text is. A closing bracket that nothing
/// opened closes nothing.
pub open spec fn depth(text: Seq<char>) -> nat
    decreases text.len(),
{
    if text.len() == 0 {
        0
    } else {
        let before = depth(text.drop_last());
        if opens(text.last()) {
            before + 1
        } else if closes(text.last()) && before > 0 {
            (before - 1) as nat
        } else {
            before
        }
    }
}

/// A text without its brackets and what stands in them.
pub open spec fn outside(text: Seq<char>) -> Seq<char>
    decreases text.len(),
{
    if text.len() == 0 {
        Seq::empty()
    } else {
        let before = outside(text.drop_last());
        let c = text.last();
        if opens(c) || closes(c) || depth(text.drop_last()) > 0 {
            before
        } else {
            before.push(c)
        }
    }
}

/// What somebody said: the words that stand in no brackets, a space between
/// each.
pub open spec fn spoken(text: Seq<char>) -> Seq<char> {
    joined(split_whitespace(outside(text)), " "@)
}

/// Strips the bracketed tags that mark non-speech, and the padding. They are
/// descriptions of the room, not things anybody said.
pub fn clean(text: &str) -> (r: String)
    ensures
        r@ == spoken(text@),
{
    let chars: Vec<char> = chars_of(text);
    let mut out: Vec<char> = Vec::new();
    let mut deep: usize = 0;
    let mut i: usize = 0;
    assert(out@ =~= outside(text@.take(0)));
    while i < chars.len()
        invariant
            i <= chars.len(),
            chars@ == text@,
            deep <= i,
            deep == depth(text@.take(i as int)),
            out@ == outside(text@.take(i as int)),
        decreases chars.len() - i,
    {
        proof {
            lemma_prefix_step(text@, i as int);
        }
        let c: char = chars[i];
        if c == '[' || c == '(' {
            deep += 1;
        } else if c == ']' || c == ')' {
            if deep > 0 {
                deep -= 1;
            }
        } else if deep == 0 {
            out.push(c);
        }
        i += 1;
    }
    assert(text@.take(text@.len() as int) =~= text@);
    let words: Vec<String> = words_of_text(text_of(out.as_slice()).as_str());
    join_texts(words.as_slice(), " ")
}

pub open spec fn unbracketed(text: Seq<char>) -> bool {
    forall|i: int| 0 <= i < text.len() ==> !opens(#[trigger] text[i]) && !closes(text[i])
}

proof fn lemma_outside(text: Seq<char>)
    ensures
        unbracketed(outside(text)),
    decreases text.len(),
{
    if text.len() > 0 {
        lemma_outside(text.drop_last());
    }
}

proof fn lemma_outside_same(text: Seq<char>)
    requires
        unbracketed(text),
    ensures
        outside(text) == text,
        depth(text) == 0,
    decreases text.len(),
{
    if text.len() > 0 {
        let front = text.drop_last();
        assert forall|i: int| 0 <= i < front.len() implies !opens(#[trigger] front[i]) && !closes(
            front[i],
        ) by {
            assert(front[i] == text[i]);
        }
        lemma_outside_same(front);
        assert(!opens(text[text.len() - 1]) && !closes(text[text.len() - 1]));
        assert(front.push(text.last()) =~= text);
    } else {
        assert(outside(text) =~= text);
    }
}

proof fn lemma_words_unbracketed(text: Seq<char>)
    requires
        unbracketed(text),
    ensures
        forall|i: int|
            0 <= i < fields(text).0.len() ==> unbracketed(
                #[trigger] fields(text).0[i],
            ),
        unbracketed(fields(text).1),
    decreases text.len(),
{
    if text.len() > 0 {
        let front = text.drop_last();
        assert forall|i: int| 0 <= i < front.len() implies !opens(#[trigger] front[i]) && !closes(
            front[i],
        ) by {
            assert(front[i] == text[i]);
        }
        lemma_words_unbracketed(front);
        assert(!opens(text[text.len() - 1]) && !closes(text[text.len() - 1]));
    }
}

proof fn lemma_joined_unbracketed(words: Seq<Seq<char>>)
    requires
        forall|i: int| 0 <= i < words.len() ==> unbracketed(#[trigger] words[i]),
    ensures
        unbracketed(joined(words, " "@)),
    decreases words.len(),
{
    if words.len() > 1 {
        let front = words.drop_last();
        assert forall|i: int| 0 <= i < front.len() implies unbracketed(#[trigger] front[i]) by {
            assert(front[i] == words[i]);
        }
        lemma_joined_unbracketed(front);
        reveal_strlit(" ");
        assert(unbracketed(words[words.len() - 1]));
    } else if words.len() == 1 {
        assert(unbracketed(words[0]));
    }
}

/// No bracket survives, so nothing that stood in one is taken for speech.
pub proof fn law_no_bracket_survives(text: Seq<char>, i: int)
    requires
        0 <= i < spoken(text).len(),
    ensures
        !opens(spoken(text)[i]),
        !closes(spoken(text)[i]),
{
    lemma_spoken_unbracketed(text);
}

proof fn lemma_spoken_unbracketed(text: Seq<char>)
    ensures
        unbracketed(spoken(text)),
{
    lemma_outside(text);
    lemma_words_unbracketed(outside(text));
    assert forall|i: int| 0 <= i < split_whitespace(outside(text)).len() implies unbracketed(
        #[trigger] split_whitespace(outside(text))[i],
    ) by {
        let done = fields(outside(text)).0;
        if i < done.len() {
            assert(unbracketed(done[i]));
        }
    }
    lemma_joined_unbracketed(split_whitespace(outside(text)));
}

/// What has been cleaned is clean: doing it again changes nothing.
pub proof fn law_cleaning_is_done_once(text: Seq<char>)
    ensures
        spoken(spoken(text)) == spoken(text),
{
    lemma_spoken_unbracketed(text);
    lemma_outside_same(spoken(text));
    lemma_split_whitespace(outside(text));
    lemma_split_joined(split_whitespace(outside(text)));
}

/// Outside brackets no word is lost.
pub proof fn law_plain_speech_keeps_every_word(text: Seq<char>)
    requires
        unbracketed(text),
    ensures
        split_whitespace(spoken(text)) == split_whitespace(text),
{
    lemma_outside_same(text);
    lemma_split_whitespace(text);
    lemma_split_joined(split_whitespace(text));
}

/// Inside a bracket nothing is taken up.
proof fn lemma_inside(before: Seq<char>, inner: Seq<char>)
    requires
        depth(before) > 0,
        unbracketed(inner),
    ensures
        outside(before + inner) == outside(before),
        depth(before + inner) == depth(before),
    decreases inner.len(),
{
    if inner.len() > 0 {
        let front = inner.drop_last();
        assert forall|i: int| 0 <= i < front.len() implies !opens(#[trigger] front[i]) && !closes(
            front[i],
        ) by {
            assert(front[i] == inner[i]);
        }
        lemma_inside(before, front);
        assert((before + inner).drop_last() =~= before + front);
        assert(!opens(inner[inner.len() - 1]) && !closes(inner[inner.len() - 1]));
    } else {
        assert(before + inner =~= before);
    }
}

/// Outside every bracket everything is taken up.
proof fn lemma_beyond(before: Seq<char>, after: Seq<char>)
    requires
        depth(before) == 0,
        unbracketed(after),
    ensures
        outside(before + after) == outside(before) + after,
        depth(before + after) == 0,
    decreases after.len(),
{
    if after.len() > 0 {
        let front = after.drop_last();
        assert forall|i: int| 0 <= i < front.len() implies !opens(#[trigger] front[i]) && !closes(
            front[i],
        ) by {
            assert(front[i] == after[i]);
        }
        lemma_beyond(before, front);
        assert((before + after).drop_last() =~= before + front);
        assert(!opens(after[after.len() - 1]) && !closes(after[after.len() - 1]));
        assert(outside(before + after) =~= outside(before) + after);
    } else {
        assert(before + after =~= before);
        assert(outside(before) + after =~= outside(before));
    }
}

/// What stands in brackets was said by nobody, whatever stands around it; and
/// neither was what follows a bracket that is never closed.
pub proof fn law_what_stands_in_brackets_is_left_out(
    before: Seq<char>,
    inner: Seq<char>,
    after: Seq<char>,
    round: bool,
)
    requires
        unbracketed(before),
        unbracketed(inner),
        unbracketed(after),
    ensures
        spoken(
            before + seq![
                if round {
                    '('
                } else {
                    '['
                },
            ] + inner + seq![
                if round {
                    ')'
                } else {
                    ']'
                },
            ] + after,
        ) == spoken(before + after),
        spoken(
            before + seq![
                if round {
                    '('
                } else {
                    '['
                },
            ] + inner,
        ) == spoken(before),
{
    let open: char = if round {
        '('
    } else {
        '['
    };
    let close: char = if round {
        ')'
    } else {
        ']'
    };
    lemma_outside_same(before);
    let opened = before + seq![open];
    assert(opened.drop_last() =~= before);
    lemma_inside(opened, inner);
    let closed = opened + inner + seq![close];
    assert(closed.drop_last() =~= opened + inner);
    lemma_beyond(closed, after);
    lemma_beyond(before, after);
}

/// A bracket inside another does not end it: only when as many have closed as
/// have opened is anything heard again.
pub proof fn law_brackets_nest(
    before: Seq<char>,
    first: Seq<char>,
    second: Seq<char>,
    third: Seq<char>,
    after: Seq<char>,
)
    requires
        unbracketed(before),
        unbracketed(first),
        unbracketed(second),
        unbracketed(third),
        unbracketed(after),
    ensures
        spoken(
            before + seq!['['] + first + seq!['('] + second + seq![')'] + third + seq![']'] + after,
        ) == spoken(before + after),
{
    lemma_outside_same(before);
    let a = before + seq!['['];
    assert(a.drop_last() =~= before);
    lemma_inside(a, first);
    let b = a + first + seq!['('];
    assert(b.drop_last() =~= a + first);
    lemma_inside(b, second);
    let c = b + second + seq![')'];
    assert(c.drop_last() =~= b + second);
    lemma_inside(c, third);
    let d = c + third + seq![']'];
    assert(d.drop_last() =~= c + third);
    lemma_beyond(d, after);
    lemma_beyond(before, after);
}

proof fn lemma_before_region(code: Seq<char>, rest: Seq<char>)
    requires
        !code.contains('-'),
        !code.contains('_'),
        rest.len() == 0 || rest[0] == '-' || rest[0] == '_',
    ensures
        before_region(code + rest) == code,
    decreases code.len(),
{
    if code.len() == 0 {
        assert(code + rest =~= rest);
        assert(before_region(rest) =~= code);
    } else {
        let whole = code + rest;
        assert(whole[0] == code[0]);
        assert(code.contains(code[0]));
        assert(whole.skip(1) =~= code.skip(1) + rest);
        assert forall|c: char| code.skip(1).contains(c) implies code.contains(c) by {
            let k = choose|k: int| 0 <= k < code.skip(1).len() && code.skip(1)[k] == c;
            assert(code[k + 1] == c);
        }
        lemma_before_region(code.skip(1), rest);
        assert(seq![code[0]] + code.skip(1) =~= code);
    }
}

/// A region makes no difference to the language, and either mark may set it off.
pub proof fn law_a_region_is_no_part_of_a_language(
    code: Seq<char>,
    region: Seq<char>,
    underscore: bool,
)
    requires
        !code.contains('-'),
        !code.contains('_'),
    ensures
        before_region(code) == code,
        before_region(
            code + seq![
                if underscore {
                    '_'
                } else {
                    '-'
                },
            ] + region,
        ) == code,
{
    let mark: char = if underscore {
        '_'
    } else {
        '-'
    };
    lemma_before_region(code, Seq::empty());
    assert(code + Seq::empty() =~= code);
    lemma_before_region(code, seq![mark] + region);
    assert(code + (seq![mark] + region) =~= code + seq![mark] + region);
}

} // verus!
