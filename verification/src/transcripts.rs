//! What was said, kept.
//!
//! Every listening session is written down as it happens: one press of start to
//! the next stop. What is written, and when a session is closed, is decided
//! here; the store is a database that somebody else opens and writes to. It is
//! indexed for search, because the question is almost always "which week was
//! that?".

use crate::json::{json_of, lemma_trees, read_json, tree, trees, Json, Tree};
use crate::order::{in_order, lemma_sorted, sort, sorted, views};
use crate::text::{
    blank, chars_list, chars_of, fields, is_blank, is_word, join_texts, joined, lemma_fields_append,
    lemma_prefix_step, lemma_split_joined, lemma_split_on_both, lemma_split_on_one,
    lemma_split_trimmed, lemma_split_whitespace, lemma_trimmed_already, push_text, remove_char,
    split_at_char, split_on, split_whitespace, text_of, texts, trim_text, trimmed, whitespace,
    words_of_text,
};
use vstd::prelude::*;

verus! {

/// About the length of a settled utterance, in words.
pub const LINE_WORDS: usize = 40;

/// Unhurried speech, in words a minute.
pub const WORDS_A_MINUTE: i64 = 150;

/// One listening session, without its lines.
#[derive(Debug, Clone, PartialEq, Eq)]
pub struct Session {
    pub id: i64,
    pub started_at: i64,
    /// Absent while it is still being recorded.
    pub ended_at: Option<i64>,
    pub title: String,
    /// Markdown.
    pub summary: String,
    pub topics: Vec<String>,
    pub word_count: i64,
}

impl Session {
    /// A placeholder carrying nothing but an id, for the reply to a summary
    /// that failed.
    pub fn empty(id: i64) -> (r: Self)
        ensures
            r.id == id,
            r.started_at == 0,
            r.ended_at is None,
            r.title@.len() == 0,
            r.summary@.len() == 0,
            r.topics@.len() == 0,
            r.word_count == 0,
    {
        Session {
            id,
            started_at: 0,
            ended_at: None,
            title: String::new(),
            summary: String::new(),
            topics: Vec::new(),
            word_count: 0,
        }
    }
}

/// One settled utterance.
#[derive(Debug, Clone, PartialEq, Eq)]
pub struct Line {
    pub at_ms: i64,
    pub text: String,
}

/// A line as contracts speak of it.
pub struct Spoken {
    pub at_ms: i64,
    pub text: Seq<char>,
}

impl View for Line {
    type V = Spoken;

    open spec fn view(&self) -> Spoken {
        Spoken { at_ms: self.at_ms, text: self.text@ }
    }
}

// ------------------------------------------------------------------ breaking

/// Line breaks of any kind as one kind.
pub open spec fn plain_breaks(text: Seq<char>) -> Seq<char> {
    text.map_values(
        |c: char|
            if c == '\r' {
                '\n'
            } else {
                c
            },
    )
}

/// Whether a word ends a sentence.
pub open spec fn ends_sentence(word: Seq<char>) -> bool {
    word.len() > 0 && (word.last() == '.' || word.last() == '?' || word.last() == '!')
}

/// Whether words so far make a line: a sentence has ended in it and it is half
/// as long as an utterance, or there is no sentence end in sight.
pub open spec fn is_line(words: Seq<Seq<char>>) -> bool {
    ||| words.len() >= LINE_WORDS / 2 && ends_sentence(words.last())
    ||| words.len() >= LINE_WORDS * 2
}

/// The lines that words have made so far, and the words since.
pub open spec fn breaking(words: Seq<Seq<char>>) -> (Seq<Seq<Seq<char>>>, Seq<Seq<char>>)
    decreases words.len(),
{
    if words.len() == 0 {
        (Seq::empty(), Seq::empty())
    } else {
        let (lines, since) = breaking(words.drop_last());
        let now = since.push(words.last());
        if is_line(now) {
            (lines.push(now), Seq::empty())
        } else {
            (lines, now)
        }
    }
}

/// The lines that words make.
pub open spec fn broken(words: Seq<Seq<char>>) -> Seq<Seq<Seq<char>>> {
    let (lines, since) = breaking(words);
    if since.len() == 0 {
        lines
    } else {
        lines.push(since)
    }
}

/// The utterances of a block of text: itself where it is short enough, and
/// otherwise broken at sentence ends.
pub open spec fn block_utterances(block: Seq<char>) -> Seq<Seq<char>> {
    let words = split_whitespace(block);
    if words.len() == 0 {
        Seq::empty()
    } else if words.len() <= LINE_WORDS {
        seq![trimmed(block)]
    } else {
        broken(words).map_values(|line: Seq<Seq<char>>| joined(line, " "@))
    }
}

/// The utterances of several blocks, one after another.
pub open spec fn all_utterances(blocks: Seq<Seq<char>>) -> Seq<Seq<char>>
    decreases blocks.len(),
{
    if blocks.len() == 0 {
        Seq::empty()
    } else {
        all_utterances(blocks.drop_last()) + block_utterances(blocks.last())
    }
}

/// A text as utterances.
pub open spec fn utterances(text: Seq<char>) -> Seq<Seq<char>> {
    all_utterances(split_on(plain_breaks(text), '\n'))
}

fn closes_sentence(word: &str) -> (r: bool)
    ensures
        r == ends_sentence(word@),
{
    let chars: Vec<char> = chars_of(word);
    if chars.len() == 0 {
        return false;
    }
    let last: char = chars[chars.len() - 1];
    last == '.' || last == '?' || last == '!'
}

/// The lines that words make, each as a text.
fn break_words(words: &Vec<String>) -> (r: Vec<String>)
    ensures
        texts(r@) == broken(texts(words@)).map_values(|line: Seq<Seq<char>>| joined(line, " "@)),
{
    let ghost all = texts(words@);
    let ghost written = |line: Seq<Seq<char>>| joined(line, " "@);
    let mut out: Vec<String> = Vec::new();
    let mut since: Vec<String> = Vec::new();
    let mut i: usize = 0;
    assert(texts(since@) =~= Seq::empty());
    assert(texts(out@) =~= breaking(all.take(0)).0.map_values(written));
    while i < words.len()
        invariant
            i <= words.len(),
            all == texts(words@),
            written == (|line: Seq<Seq<char>>| joined(line, " "@)),
            texts(since@) == breaking(all.take(i as int)).1,
            texts(out@) == breaking(all.take(i as int)).0.map_values(written),
        decreases words.len() - i,
    {
        let ghost lines = breaking(all.take(i as int)).0;
        proof {
            lemma_prefix_step(all, i as int);
        }
        push_text(&mut since, words[i].clone());
        assert(texts(since@).len() == since@.len());
        if since.len() >= LINE_WORDS * 2 || (since.len() >= LINE_WORDS / 2 && closes_sentence(
            words[i].as_str(),
        )) {
            let ghost line = texts(since@);
            push_text(&mut out, join_texts(since.as_slice(), " "));
            assert(lines.push(line).map_values(written) =~= lines.map_values(written).push(
                joined(line, " "@),
            ));
            since = Vec::new();
            assert(texts(since@) =~= Seq::empty());
        }
        i += 1;
    }
    assert(all.take(all.len() as int) =~= all);
    assert(texts(since@).len() == since@.len());
    if since.len() > 0 {
        let ghost lines = breaking(all).0;
        let ghost line = texts(since@);
        push_text(&mut out, join_texts(since.as_slice(), " "));
        assert(lines.push(line).map_values(written) =~= lines.map_values(written).push(
            joined(line, " "@),
        ));
    }
    out
}

fn push_block(out: &mut Vec<String>, block: &str)
    ensures
        texts(final(out)@) == texts(old(out)@) + block_utterances(block@),
{
    let ghost before = texts(out@);
    let words: Vec<String> = words_of_text(block);
    assert(texts(words@).len() == words@.len());
    if words.len() == 0 {
        assert(texts(out@) =~= before + Seq::empty());
    } else if words.len() <= LINE_WORDS {
        push_text(out, trim_text(block));
        assert(texts(out@) =~= before + seq![trimmed(block@)]);
    } else {
        let lines: Vec<String> = break_words(&words);
        let ghost more = texts(lines@);
        assert(texts(out@) =~= before + more.take(0));
        for line in it: lines
            invariant
                more == texts(it.seq()),
                texts(out@) == before + more.take(it.index() as int),
        {
            proof {
                lemma_prefix_step(more, it.index() as int);
                assert(more[it.index() as int] == line@);
            }
            push_text(out, line);
            assert(texts(out@) =~= before + more.take(it.index() as int + 1));
        }
        assert(more.take(more.len() as int) =~= more);
    }
}

/// A text as utterances: its lines, those longer than a breath broken at
/// sentence ends.
pub fn split(text: &str) -> (r: Vec<String>)
    ensures
        texts(r@) == utterances(text@),
{
    let chars: Vec<char> = chars_of(text);
    let mut plain: Vec<char> = Vec::new();
    let mut i: usize = 0;
    while i < chars.len()
        invariant
            i <= chars.len(),
            chars@ == text@,
            plain@ == plain_breaks(text@).take(i as int),
        decreases chars.len() - i,
    {
        plain.push(
            if chars[i] == '\r' {
                '\n'
            } else {
                chars[i]
            },
        );
        i += 1;
        assert(plain@ =~= plain_breaks(text@).take(i as int));
    }
    assert(plain@ =~= plain_breaks(text@));
    let blocks: Vec<Vec<char>> = split_at_char(plain.as_slice(), '\n');
    let ghost all = chars_list(blocks@);
    let mut out: Vec<String> = Vec::new();
    let mut k: usize = 0;
    assert(all.len() == blocks@.len());
    assert(texts(out@) =~= all_utterances(all.take(0)));
    while k < blocks.len()
        invariant
            k <= blocks.len(),
            all == chars_list(blocks@),
            all.len() == blocks@.len(),
            texts(out@) == all_utterances(all.take(k as int)),
        decreases blocks.len() - k,
    {
        proof {
            lemma_prefix_step(all, k as int);
            assert(all[k as int] == blocks@[k as int]@);
        }
        push_block(&mut out, text_of(blocks[k].as_slice()).as_str());
        k += 1;
    }
    assert(all.take(all.len() as int) =~= all);
    out
}

// -------------------------------------------------------------- nothing is lost

/// The words of several texts, one after another.
pub open spec fn words_of_all(list: Seq<Seq<char>>) -> Seq<Seq<char>>
    decreases list.len(),
{
    if list.len() == 0 {
        Seq::empty()
    } else {
        words_of_all(list.drop_last()) + split_whitespace(list.last())
    }
}

proof fn lemma_words_of_all_add(a: Seq<Seq<char>>, b: Seq<Seq<char>>)
    ensures
        words_of_all(a + b) == words_of_all(a) + words_of_all(b),
    decreases b.len(),
{
    if b.len() == 0 {
        assert(a + b =~= a);
        assert(words_of_all(a) + words_of_all(b) =~= words_of_all(a));
    } else {
        lemma_words_of_all_add(a, b.drop_last());
        assert((a + b).drop_last() =~= a + b.drop_last());
        assert((a + b).last() == b.last());
        assert(words_of_all(a + b) =~= words_of_all(a) + words_of_all(b));
    }
}

proof fn lemma_plain_breaks(text: Seq<char>)
    ensures
        fields(plain_breaks(text)) == fields(text),
    decreases text.len(),
{
    if text.len() > 0 {
        lemma_plain_breaks(text.drop_last());
        assert(plain_breaks(text).drop_last() =~= plain_breaks(text.drop_last()));
    } else {
        assert(plain_breaks(text) =~= text);
    }
}

/// A text is what stands before its last piece, and that piece; and the words
/// before are those of the pieces before.
proof fn lemma_pieces(s: Seq<char>)
    ensures
        ({
            let pieces = split_on(s, '\n');
            let last = pieces.last();
            let cut = s.len() - last.len();
            &&& pieces.len() > 0
            &&& 0 <= cut
            &&& s.skip(cut) == last
            &&& fields(s.take(cut)).1.len() == 0
            &&& fields(s.take(cut)).0 == words_of_all(pieces.drop_last())
        }),
    decreases s.len(),
{
    let pieces = split_on(s, '\n');
    if s.len() == 0 {
        assert(pieces.drop_last() =~= Seq::empty());
        assert(s.skip(0) =~= pieces.last());
        assert(s.take(0) =~= s);
    } else {
        let front = s.drop_last();
        lemma_pieces(front);
        let before = split_on(front, '\n');
        let open = before.last();
        let cut = front.len() - open.len();
        if s.last() == '\n' {
            assert(pieces.drop_last() =~= before);
            assert(s.skip(s.len() as int) =~= pieces.last());
            assert(s.take(s.len() as int) =~= s);
            lemma_fields_append(front.take(cut), open);
            assert(front.take(cut) + open =~= front) by {
                assert(front =~= front.take(cut) + front.skip(cut));
            }
            assert(before =~= before.drop_last().push(open));
            assert(words_of_all(before) == words_of_all(before.drop_last()) + split_whitespace(
                open,
            ));
            assert(fields(s).0 =~= words_of_all(before));
        } else {
            let last = open.push(s.last());
            assert(pieces.last() == last);
            assert(pieces.drop_last() =~= before.drop_last());
            assert(s.take(cut) =~= front.take(cut));
            assert(s.skip(cut) =~= front.skip(cut).push(s.last()));
        }
    }
}

proof fn lemma_words_of_pieces(s: Seq<char>)
    ensures
        words_of_all(split_on(s, '\n')) == split_whitespace(s),
{
    lemma_pieces(s);
    let pieces = split_on(s, '\n');
    let last = pieces.last();
    let cut = s.len() - last.len();
    lemma_fields_append(s.take(cut), last);
    assert(s =~= s.take(cut) + s.skip(cut));
    assert(words_of_all(pieces) =~= split_whitespace(s));
}

/// The words of several lines of words.
spec fn flat(lines: Seq<Seq<Seq<char>>>) -> Seq<Seq<char>>
    decreases lines.len(),
{
    if lines.len() == 0 {
        Seq::empty()
    } else {
        flat(lines.drop_last()) + lines.last()
    }
}

spec fn all_words(words: Seq<Seq<char>>) -> bool {
    forall|i: int| 0 <= i < words.len() ==> is_word(#[trigger] words[i])
}

spec fn good_lines(lines: Seq<Seq<Seq<char>>>) -> bool {
    forall|i: int|
        0 <= i < lines.len() ==> all_words(#[trigger] lines[i]) && 0 < lines[i].len() <= LINE_WORDS
            * 2
}

proof fn lemma_breaking(words: Seq<Seq<char>>)
    requires
        all_words(words),
    ensures
        flat(breaking(words).0) + breaking(words).1 == words,
        good_lines(breaking(words).0),
        all_words(breaking(words).1),
        breaking(words).1.len() < LINE_WORDS * 2,
    decreases words.len(),
{
    if words.len() == 0 {
        assert(flat(breaking(words).0) + breaking(words).1 =~= words);
    } else {
        let front = words.drop_last();
        assert forall|i: int| 0 <= i < front.len() implies is_word(#[trigger] front[i]) by {
            assert(front[i] == words[i]);
        }
        lemma_breaking(front);
        let (lines, since) = breaking(front);
        let now = since.push(words.last());
        assert(is_word(words[words.len() - 1]));
        assert(all_words(now));
        assert(flat(lines) + now =~= (flat(lines) + since).push(words.last()));
        assert(front.push(words.last()) =~= words);
        if is_line(now) {
            assert(lines.push(now).drop_last() =~= lines);
            assert(flat(lines.push(now)) + Seq::<Seq<char>>::empty() =~= words);
        }
    }
}

proof fn lemma_written_words(lines: Seq<Seq<Seq<char>>>)
    requires
        good_lines(lines),
    ensures
        words_of_all(lines.map_values(|line: Seq<Seq<char>>| joined(line, " "@))) == flat(lines),
    decreases lines.len(),
{
    let written = |line: Seq<Seq<char>>| joined(line, " "@);
    if lines.len() > 0 {
        let front = lines.drop_last();
        assert forall|i: int| 0 <= i < front.len() implies all_words(#[trigger] front[i]) && 0
            < front[i].len() <= LINE_WORDS * 2 by {
            assert(front[i] == lines[i]);
        }
        lemma_written_words(front);
        assert(lines.map_values(written).drop_last() =~= front.map_values(written));
        assert(all_words(lines[lines.len() - 1]));
        lemma_split_joined(lines.last());
    } else {
        assert(lines.map_values(written) =~= Seq::empty());
    }
}

proof fn lemma_block_words(block: Seq<char>)
    ensures
        words_of_all(block_utterances(block)) == split_whitespace(block),
        forall|i: int|
            0 <= i < block_utterances(block).len() ==> 0 < split_whitespace(
                #[trigger] block_utterances(block)[i],
            ).len() <= LINE_WORDS * 2,
{
    let words = split_whitespace(block);
    lemma_split_whitespace(block);
    lemma_split_trimmed(block);
    let out = block_utterances(block);
    if words.len() == 0 {
        assert(words_of_all(out) =~= words);
    } else if words.len() <= LINE_WORDS {
        assert(out.drop_last() =~= Seq::empty());
        assert(words_of_all(out.drop_last()) =~= Seq::empty());
        assert(words_of_all(out) =~= words);
    } else {
        lemma_breaking(words);
        let (lines, since) = breaking(words);
        let all = broken(words);
        if since.len() > 0 {
            assert(all.drop_last() =~= lines);
            assert(good_lines(all));
        } else {
            assert(flat(lines) + since =~= flat(lines));
        }
        assert(flat(all) =~= words);
        lemma_written_words(all);
        assert forall|i: int| 0 <= i < out.len() implies 0 < split_whitespace(
            #[trigger] out[i],
        ).len() <= LINE_WORDS * 2 by {
            assert(all_words(all[i]));
            lemma_split_joined(all[i]);
        }
    }
}

proof fn lemma_all_utterances(blocks: Seq<Seq<char>>)
    ensures
        words_of_all(all_utterances(blocks)) == words_of_all(blocks),
        forall|i: int|
            0 <= i < all_utterances(blocks).len() ==> 0 < split_whitespace(
                #[trigger] all_utterances(blocks)[i],
            ).len() <= LINE_WORDS * 2,
    decreases blocks.len(),
{
    if blocks.len() > 0 {
        let front = blocks.drop_last();
        lemma_all_utterances(front);
        lemma_block_words(blocks.last());
        lemma_words_of_all_add(all_utterances(front), block_utterances(blocks.last()));
        assert forall|i: int| 0 <= i < all_utterances(blocks).len() implies 0 < split_whitespace(
            #[trigger] all_utterances(blocks)[i],
        ).len() <= LINE_WORDS * 2 by {
            let done = all_utterances(front);
            if i < done.len() {
                assert(all_utterances(blocks)[i] == done[i]);
            } else {
                assert(all_utterances(blocks)[i] == block_utterances(blocks.last())[i
                    - done.len()]);
            }
        }
    }
}

/// Every word of a text is in its utterances, once and in order.
pub proof fn law_every_word_is_kept(text: Seq<char>)
    ensures
        words_of_all(utterances(text)) == split_whitespace(text),
{
    lemma_all_utterances(split_on(plain_breaks(text), '\n'));
    lemma_words_of_pieces(plain_breaks(text));
    lemma_plain_breaks(text);
}

/// No utterance is empty, and none grows without limit.
pub proof fn law_no_line_grows_without_limit(text: Seq<char>, i: int)
    requires
        0 <= i < utterances(text).len(),
    ensures
        0 < split_whitespace(utterances(text)[i]).len() <= LINE_WORDS * 2,
{
    lemma_all_utterances(split_on(plain_breaks(text), '\n'));
}

// ------------------------------------------------------------------ recording

/// The session being written to.
#[derive(Debug, Clone, Copy, PartialEq, Eq, Structural)]
pub struct Open {
    pub id: i64,
    pub started_at: i64,
}

/// One settled utterance on its way into the store.
#[derive(Debug, PartialEq, Eq)]
pub struct Appended {
    pub session: i64,
    /// Milliseconds from the start of the session.
    pub at_ms: i64,
    pub text: String,
    /// How many words it adds to the session.
    pub words: usize,
}

/// A session that is to be closed, and when.
#[derive(Debug, Clone, Copy, PartialEq, Eq, Structural)]
pub struct Closing {
    pub id: i64,
    pub at: i64,
}

/// Which session is being recorded, if any. Times are milliseconds since 1970.
pub struct Recorder {
    open: Option<Open>,
}

impl View for Recorder {
    type V = Option<Open>;

    closed spec fn view(&self) -> Option<Open> {
        self.open
    }
}

pub open spec fn closing(open: Option<Open>, now: i64) -> Option<Closing> {
    match open {
        Some(open) => Some(Closing { id: open.id, at: now }),
        None => None,
    }
}

impl Recorder {
    pub fn new() -> (r: Recorder)
        ensures
            r@ is None,
    {
        Recorder { open: None }
    }

    /// Makes way for a new session: one left open is to be closed first. Its
    /// words are still worth keeping, and stitching them onto the next service
    /// would be worse.
    pub fn begin(&mut self, now: i64) -> (r: Option<Closing>)
        ensures
            r == closing(old(self)@, now),
            final(self)@ is None,
    {
        self.end(now)
    }

    /// Notes the session that the store has opened.
    pub fn began(&mut self, id: i64, started_at: i64)
        ensures
            final(self)@ == Some(Open { id, started_at }),
    {
        self.open = Some(Open { id, started_at });
    }

    /// What one settled utterance adds to the open session: nothing when it is
    /// blank, and nothing when none is open, because speech can settle a moment
    /// after the operator pressed stop.
    pub fn append(&self, text: &str, now: i64) -> (r: Option<Appended>)
        requires
            self@ matches Some(open) ==> i64::MIN <= now - open.started_at <= i64::MAX,
        ensures
            match self@ {
                Some(open) if !blank(text@) => r matches Some(line) && line.session == open.id
                    && line.at_ms == now - open.started_at && line.text@ == trimmed(text@)
                    && line.words == split_whitespace(text@).len(),
                _ => r is None,
            },
    {
        if is_blank(text) {
            return None;
        }
        match self.open {
            Some(open) => {
                let words: Vec<String> = words_of_text(text);
                assert(texts(words@).len() == words@.len());
                Some(
                    Appended {
                        session: open.id,
                        at_ms: now - open.started_at,
                        text: trim_text(text),
                        words: words.len(),
                    },
                )
            },
            None => None,
        }
    }

    /// The session to close, if one is open.
    pub fn end(&mut self, now: i64) -> (r: Option<Closing>)
        ensures
            r == closing(old(self)@, now),
            final(self)@ is None,
    {
        match self.open {
            Some(open) => {
                self.open = None;
                Some(Closing { id: open.id, at: now })
            },
            None => None,
        }
    }
}

// ------------------------------------------------------------------- importing

/// Words at a steady pace, in milliseconds.
pub open spec fn spoken_for(words: nat) -> int {
    (words * 60_000) as int / WORDS_A_MINUTE as int
}

/// Words at a steady pace, in milliseconds. A guess and only ever a guess: an
/// imported file carries no timings at all.
pub fn duration_ms(words: usize) -> (r: i64)
    requires
        words * 60_000 <= i64::MAX,
    ensures
        r == spoken_for(words as nat),
{
    words as i64 * 60_000 / WORDS_A_MINUTE
}

/// A service that was written down somewhere else, on its way into the store.
#[derive(Debug, PartialEq, Eq)]
pub struct Import {
    pub started_at: i64,
    pub ended_at: i64,
    pub title: String,
    pub word_count: i64,
    pub lines: Vec<Line>,
}

/// Utterances with the times they are made up to have: each begins when the
/// words before it have been spoken.
pub open spec fn timed(list: Seq<Seq<char>>) -> Seq<Spoken> {
    Seq::new(
        list.len(),
        |i: int|
            Spoken { at_ms: spoken_for(words_of_all(list.take(i)).len()) as i64, text: list[i] },
    )
}

/// A service from text that was written somewhere else. It is spaced at a steady
/// reading pace. A file with no words is refused.
pub fn import(title: &str, text: &str, now: i64) -> (r: Result<Import, String>)
    requires
        split_whitespace(text@).len() * 60_000 <= i64::MAX,
        now + spoken_for(split_whitespace(text@).len()) <= i64::MAX,
    ensures
        split_whitespace(text@).len() == 0 ==> (r matches Err(words) && words@
            == "there are no words in that file"@),
        split_whitespace(text@).len() > 0 ==> (r matches Ok(import) && {
            &&& import.started_at == now
            &&& import.ended_at == now + spoken_for(split_whitespace(text@).len())
            &&& import.title@ == trimmed(title@)
            &&& import.word_count == split_whitespace(text@).len()
            &&& views(import.lines@) == timed(utterances(text@))
        }),
{
    let all_words: Vec<String> = words_of_text(text);
    let total: usize = all_words.len();
    assert(texts(all_words@).len() == total);
    let parts: Vec<String> = split(text);
    let ghost all = utterances(text@);
    proof {
        law_every_word_is_kept(text@);
        assert(texts(parts@).len() == parts@.len());
        if all.len() > 0 {
            law_no_line_grows_without_limit(text@, 0);
            lemma_words_grow(all, 1, all.len() as int);
            assert(all.take(1).drop_last() =~= Seq::empty());
            assert(all.take(1).last() == all[0]);
            assert(all.take(all.len() as int) =~= all);
        }
    }
    if parts.len() == 0 {
        assert(words_of_all(all).len() == 0);
        return Err("there are no words in that file".to_owned());
    }
    let mut lines: Vec<Line> = Vec::new();
    let mut so_far: usize = 0;
    assert(all.take(0) =~= Seq::empty());
    for part in it: parts
        invariant
            all == texts(it.seq()),
            words_of_all(all) == split_whitespace(text@),
            split_whitespace(text@).len() * 60_000 <= i64::MAX,
            split_whitespace(text@).len() == total,
            so_far == words_of_all(all.take(it.index() as int)).len(),
            lines.len() == it.index(),
            forall|k: int| 0 <= k < it.index() ==> (#[trigger] lines@[k])@ == timed(all)[k],
    {
        proof {
            lemma_words_grow(all, it.index() as int, all.len() as int);
            lemma_words_grow(all, it.index() as int + 1, all.len() as int);
            assert(all.take(all.len() as int) =~= all);
            lemma_prefix_step(all, it.index() as int);
            assert(all[it.index() as int] == part@);
        }
        let words: Vec<String> = words_of_text(part.as_str());
        assert(texts(words@).len() == words@.len());
        let at_ms: i64 = duration_ms(so_far);
        so_far = so_far + words.len();
        lines.push(Line { at_ms, text: part });
    }
    assert(all.take(all.len() as int) =~= all);
    assert(views(lines@) =~= timed(all));
    Ok(
        Import {
            started_at: now,
            ended_at: now + duration_ms(total),
            title: trim_text(title),
            word_count: total as i64,
            lines,
        },
    )
}

proof fn lemma_words_grow(list: Seq<Seq<char>>, i: int, j: int)
    requires
        0 <= i <= j <= list.len(),
    ensures
        words_of_all(list.take(i)).len() <= words_of_all(list.take(j)).len(),
    decreases j - i,
{
    if i < j {
        lemma_words_grow(list, i, j - 1);
        lemma_prefix_step(list, j - 1);
    }
}

/// An imported service has a length: its first line is at its start, and each
/// line comes after the one before it.
pub proof fn law_imported_lines_advance(text: Seq<char>, i: int)
    requires
        0 <= i,
        i + 1 < utterances(text).len(),
        split_whitespace(text).len() * 60_000 <= i64::MAX,
    ensures
        timed(utterances(text))[0].at_ms == 0,
        timed(utterances(text))[i].at_ms < timed(utterances(text))[i + 1].at_ms,
{
    let all = utterances(text);
    law_every_word_is_kept(text);
    law_no_line_grows_without_limit(text, i);
    lemma_prefix_step(all, i);
    lemma_words_grow(all, i + 1, all.len() as int);
    assert(all.take(all.len() as int) =~= all);
    assert(all.take(0) =~= Seq::empty());
    assert(words_of_all(all.take(0)).len() == 0);
}

// ------------------------------------------------------------------- searching

pub open spec fn is_not_quote() -> spec_fn(char) -> bool {
    |c: char| c != '"'
}

/// What the index is asked for: the words as one quoted phrase, so that
/// punctuation is searched for rather than understood.
pub open spec fn quoted(query: Seq<char>) -> Seq<char> {
    "\""@ + trimmed(query).filter(is_not_quote()) + "\""@
}

/// What the index is asked for, or nothing where there is nothing to search
/// for and every session is listed.
pub fn search_phrase(query: &str) -> (r: Option<String>)
    ensures
        blank(query@) ==> r is None,
        !blank(query@) ==> (r matches Some(phrase) && phrase@ == quoted(query@)),
{
    if is_blank(query) {
        return None;
    }
    let words: String = remove_char(trim_text(query).as_str(), '"');
    assert(words@ == trimmed(query@).filter(is_not_quote())) by {
        assert((|c: char| c != '"') =~= is_not_quote());
    }
    let mut phrase: String = "\"".to_owned();
    phrase.push_str(words.as_str());
    phrase.push_str("\"");
    Some(phrase)
}

/// Whatever is searched for, the only quotes in the phrase are the two around
/// it.
pub proof fn law_punctuation_does_not_break_a_search(query: Seq<char>, i: int)
    requires
        0 <= i < quoted(query).len(),
    ensures
        quoted(query)[i] == '"' <==> i == 0 || i == quoted(query).len() - 1,
{
    reveal_strlit("\"");
    let inner = trimmed(query).filter(is_not_quote());
    if 0 < i < quoted(query).len() - 1 {
        trimmed(query).lemma_filter_pred(is_not_quote(), i - 1);
        assert(quoted(query)[i] == inner[i - 1]);
    }
}

// ---------------------------------------------------------------------- topics

/// A list of texts as serde_json writes it.
pub uninterp spec fn topics_text(topics: Seq<Seq<char>>) -> Seq<char>;

pub open spec fn topic_list(topics: Seq<Seq<char>>) -> Tree {
    Tree::List(topics.map_values(|t: Seq<char>| Tree::Text(t)))
}

/// `serde_json::to_string` of a list of texts, which cannot fail. What it writes
/// depends on the texts alone, and is read back as them.
#[verifier::external_body]
fn encode_topics(topics: &[String]) -> (r: String)
    ensures
        r@ == topics_text(texts(topics@)),
        json_of(r@) is Ok && json_of(r@)->Ok_0 == topic_list(texts(topics@)),
{
    serde_json::to_string(topics).unwrap_or_default()
}

/// How a session's topics are stored.
pub fn write_topics(topics: &[String]) -> (r: String)
    ensures
        r@ == topics_text(texts(topics@)),
        topics_in(json_of(r@)) == texts(topics@),
{
    let out: String = encode_topics(topics);
    proof {
        lemma_topics(texts(topics@));
    }
    out
}

pub open spec fn is_text(tree: Tree) -> bool {
    tree is Text
}

/// The topics that a stored text holds: none where it is no list of texts.
pub open spec fn topics_in(stored: Result<Tree, Seq<char>>) -> Seq<Seq<char>> {
    match stored {
        Ok(Tree::List(items)) if forall|i: int| 0 <= i < items.len() ==> is_text(#[trigger] items[i])
            => items.map_values(|t: Tree| t->Text_0),
        _ => Seq::empty(),
    }
}

proof fn lemma_topics(topics: Seq<Seq<char>>)
    ensures
        topics_in(Ok(topic_list(topics))) == topics,
{
    let items = topic_list(topics)->List_0;
    assert forall|i: int| 0 <= i < items.len() implies is_text(#[trigger] items[i]) by {}
    assert(items.map_values(|t: Tree| t->Text_0) =~= topics);
}

/// The topics that a stored list holds, once it has been read as JSON.
pub fn topics_of(stored: &Json) -> (r: Vec<String>)
    ensures
        texts(r@) == topics_in(Ok(stored@)),
{
    let mut out: Vec<String> = Vec::new();
    let items: &Vec<Json> = match stored {
        Json::List(items) => items,
        _ => {
            assert(texts(out@) =~= Seq::empty());
            return out;
        },
    };
    let ghost all = trees(items@);
    proof {
        lemma_trees(items@);
    }
    let mut i: usize = 0;
    while i < items.len()
        invariant
            i <= items.len(),
            stored@ == Tree::List(all),
            all.len() == items@.len(),
            forall|k: int| 0 <= k < items@.len() ==> #[trigger] all[k] == tree(items@[k]),
            out.len() == i,
            forall|k: int| 0 <= k < i ==> is_text(#[trigger] all[k]) && all[k]->Text_0 == out@[k]@,
        decreases items.len() - i,
    {
        assert(all[i as int] == items@[i as int]@);
        match &items[i] {
            Json::Text(text) => {
                out.push(text.clone());
            },
            _ => {
                assert(!is_text(all[i as int]));
                let none: Vec<String> = Vec::new();
                assert(texts(none@) =~= Seq::empty());
                return none;
            },
        }
        i += 1;
    }
    assert(texts(out@) =~= all.map_values(|t: Tree| t->Text_0));
    out
}

/// The topics that a stored text holds.
pub fn read_topics(stored: &str) -> (r: Vec<String>)
    ensures
        texts(r@) == topics_in(json_of(stored@)),
{
    match read_json(stored) {
        Ok(json) => topics_of(&json),
        Err(_) => {
            let none: Vec<String> = Vec::new();
            assert(texts(none@) =~= Seq::empty());
            none
        },
    }
}

// --------------------------------------------------------------------- listing

/// A session as contracts speak of it.
pub struct Account {
    pub id: i64,
    pub started_at: i64,
    pub ended_at: Option<i64>,
    pub title: Seq<char>,
    pub summary: Seq<char>,
    pub topics: Seq<Seq<char>>,
    pub word_count: i64,
}

impl View for Session {
    type V = Account;

    open spec fn view(&self) -> Account {
        Account {
            id: self.id,
            started_at: self.started_at,
            ended_at: self.ended_at,
            title: self.title@,
            summary: self.summary@,
            topics: texts(self.topics@),
            word_count: self.word_count,
        }
    }
}

/// The most recent first. The id breaks the tie: two sessions can begin in the
/// same millisecond.
pub open spec fn later_first() -> spec_fn(Account, Account) -> bool {
    |a: Account, b: Account|
        a.started_at > b.started_at || (a.started_at == b.started_at && a.id > b.id)
}

/// As many of the most recent sessions as are asked for: all of them where the
/// number is negative.
pub open spec fn most_recent(sessions: Seq<Account>, limit: i64) -> Seq<Account> {
    let all = sorted(sessions, later_first());
    if limit < 0 || limit >= all.len() {
        all
    } else {
        all.take(limit as int)
    }
}

/// Sessions, most recent first.
pub fn list(sessions: Vec<Session>, limit: i64) -> (r: Vec<Session>)
    ensures
        views(r@) == most_recent(views(sessions@), limit),
{
    let before = |a: &Session, b: &Session| -> (r: bool)
        ensures
            r == (a@.started_at > b@.started_at || (a@.started_at == b@.started_at && a@.id
                > b@.id)),
        { a.started_at > b.started_at || (a.started_at == b.started_at && a.id > b.id) };
    let mut all: Vec<Session> = sort(sessions, before, Ghost(later_first()));
    let ghost ordered = views(all@);
    assert(ordered.len() == all@.len());
    if limit >= 0 && (limit as u64) < all.len() as u64 {
        all.truncate(limit as usize);
        assert(views(all@) =~= ordered.take(limit as int));
    }
    all
}

/// The list is in order, the most recent first, and nothing is left out of it
/// but what is beyond the limit.
pub proof fn law_the_list_is_most_recent_first(sessions: Seq<Account>, limit: i64)
    ensures
        in_order(most_recent(sessions, limit), later_first()),
        limit < 0 || limit >= sessions.len() ==> most_recent(sessions, limit).to_multiset()
            == sessions.to_multiset(),
        0 <= limit < sessions.len() ==> most_recent(sessions, limit).len() == limit,
{
    let before = later_first();
    assert forall|a: Account, b: Account| #[trigger] before(a, b) implies !before(b, a) by {}
    assert forall|a: Account, b: Account, c: Account|
        !(#[trigger] before(a, b)) && !(#[trigger] before(b, c)) implies !before(a, c) by {}
    lemma_sorted(sessions, before);
    let all = sorted(sessions, before);
    assert forall|i: int, j: int|
        0 <= i < j < most_recent(sessions, limit).len() implies !before(
        #[trigger] most_recent(sessions, limit)[j],
        #[trigger] most_recent(sessions, limit)[i],
    ) by {
        assert(most_recent(sessions, limit)[i] == all[i]);
        assert(most_recent(sessions, limit)[j] == all[j]);
    }
}

// -------------------------------------------------------------------- removing

/// One step of removing a session from the store.
#[derive(Debug, Clone, Copy, PartialEq, Eq, Structural)]
pub enum Wipe {
    /// What the index has of the session's lines.
    Index,
    /// The session's lines.
    Lines,
    /// The session itself.
    Session,
}

/// What the store has of sessions: which there are, whose each line is, and
/// which lines the index finds.
pub struct Store {
    pub sessions: Set<i64>,
    pub lines: Map<i64, i64>,
    pub index: Set<i64>,
}

/// Whether a line is one of a session's.
pub open spec fn is_of(store: Store, line: i64, id: i64) -> bool {
    store.lines.contains_key(line) && store.lines[line] == id
}

/// What a step makes of the store. The index does not know whose a line is: it
/// is found out from the lines there are.
pub open spec fn wiped(store: Store, id: i64, step: Wipe) -> Store {
    match step {
        Wipe::Index => Store {
            index: store.index.filter(|line: i64| !is_of(store, line, id)),
            ..store
        },
        Wipe::Lines => Store {
            lines: store.lines.remove_keys(
                Set::new(|line: i64| is_of(store, line, id)),
            ),
            ..store
        },
        Wipe::Session => Store { sessions: store.sessions.remove(id), ..store },
    }
}

/// What several steps make of the store, one after another.
pub open spec fn all_wiped(store: Store, id: i64, steps: Seq<Wipe>) -> Store
    decreases steps.len(),
{
    if steps.len() == 0 {
        store
    } else {
        wiped(all_wiped(store, id, steps.drop_last()), id, steps.last())
    }
}

/// How a session is removed. The index goes first, or it would keep finding
/// lines that are no longer there.
pub fn removal() -> (r: Vec<Wipe>)
    ensures
        r@ == seq![Wipe::Index, Wipe::Lines, Wipe::Session],
{
    let mut steps: Vec<Wipe> = Vec::new();
    steps.push(Wipe::Index);
    steps.push(Wipe::Lines);
    steps.push(Wipe::Session);
    assert(steps@ =~= seq![Wipe::Index, Wipe::Lines, Wipe::Session]);
    steps
}

/// Removing a session takes its words out of the index and leaves every other
/// session alone.
pub proof fn law_removing_takes_the_words_out_of_the_index(store: Store, id: i64, line: i64)
    requires
        store.index.subset_of(store.lines.dom()),
    ensures
        ({
            let after = all_wiped(store, id, seq![Wipe::Index, Wipe::Lines, Wipe::Session]);
            &&& !after.sessions.contains(id)
            &&& is_of(store, line, id) ==> !after.index.contains(line) && !after.lines.contains_key(
                line,
            )
            &&& !is_of(store, line, id) ==> after.index.contains(line) == store.index.contains(line)
                && after.lines.contains_key(line) == store.lines.contains_key(line)
            &&& after.index.subset_of(after.lines.dom())
        }),
{
    let steps = seq![Wipe::Index, Wipe::Lines, Wipe::Session];
    reveal_with_fuel(all_wiped, 4);
    assert(steps.drop_last() =~= seq![Wipe::Index, Wipe::Lines]);
    assert(steps.drop_last().drop_last() =~= seq![Wipe::Index]);
    assert(steps.drop_last().drop_last().drop_last() =~= Seq::empty());
}

// -------------------------------------------------------------- where it breaks

/// Whether a line of words was broken where it should be: after twenty words or
/// more at the end of a sentence, or else after eighty, and no sooner and no
/// later.
pub open spec fn is_broken_well(line: Seq<Seq<char>>) -> bool {
    &&& line.len() >= 20
    &&& ends_sentence(line.last()) || line.len() == 80
    &&& runs_on(line.drop_last())
}

/// Whether words are not yet a line: no sentence ends among them from the
/// twentieth on, and there are fewer than eighty.
pub open spec fn runs_on(words: Seq<Seq<char>>) -> bool {
    &&& words.len() < 80
    &&& forall|k: int| 19 <= k < words.len() ==> !ends_sentence(#[trigger] words[k])
}

/// Lines of words as texts.
pub open spec fn written(lines: Seq<Seq<Seq<char>>>) -> Seq<Seq<char>> {
    lines.map_values(|line: Seq<Seq<char>>| joined(line, " "@))
}

proof fn lemma_broken_well(words: Seq<Seq<char>>)
    ensures
        runs_on(breaking(words).1),
        forall|i: int|
            0 <= i < breaking(words).0.len() ==> is_broken_well(#[trigger] breaking(words).0[i]),
    decreases words.len(),
{
    if words.len() > 0 {
        lemma_broken_well(words.drop_last());
        let (lines, since) = breaking(words.drop_last());
        let now = since.push(words.last());
        assert(now.drop_last() =~= since);
        if is_line(now) {
            assert(is_broken_well(now));
            assert forall|i: int| 0 <= i < lines.push(now).len() implies is_broken_well(
                #[trigger] lines.push(now)[i],
            ) by {
                if i < lines.len() {
                    assert(lines.push(now)[i] == lines[i]);
                }
            }
        } else {
            assert forall|k: int| 19 <= k < now.len() implies !ends_sentence(#[trigger] now[k]) by {
                if k < since.len() {
                    assert(now[k] == since[k]);
                }
            }
        }
    }
}

/// A line of text that is no longer than a breath, forty words, is one utterance
/// as it stands, without the space around it.
pub proof fn law_a_short_line_stays_as_it_is(text: Seq<char>)
    requires
        !text.contains('\n'),
        !text.contains('\r'),
        0 < split_whitespace(text).len() <= 40,
    ensures
        utterances(text) == seq![trimmed(text)],
{
    assert forall|k: int| 0 <= k < text.len() implies plain_breaks(text)[k]
        == #[trigger] text[k] by {
        assert(text.contains(text[k]));
    }
    assert(plain_breaks(text) =~= text);
    lemma_split_on_one(text, '\n');
    assert(seq![text].drop_last() =~= Seq::empty());
    assert(seq![text].last() == text);
    assert(all_utterances(Seq::empty()) + block_utterances(text) =~= block_utterances(text));
}

/// A longer line is broken into utterances that are its words, a space between
/// each. All but the last end where a sentence ends, after twenty words or more,
/// or else after eighty; and none runs past such a place.
pub proof fn law_a_long_line_is_broken_at_sentence_ends(text: Seq<char>)
    requires
        !text.contains('\n'),
        !text.contains('\r'),
        split_whitespace(text).len() > 40,
    ensures
        exists|lines: Seq<Seq<Seq<char>>>|
            {
                &&& #[trigger] written(lines) == utterances(text)
                &&& lines.len() > 0
                &&& forall|i: int| 0 <= i < lines.len() - 1 ==> is_broken_well(#[trigger] lines[i])
                &&& is_broken_well(lines.last()) || (lines.last().len() > 0 && runs_on(
                    lines.last(),
                ))
            },
{
    assert forall|k: int| 0 <= k < text.len() implies plain_breaks(text)[k]
        == #[trigger] text[k] by {
        assert(text.contains(text[k]));
    }
    assert(plain_breaks(text) =~= text);
    lemma_split_on_one(text, '\n');
    assert(seq![text].drop_last() =~= Seq::empty());
    assert(seq![text].last() == text);
    assert(all_utterances(Seq::empty()) + block_utterances(text) =~= block_utterances(text));
    let words = split_whitespace(text);
    lemma_broken_well(words);
    let lines = broken(words);
    let (done, since) = breaking(words);
    if since.len() == 0 && done.len() == 0 {
        law_every_word_is_kept(text);
        assert(lines.map_values(|line: Seq<Seq<char>>| joined(line, " "@)) =~= Seq::empty());
        assert(words_of_all(Seq::empty()).len() == 0);
    }
    assert forall|i: int| 0 <= i < lines.len() - 1 implies is_broken_well(#[trigger] lines[i]) by {
        assert(lines[i] == done[i]);
    }
    if since.len() == 0 {
        assert(is_broken_well(done[done.len() - 1]));
    }
    assert(written(lines) == utterances(text));
}

/// A line comes where the words before it have been spoken, at a hundred and
/// fifty words a minute, which is four tenths of a second for each.
pub proof fn law_words_take_four_tenths_of_a_second(text: Seq<char>, i: int)
    requires
        0 <= i < utterances(text).len(),
        split_whitespace(text).len() * 60_000 <= i64::MAX,
    ensures
        timed(utterances(text)).len() == utterances(text).len(),
        timed(utterances(text))[i].text == utterances(text)[i],
        timed(utterances(text))[i].at_ms == 400 * words_of_all(utterances(text).take(i)).len(),
        spoken_for(split_whitespace(text).len()) == 400 * split_whitespace(text).len(),
{
    let all = utterances(text);
    law_every_word_is_kept(text);
    lemma_words_grow(all, i, all.len() as int);
    assert(all.take(all.len() as int) =~= all);
}

/// What is searched for is the words as they were typed, as one phrase.
pub proof fn law_a_search_is_for_the_words_typed(query: Seq<char>)
    requires
        query.len() > 0,
        !whitespace(query[0]),
        !whitespace(query.last()),
        !query.contains('"'),
    ensures
        quoted(query) == seq!['"'] + query + seq!['"'],
{
    reveal_strlit("\"");
    assert("\""@ =~= seq!['"']);
    lemma_trimmed_already(query);
    lemma_all_kept(query);
}

proof fn lemma_all_kept(query: Seq<char>)
    requires
        !query.contains('"'),
    ensures
        query.filter(is_not_quote()) == query,
    decreases query.len(),
{
    reveal(Seq::filter);
    if query.len() > 0 {
        let front = query.drop_last();
        assert(query.contains(query[query.len() - 1]));
        assert forall|c: char| front.contains(c) implies query.contains(c) by {
            let k = choose|k: int| 0 <= k < front.len() && front[k] == c;
            assert(query[k] == c);
        }
        lemma_all_kept(front);
        assert(front.push(query.last()) =~= query);
    } else {
        assert(query.filter(is_not_quote()) =~= query);
    }
}

proof fn lemma_utterances_of_both(a: Seq<Seq<char>>, b: Seq<Seq<char>>)
    ensures
        all_utterances(a + b) == all_utterances(a) + all_utterances(b),
    decreases b.len(),
{
    if b.len() == 0 {
        assert(a + b =~= a);
        assert(all_utterances(a) + all_utterances(b) =~= all_utterances(a));
    } else {
        lemma_utterances_of_both(a, b.drop_last());
        assert((a + b).drop_last() =~= a + b.drop_last());
        assert(all_utterances(a + b) =~= all_utterances(a) + all_utterances(b));
    }
}

/// A line break, of whichever kind, ends an utterance: what stands before it and
/// what stands after it are written down as if each stood alone.
pub proof fn law_a_line_break_ends_an_utterance(before: Seq<char>, after: Seq<char>, fed: bool)
    ensures
        utterances(
            before + seq![
                if fed {
                    '\n'
                } else {
                    '\r'
                },
            ] + after,
        ) == utterances(before) + utterances(after),
{
    let mark: char = if fed {
        '\n'
    } else {
        '\r'
    };
    let whole = before + seq![mark] + after;
    assert(plain_breaks(whole) =~= plain_breaks(before) + seq!['\n'] + plain_breaks(after));
    lemma_split_on_both(plain_breaks(before), plain_breaks(after), '\n');
    lemma_utterances_of_both(
        split_on(plain_breaks(before), '\n'),
        split_on(plain_breaks(after), '\n'),
    );
}

} // verus!
