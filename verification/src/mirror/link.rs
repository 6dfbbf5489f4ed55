//! The link between the desk and a screen.
//!
//! Neither end holds a socket here. The desk is told what arrived and says what
//! goes out; the screen is told what arrived and says what to report and what
//! to answer. A dropped connection never produces a blank: what was last staged
//! stays until the desk deliberately stages something else.

use crate::mirror::pairing::{
    ascending, by_id, derive_token, is_code, judged, new_code, offering, open_at, proof_of, prove,
    token_of, Answer, Challenge, Door, Doorkeeper, Moment, Pairing, Reply, Ruling, Verdict,
};
use crate::text::{
    blank, copy_texts, is_blank, join_texts, joined, lemma_prefix_step, push_text, texts,
};
use vstd::prelude::*;

verus! {

/// How often the desk writes something, in seconds.
pub const HEARTBEAT: u64 = 5;

/// How long the screen waits before deciding the desk has gone, in seconds.
pub const SILENCE_MEANS_GONE: u64 = 16;

/// How long to wait before the first retry, in seconds.
pub const RETRY_FIRST: u64 = 1;

/// How far the wait between retries may grow, in seconds.
pub const RETRY_LONGEST: u64 = 8;

// --------------------------------------------------------------- what is shown

/// One verse of a passage.
#[derive(Debug, PartialEq, Eq)]
pub struct Line {
    /// Verse number, or zero for text that is not scripture.
    pub number: i64,
    pub text: String,
}

/// A comparison, as rows under headings.
#[derive(Debug, PartialEq, Eq)]
pub struct Table {
    pub header: Vec<String>,
    pub rows: Vec<Vec<String>>,
}

/// What the desk has staged. It carries no styling at all.
#[allow(inconsistent_fields)]
#[derive(Debug, PartialEq, Eq)]
pub enum Shown {
    Scripture {
        /// "John 3:16", as the desk resolved it.
        reference: String,
        translation: String,
        lines: Vec<Line>,
    },
    /// Lyrics, or any authored block, with a comparison where one was staged.
    Words { title: String, lines: Vec<String>, table: Option<Table> },
    /// Nothing is staged, or what is staged cannot be mirrored as text.
    Nothing,
}

/// How far through what it staged the desk has wound: the bits of a fraction
/// that is carried from one end to the other and never looked into.
#[derive(Debug, Clone, Copy, PartialEq, Eq, Structural)]
pub struct Wound {
    pub bits: u32,
}

pub open spec fn verses(lines: Seq<Line>) -> Seq<(i64, Seq<char>)> {
    lines.map_values(|l: Line| (l.number, l.text@))
}

pub open spec fn text_rows(rows: Seq<Vec<String>>) -> Seq<Seq<Seq<char>>> {
    rows.map_values(|r: Vec<String>| texts(r@))
}

/// A comparison as contracts speak of it.
pub struct Compared {
    pub header: Seq<Seq<char>>,
    pub rows: Seq<Seq<Seq<char>>>,
}

impl View for Table {
    type V = Compared;

    open spec fn view(&self) -> Compared {
        Compared { header: texts(self.header@), rows: text_rows(self.rows@) }
    }
}

/// What is staged as contracts speak of it.
#[allow(inconsistent_fields)]
pub enum Staging {
    Scripture {
        reference: Seq<char>,
        translation: Seq<char>,
        lines: Seq<(i64, Seq<char>)>,
    },
    Words { title: Seq<char>, lines: Seq<Seq<char>>, table: Option<Compared> },
    Nothing,
}

impl View for Shown {
    type V = Staging;

    open spec fn view(&self) -> Staging {
        match *self {
            Shown::Scripture { reference, translation, lines } => Staging::Scripture {
                reference: reference@,
                translation: translation@,
                lines: verses(lines@),
            },
            Shown::Words { title, lines, table } => Staging::Words {
                title: title@,
                lines: texts(lines@),
                table: match table {
                    Some(table) => Some(table@),
                    None => None,
                },
            },
            Shown::Nothing => Staging::Nothing,
        }
    }
}

/// A cell under its heading, when there is a heading to put it under.
pub open spec fn headed(header: Seq<Seq<char>>, at: int, cell: Seq<char>) -> Seq<char> {
    if 0 <= at < header.len() && !blank(header[at]) {
        header[at] + ": "@ + cell
    } else {
        cell
    }
}

/// One row as a line, each cell under its heading.
pub open spec fn row_line(header: Seq<Seq<char>>, row: Seq<Seq<char>>) -> Seq<char> {
    joined(Seq::new(row.len(), |at: int| headed(header, at, row[at])), " \u{b7} "@)
}

/// A comparison as lines.
pub open spec fn table_lines(table: Compared) -> Seq<Seq<char>> {
    table.rows.map_values(|row: Seq<Seq<char>>| row_line(table.header, row))
}

fn line_of(header: &[String], row: &[String]) -> (r: String)
    ensures
        r@ == row_line(texts(header@), texts(row@)),
{
    let ghost heads = texts(header@);
    let ghost shown = texts(row@);
    let ghost wanted = Seq::new(shown.len(), |at: int| headed(heads, at, shown[at]));
    let mut parts: Vec<String> = Vec::new();
    let mut at: usize = 0;
    assert(texts(parts@) =~= wanted.take(0));
    while at < row.len()
        invariant
            at <= row.len(),
            heads == texts(header@),
            shown == texts(row@),
            wanted == Seq::new(shown.len(), |k: int| headed(heads, k, shown[k])),
            texts(parts@) == wanted.take(at as int),
        decreases row.len() - at,
    {
        let mut part: String = String::new();
        if at < header.len() && !is_blank(header[at].as_str()) {
            part.push_str(header[at].as_str());
            part.push_str(": ");
        }
        part.push_str(row[at].as_str());
        assert(part@ =~= headed(heads, at as int, shown[at as int]));
        push_text(&mut parts, part);
        at += 1;
        assert(wanted.take(at as int) =~= wanted.take(at - 1).push(wanted[at - 1]));
    }
    assert(wanted.take(at as int) =~= wanted);
    join_texts(parts.as_slice(), " \u{b7} ")
}

impl Table {
    /// The same comparison as lines, for a screen that draws no tables.
    pub fn as_lines(&self) -> (r: Vec<String>)
        ensures
            texts(r@) == table_lines(self@),
    {
        let ghost wanted = table_lines(self@);
        let mut out: Vec<String> = Vec::new();
        let mut i: usize = 0;
        assert(texts(out@) =~= wanted.take(0));
        while i < self.rows.len()
            invariant
                i <= self.rows.len(),
                wanted == table_lines(self@),
                texts(out@) == wanted.take(i as int),
            decreases self.rows.len() - i,
        {
            let line: String = line_of(self.header.as_slice(), self.rows[i].as_slice());
            assert(line@ == wanted[i as int]);
            push_text(&mut out, line);
            i += 1;
            assert(wanted.take(i as int) =~= wanted.take(i - 1).push(wanted[i - 1]));
        }
        assert(wanted.take(i as int) =~= wanted);
        out
    }
}

impl Shown {
    /// Whether nothing is shown.
    pub fn is_nothing(&self) -> (r: bool)
        ensures
            r == (self@ is Nothing),
    {
        match self {
            Shown::Nothing => true,
            _ => false,
        }
    }
}

fn copy_lines(lines: &[Line]) -> (r: Vec<Line>)
    ensures
        verses(r@) == verses(lines@),
{
    let ghost all = verses(lines@);
    let mut out: Vec<Line> = Vec::new();
    let mut i: usize = 0;
    assert(verses(out@) =~= all.take(0));
    while i < lines.len()
        invariant
            i <= lines.len(),
            all == verses(lines@),
            verses(out@) == all.take(i as int),
        decreases lines.len() - i,
    {
        let line: Line = Line { number: lines[i].number, text: lines[i].text.clone() };
        let ghost before = verses(out@);
        out.push(line);
        i += 1;
        assert(verses(out@) =~= before.push((line.number, line.text@)));
        assert(all.take(i as int) =~= all.take(i - 1).push(all[i - 1]));
    }
    assert(all.take(i as int) =~= all);
    out
}

fn copy_rows(rows: &[Vec<String>]) -> (r: Vec<Vec<String>>)
    ensures
        text_rows(r@) == text_rows(rows@),
{
    let ghost all = text_rows(rows@);
    let mut out: Vec<Vec<String>> = Vec::new();
    let mut i: usize = 0;
    assert(text_rows(out@) =~= all.take(0));
    while i < rows.len()
        invariant
            i <= rows.len(),
            all == text_rows(rows@),
            text_rows(out@) == all.take(i as int),
        decreases rows.len() - i,
    {
        let row: Vec<String> = copy_texts(rows[i].as_slice());
        let ghost before = text_rows(out@);
        out.push(row);
        i += 1;
        assert(text_rows(out@) =~= before.push(texts(row@)));
        assert(all.take(i as int) =~= all.take(i - 1).push(all[i - 1]));
    }
    assert(all.take(i as int) =~= all);
    out
}

impl Clone for Shown {
    fn clone(&self) -> (r: Shown)
        ensures
            r@ == self@,
    {
        match self {
            Shown::Scripture { reference, translation, lines } => Shown::Scripture {
                reference: reference.clone(),
                translation: translation.clone(),
                lines: copy_lines(lines.as_slice()),
            },
            Shown::Words { title, lines, table } => Shown::Words {
                title: title.clone(),
                lines: copy_texts(lines.as_slice()),
                table: match table {
                    Some(table) => Some(
                        Table {
                            header: copy_texts(table.header.as_slice()),
                            rows: copy_rows(table.rows.as_slice()),
                        },
                    ),
                    None => None,
                },
            },
            Shown::Nothing => Shown::Nothing,
        }
    }
}

/// Everything the desk sends once a connection is let in.
#[derive(Debug, PartialEq, Eq)]
pub enum Message {
    /// What is staged now. Sent on connection and on every change.
    Staged { shown: Shown, progress: Wound },
    /// Proof the desk is still there. Carries nothing.
    Beat,
}

/// What a screen reports to whatever is drawing.
#[derive(Debug, PartialEq, Eq)]
pub enum Event {
    /// Let in, and by what name the desk knows itself.
    Connected { desk: String },
    /// Paired, with the secret to keep for next time.
    Paired { token: String },
    Staged(Shown, Wound),
    /// The link went. What was last staged is deliberately not cleared.
    Dropped { reason: String },
    /// Trying again, in this many seconds.
    Reconnecting { seconds: u64 },
    /// Refused for good: retrying will not fix it.
    Rejected { reason: String },
}

/// A message as contracts speak of it.
pub enum Sent {
    Staged { shown: Staging, progress: Wound },
    Beat,
}

/// An event as contracts speak of it.
pub enum Reported {
    Connected { desk: Seq<char> },
    Paired { token: Seq<char> },
    Staged(Staging, Wound),
    Dropped { reason: Seq<char> },
    Reconnecting { seconds: u64 },
    Rejected { reason: Seq<char> },
}

impl View for Message {
    type V = Sent;

    open spec fn view(&self) -> Sent {
        match *self {
            Message::Staged { shown, progress } => Sent::Staged { shown: shown@, progress },
            Message::Beat => Sent::Beat,
        }
    }
}

impl View for Event {
    type V = Reported;

    open spec fn view(&self) -> Reported {
        match *self {
            Event::Connected { desk } => Reported::Connected { desk: desk@ },
            Event::Paired { token } => Reported::Paired { token: token@ },
            Event::Staged(shown, progress) => Reported::Staged(shown@, progress),
            Event::Dropped { reason } => Reported::Dropped { reason: reason@ },
            Event::Reconnecting { seconds } => Reported::Reconnecting { seconds },
            Event::Rejected { reason } => Reported::Rejected { reason: reason@ },
        }
    }
}

pub open spec fn reports(list: Seq<Event>) -> Seq<Reported> {
    list.map_values(|e: Event| e@)
}

// ---------------------------------------------------------------------- desk

/// The desk: lets screens in, and pushes what is staged.
///
/// Each connected screen has a number, which whoever holds its socket knows it
/// by.
pub struct Desk {
    door: Doorkeeper,
    staged: Shown,
    progress: Wound,
    screens: Vec<u64>,
    next: u64,
    name: String,
}

/// The desk as contracts speak of it.
pub struct DeskState {
    pub door: Door,
    pub staged: Staging,
    pub progress: Wound,
    /// The connected screens, in the order in which they came.
    pub screens: Seq<u64>,
    pub name: Seq<char>,
}

impl View for Desk {
    type V = DeskState;

    closed spec fn view(&self) -> DeskState {
        DeskState {
            door: self.door@,
            staged: self.staged@,
            progress: self.progress,
            screens: self.screens@,
            name: self.name@,
        }
    }
}

impl Desk {
    /// Every connected screen has a number below the next one to be given.
    pub closed spec fn well_formed(&self) -> bool {
        &&& self.door.well_formed()
        &&& self.screens@.no_duplicates()
        &&& forall|i: int| 0 <= i < self.screens@.len() ==> #[trigger] self.screens@[i] < self.next
    }

    /// Whether another screen can still be given a number.
    pub closed spec fn has_room(&self) -> bool {
        self.next < u64::MAX
    }

    /// A desk that knows the given screens, shows nothing and is watched by
    /// nobody.
    pub fn new(name: &str, known: Vec<Pairing>) -> (r: Desk)
        ensures
            r.well_formed(),
            r.has_room(),
            r@.door == (Door { known: by_id(known@), offered: None }),
            r@.staged is Nothing,
            r@.progress == (Wound { bits: 0 }),
            r@.screens.len() == 0,
            r@.name == name@,
    {
        Desk {
            door: Doorkeeper::new(known),
            staged: Shown::Nothing,
            progress: Wound { bits: 0 },
            screens: Vec::new(),
            next: 0,
            name: name.to_owned(),
        }
    }

    /// Disconnects every screen.
    pub fn stop(&mut self)
        requires
            old(self).well_formed(),
        ensures
            final(self).well_formed(),
            final(self).has_room() == old(self).has_room(),
            final(self)@ == (DeskState { screens: Seq::empty(), ..old(self)@ }),
    {
        self.screens = Vec::new();
        assert(self.screens@ =~= Seq::empty());
    }

    /// Offers a pairing code for somebody to carry to the other machine;
    /// nothing when there is no randomness to be had.
    pub fn offer_code(&mut self, now: Moment) -> (r: Option<String>)
        requires
            old(self).well_formed(),
        ensures
            final(self).well_formed(),
            final(self).has_room() == old(self).has_room(),
            r matches Some(code) ==> is_code(code@) && final(self)@ == (DeskState {
                door: offering(old(self)@.door, code@, now.nanos as nat),
                ..old(self)@
            }),
            r is None ==> final(self)@ == old(self)@,
    {
        self.offer_drawn(new_code(), now)
    }

    /// Offers the code that was drawn, and returns it; where none was, nothing
    /// changes and there is nothing to return.
    pub fn offer_drawn(&mut self, drawn: Option<String>, now: Moment) -> (r: Option<String>)
        requires
            old(self).well_formed(),
        ensures
            final(self).well_formed(),
            final(self).has_room() == old(self).has_room(),
            match drawn {
                Some(code) => r matches Some(given) && given@ == code@ && final(self)@ == (
                DeskState {
                    door: offering(old(self)@.door, code@, now.nanos as nat),
                    ..old(self)@
                }),
                None => r is None && final(self)@ == old(self)@,
            },
    {
        self.door.offer_drawn(drawn, now)
    }

    /// Stops offering a code.
    pub fn withdraw_code(&mut self)
        requires
            old(self).well_formed(),
        ensures
            final(self).well_formed(),
            final(self).has_room() == old(self).has_room(),
            final(self)@ == (DeskState {
                door: Door { offered: None, ..old(self)@.door },
                ..old(self)@
            }),
    {
        self.door.withdraw();
    }

    /// Every screen remembered, by id.
    pub fn pairings(&self) -> (r: Vec<Pairing>)
        requires
            self.well_formed(),
        ensures
            ascending(r@),
            by_id(r@) == self@.door.known,
    {
        self.door.pairings()
    }

    /// Forgets one screen, and says whether it was known.
    pub fn forget(&mut self, peer_id: &str) -> (r: bool)
        requires
            old(self).well_formed(),
        ensures
            final(self).well_formed(),
            final(self).has_room() == old(self).has_room(),
            r == old(self)@.door.known.contains_key(peer_id@),
            final(self)@ == (DeskState {
                door: Door {
                    known: old(self)@.door.known.remove(peer_id@),
                    ..old(self)@.door
                },
                ..old(self)@
            }),
    {
        self.door.forget(peer_id)
    }

    /// How many screens are connected right now.
    pub fn watching(&self) -> (r: usize)
        ensures
            r == self@.screens.len(),
    {
        self.screens.len()
    }

    /// The numbers of the screens that are connected right now.
    pub fn screens(&self) -> (r: Vec<u64>)
        ensures
            r@ == self@.screens,
    {
        let mut out: Vec<u64> = Vec::new();
        let mut i: usize = 0;
        while i < self.screens.len()
            invariant
                i <= self.screens.len(),
                out@ == self.screens@.take(i as int),
            decreases self.screens.len() - i,
        {
            out.push(self.screens[i]);
            i += 1;
            assert(out@ =~= self.screens@.take(i as int));
        }
        assert(self.screens@.take(i as int) =~= self.screens@);
        out
    }

    /// What the desk says first on a connection.
    pub fn challenge(&self, nonce: String, now: Moment) -> (r: Challenge)
        ensures
            r.nonce@ == nonce@,
            r.pairing_open == open_at(self@.door, now.nanos as nat),
            r.desk@ == self@.name,
    {
        self.door.challenge(nonce, self.name.as_str(), now)
    }

    /// Judges the answer to a challenge.
    pub fn judge(&mut self, answer: &Answer, nonce: &str, now: Moment) -> (r: Verdict)
        requires
            old(self).well_formed(),
        ensures
            final(self).well_formed(),
            final(self).has_room() == old(self).has_room(),
            r@ == judged(old(self)@.door, answer@, nonce@, now.nanos as nat).0,
            final(self)@ == (DeskState {
                door: judged(old(self)@.door, answer@, nonce@, now.nanos as nat).1,
                ..old(self)@
            }),
    {
        self.door.judge(answer, nonce, now)
    }

    /// A screen that was let in: its number, and what it is sent before
    /// anything else, which is whatever is staged.
    pub fn join(&mut self) -> (r: (u64, Message))
        requires
            old(self).well_formed(),
            old(self).has_room(),
        ensures
            final(self).well_formed(),
            !old(self)@.screens.contains(r.0),
            final(self)@ == (DeskState { screens: old(self)@.screens.push(r.0), ..old(self)@ }),
            r.1@ == (Sent::Staged { shown: old(self)@.staged, progress: old(self)@.progress }),
    {
        let number: u64 = self.next;
        self.screens.push(number);
        self.next = number + 1;
        (number, Message::Staged { shown: self.staged.clone(), progress: self.progress })
    }

    /// Whether another screen can still be given a number.
    pub fn can_join(&self) -> (r: bool)
        ensures
            r == self.has_room(),
    {
        self.next < u64::MAX
    }

    /// Forgets the screens that failed to take what was sent to them.
    pub fn keep(&mut self, alive: &[u64])
        requires
            old(self).well_formed(),
        ensures
            final(self).well_formed(),
            final(self).has_room() == old(self).has_room(),
            final(self)@ == (DeskState {
                screens: old(self)@.screens.filter(|s: u64| alive@.contains(s)),
                ..old(self)@
            }),
    {
        let ghost taking = |s: u64| alive@.contains(s);
        let mut kept: Vec<u64> = Vec::new();
        let mut i: usize = 0;
        proof {
            reveal(Seq::filter);
        }
        assert(kept@ =~= self.screens@.take(0).filter(taking));
        while i < self.screens.len()
            invariant
                i <= self.screens.len(),
                *self == *old(self),
                taking == (|s: u64| alive@.contains(s)),
                kept@ == self.screens@.take(i as int).filter(taking),
            decreases self.screens.len() - i,
        {
            proof {
                lemma_prefix_step(self.screens@, i as int);
                reveal(Seq::filter);
            }
            if holds(alive, self.screens[i]) {
                kept.push(self.screens[i]);
            }
            i += 1;
        }
        assert(self.screens@.take(i as int) =~= self.screens@);
        proof {
            lemma_filter_keeps(self.screens@, taking, self.next);
        }
        self.screens = kept;
    }

    /// Stages something: it is remembered, so that a screen that joins later is
    /// given it at once, and returned, to be sent to every screen.
    pub fn stage(&mut self, shown: Shown, progress: Wound) -> (r: Message)
        requires
            old(self).well_formed(),
        ensures
            final(self).well_formed(),
            final(self).has_room() == old(self).has_room(),
            final(self)@ == (DeskState { staged: shown@, progress, ..old(self)@ }),
            r@ == (Sent::Staged { shown: shown@, progress }),
    {
        self.staged = shown.clone();
        self.progress = progress;
        Message::Staged { shown, progress }
    }

    /// What is sent to every screen to prove that the desk is still there.
    pub fn beat(&self) -> (r: Message)
        ensures
            r@ == Sent::Beat,
    {
        Message::Beat
    }
}

fn holds(list: &[u64], wanted: u64) -> (r: bool)
    ensures
        r == list@.contains(wanted),
{
    let mut i: usize = 0;
    while i < list.len()
        invariant
            i <= list.len(),
            forall|k: int| 0 <= k < i ==> list@[k] != wanted,
        decreases list.len() - i,
    {
        if list[i] == wanted {
            return true;
        }
        i += 1;
    }
    false
}

proof fn lemma_filter_keeps(s: Seq<u64>, keep: spec_fn(u64) -> bool, bound: u64)
    requires
        s.no_duplicates(),
        forall|i: int| 0 <= i < s.len() ==> #[trigger] s[i] < bound,
    ensures
        s.filter(keep).no_duplicates(),
        forall|i: int| 0 <= i < s.filter(keep).len() ==> #[trigger] s.filter(keep)[i] < bound,
        forall|x: u64| s.filter(keep).contains(x) ==> s.contains(x),
    decreases s.len(),
{
    reveal(Seq::filter);
    if s.len() > 0 {
        let front = s.drop_last();
        assert forall|i: int| 0 <= i < front.len() implies #[trigger] front[i] < bound by {
            assert(front[i] == s[i]);
        }
        assert(front.no_duplicates());
        lemma_filter_keeps(front, keep, bound);
        let inner = front.filter(keep);
        let all = s.filter(keep);
        assert(s[s.len() - 1] < bound);
        if keep(s.last()) {
            assert(all =~= inner.push(s.last()));
            assert(!inner.contains(s.last())) by {
                if inner.contains(s.last()) {
                    assert(front.contains(s.last()));
                    let k = choose|k: int| 0 <= k < front.len() && front[k] == s.last();
                    assert(s[k] == s[s.len() - 1]);
                }
            }
            assert forall|i: int, j: int|
                0 <= i < all.len() && 0 <= j < all.len() && i != j implies all[i] != all[j] by {
                if i == inner.len() {
                    assert(inner[j] == all[j]);
                } else if j == inner.len() {
                    assert(inner[i] == all[i]);
                }
            }
        }
        assert forall|x: u64| all.contains(x) implies s.contains(x) by {
            let k = choose|k: int| 0 <= k < all.len() && all[k] == x;
            if k < inner.len() {
                assert(inner[k] == x);
                assert(front.contains(x));
                let m = choose|m: int| 0 <= m < front.len() && front[m] == x;
                assert(s[m] == x);
            } else {
                assert(s[s.len() - 1] == x);
            }
        }
    }
}

// -------------------------------------------------------------------- screen

/// What the screen proves itself with.
#[derive(Debug, PartialEq, Eq)]
pub enum Secret {
    /// First time: the code somebody carried across the room.
    Code(String),
    /// Every time after.
    Token(String),
}

/// A secret as contracts speak of it.
pub enum Held {
    Code(Seq<char>),
    Token(Seq<char>),
}

impl View for Secret {
    type V = Held;

    open spec fn view(&self) -> Held {
        match *self {
            Secret::Code(code) => Held::Code(code@),
            Secret::Token(token) => Held::Token(token@),
        }
    }
}

/// What arrived from the desk, or that nothing more will.
pub enum Incoming {
    Challenge(Challenge),
    Verdict(Verdict),
    Message(Message),
    Failed { reason: String },
}

/// What arrived as contracts speak of it.
pub enum Arrived {
    Challenge { nonce: Seq<char>, pairing_open: bool, desk: Seq<char> },
    Verdict(Ruling),
    Message(Sent),
    Failed { reason: Seq<char> },
}

impl View for Incoming {
    type V = Arrived;

    open spec fn view(&self) -> Arrived {
        match *self {
            Incoming::Challenge(challenge) => Arrived::Challenge {
                nonce: challenge.nonce@,
                pairing_open: challenge.pairing_open,
                desk: challenge.desk@,
            },
            Incoming::Verdict(verdict) => Arrived::Verdict(verdict@),
            Incoming::Message(message) => Arrived::Message(message@),
            Incoming::Failed { reason } => Arrived::Failed { reason: reason@ },
        }
    }
}

/// How far a connection has got.
pub enum Stage {
    /// Waiting for the desk's challenge.
    Challenged,
    /// Waiting for the desk's verdict, with its name and, when pairing, the
    /// token to keep if the verdict is favourable.
    Answered { desk: Seq<char>, derived: Option<Seq<char>> },
    /// Let in, and being told what is staged.
    Watching,
    /// Over.
    Ended,
}

enum Progress {
    Challenged,
    Answered { desk: String, derived: Option<String> },
    Watching,
    Ended,
}

/// What the screen does about something that arrived.
pub struct Step {
    /// What to report, in order.
    pub events: Vec<Event>,
    /// What to answer the desk with.
    pub answer: Option<Answer>,
    /// Why the desk was never joined, where the connection broke before that.
    pub failure: Option<String>,
}

/// One step of the screen as contracts speak of it.
pub struct Taken {
    pub stage: Stage,
    pub events: Seq<Reported>,
    pub answer: Option<Reply>,
    pub failure: Option<Seq<char>>,
}

pub open spec fn ended(events: Seq<Reported>) -> Taken {
    Taken { stage: Stage::Ended, events, answer: None, failure: None }
}

/// A connection that broke before the screen was let in.
pub open spec fn never_joined(reason: Seq<char>) -> Taken {
    Taken { stage: Stage::Ended, events: Seq::empty(), answer: None, failure: Some(reason) }
}

pub open spec fn code_not_offered() -> Reported {
    Reported::Rejected { reason: "That desk is not offering a code. Press Pair on it first."@ }
}

/// The answer to a challenge: proof of the code, when one is on offer, or of
/// the token.
pub open spec fn answered(
    id: Seq<char>,
    name: Seq<char>,
    secret: Held,
    nonce: Seq<char>,
    pairing_open: bool,
    desk: Seq<char>,
) -> Taken {
    match secret {
        Held::Code(code) => if !pairing_open {
            ended(seq![code_not_offered()])
        } else {
            Taken {
                stage: Stage::Answered { desk, derived: Some(token_of(code, id, nonce)) },
                events: Seq::empty(),
                answer: Some(Reply::Pair { id, name, proof: proof_of(code, nonce) }),
                failure: None,
            }
        },
        Held::Token(token) => Taken {
            stage: Stage::Answered { desk, derived: None },
            events: Seq::empty(),
            answer: Some(Reply::Hello { id, proof: proof_of(token, nonce) }),
            failure: None,
        },
    }
}

/// What follows a verdict. The token is reported before anything else, so that
/// it is safe before anything can go wrong.
pub open spec fn ruled(desk: Seq<char>, derived: Option<Seq<char>>, ruling: Ruling) -> Taken {
    match ruling {
        Ruling::Ready { you } => Taken {
            stage: Stage::Watching,
            events: match derived {
                Some(token) => seq![Reported::Paired { token }, Reported::Connected { desk }],
                None => seq![Reported::Connected { desk }],
            },
            answer: None,
            failure: None,
        },
        Ruling::Refused { reason } => ended(seq![Reported::Rejected { reason }]),
    }
}

pub open spec fn unexpected() -> Seq<char> {
    "could not read what the other end sent"@
}

/// What the screen does about something that arrived.
///
/// Whatever goes wrong while it is watching is reported as a dropped link, and
/// nothing else is: what was last staged is left as it is. Before that nothing
/// was joined, and there is no link to report as dropped.
pub open spec fn taken(
    id: Seq<char>,
    name: Seq<char>,
    secret: Held,
    stage: Stage,
    arrived: Arrived,
) -> Taken {
    match (stage, arrived) {
        (Stage::Challenged, Arrived::Challenge { nonce, pairing_open, desk }) => answered(
            id,
            name,
            secret,
            nonce,
            pairing_open,
            desk,
        ),
        (Stage::Answered { desk, derived }, Arrived::Verdict(ruling)) => ruled(
            desk,
            derived,
            ruling,
        ),
        (Stage::Watching, Arrived::Message(Sent::Staged { shown, progress })) => Taken {
            stage: Stage::Watching,
            events: seq![Reported::Staged(shown, progress)],
            answer: None,
            failure: None,
        },
        (Stage::Watching, Arrived::Message(Sent::Beat)) => Taken {
            stage: Stage::Watching,
            events: Seq::empty(),
            answer: None,
            failure: None,
        },
        (Stage::Watching, Arrived::Failed { reason }) => ended(seq![Reported::Dropped { reason }]),
        (Stage::Watching, _) => ended(seq![Reported::Dropped { reason: unexpected() }]),
        (Stage::Ended, _) => ended(Seq::empty()),
        (_, Arrived::Failed { reason }) => never_joined(reason),
        _ => never_joined(unexpected()),
    }
}

/// The screen: proves itself, and reports what arrives.
pub struct Screen {
    id: String,
    name: String,
    secret: Secret,
    progress: Progress,
}

impl Screen {
    pub closed spec fn id(&self) -> Seq<char> {
        self.id@
    }

    pub closed spec fn name(&self) -> Seq<char> {
        self.name@
    }

    pub closed spec fn secret(&self) -> Held {
        self.secret@
    }

    pub closed spec fn stage(&self) -> Stage {
        match self.progress {
            Progress::Challenged => Stage::Challenged,
            Progress::Answered { desk, derived } => Stage::Answered {
                desk: desk@,
                derived: match derived {
                    Some(token) => Some(token@),
                    None => None,
                },
            },
            Progress::Watching => Stage::Watching,
            Progress::Ended => Stage::Ended,
        }
    }

    /// A screen about to connect.
    pub fn new(id: &str, name: &str, secret: Secret) -> (r: Screen)
        ensures
            r.id() == id@,
            r.name() == name@,
            r.secret() == secret@,
            r.stage() == Stage::Challenged,
    {
        Screen {
            id: id.to_owned(),
            name: name.to_owned(),
            secret,
            progress: Progress::Challenged,
        }
    }

    /// Whether the connection is over.
    pub fn is_over(&self) -> (r: bool)
        ensures
            r == (self.stage() is Ended),
    {
        match self.progress {
            Progress::Ended => true,
            _ => false,
        }
    }

    /// What to do about something that arrived.
    pub fn take(&mut self, incoming: Incoming) -> (r: Step)
        ensures
            ({
                let step = taken(
                    old(self).id(),
                    old(self).name(),
                    old(self).secret(),
                    old(self).stage(),
                    incoming@,
                );
                &&& final(self).stage() == step.stage
                &&& final(self).id() == old(self).id()
                &&& final(self).name() == old(self).name()
                &&& final(self).secret() == old(self).secret()
                &&& reports(r.events@) == step.events
                &&& match step.answer {
                    Some(reply) => r.answer matches Some(answer) && answer@ == reply,
                    None => r.answer is None,
                }
                &&& match step.failure {
                    Some(reason) => r.failure matches Some(failure) && failure@ == reason,
                    None => r.failure is None,
                }
            }),
    {
        let mut progress: Progress = Progress::Ended;
        std::mem::swap(&mut progress, &mut self.progress);
        let mut events: Vec<Event> = Vec::new();
        let mut answer: Option<Answer> = None;
        let mut failure: Option<String> = None;
        assert(reports(events@) =~= Seq::empty());
        match (progress, incoming) {
            (Progress::Challenged, Incoming::Challenge(challenge)) => {
                match &self.secret {
                    Secret::Code(code) => {
                        if !challenge.pairing_open {
                            push_event(
                                &mut events,
                                Event::Rejected {
                                    reason:
                                        "That desk is not offering a code. Press Pair on it first.".to_owned(),
                                },
                            );
                            assert(reports(events@) =~= seq![code_not_offered()]);
                        } else {
                            let derived: String = derive_token(
                                code.as_str(),
                                self.id.as_str(),
                                challenge.nonce.as_str(),
                            );
                            answer = Some(
                                Answer::Pair {
                                    id: self.id.clone(),
                                    name: self.name.clone(),
                                    proof: prove(code.as_str(), challenge.nonce.as_str()),
                                },
                            );
                            self.progress = Progress::Answered {
                                desk: challenge.desk,
                                derived: Some(derived),
                            };
                        }
                    },
                    Secret::Token(token) => {
                        answer = Some(
                            Answer::Hello {
                                id: self.id.clone(),
                                proof: prove(token.as_str(), challenge.nonce.as_str()),
                            },
                        );
                        self.progress = Progress::Answered { desk: challenge.desk, derived: None };
                    },
                }
            },
            (Progress::Answered { desk, derived }, Incoming::Verdict(verdict)) => {
                match verdict {
                    Verdict::Ready { .. } => {
                        let ghost name = desk@;
                        if let Some(token) = derived {
                            push_event(&mut events, Event::Paired { token });
                            push_event(&mut events, Event::Connected { desk });
                            assert(reports(events@) =~= seq![
                                Reported::Paired { token: token@ },
                                Reported::Connected { desk: name },
                            ]);
                        } else {
                            push_event(&mut events, Event::Connected { desk });
                            assert(reports(events@) =~= seq![Reported::Connected { desk: name }]);
                        }
                        self.progress = Progress::Watching;
                    },
                    Verdict::Refused { reason } => {
                        push_event(&mut events, Event::Rejected { reason });
                        assert(reports(events@) =~= seq![Reported::Rejected { reason: reason@ }]);
                    },
                }
            },
            (Progress::Watching, Incoming::Message(Message::Staged { shown, progress: wound })) => {
                push_event(&mut events, Event::Staged(shown, wound));
                assert(reports(events@) =~= seq![Reported::Staged(shown@, wound)]);
                self.progress = Progress::Watching;
            },
            (Progress::Watching, Incoming::Message(Message::Beat)) => {
                self.progress = Progress::Watching;
            },
            (Progress::Watching, Incoming::Failed { reason }) => {
                push_event(&mut events, Event::Dropped { reason });
                assert(reports(events@) =~= seq![Reported::Dropped { reason: reason@ }]);
            },
            (Progress::Watching, _) => {
                push_event(
                    &mut events,
                    Event::Dropped {
                        reason: "could not read what the other end sent".to_owned(),
                    },
                );
                assert(reports(events@) =~= seq![Reported::Dropped { reason: unexpected() }]);
            },
            (Progress::Ended, _) => {},
            (_, Incoming::Failed { reason }) => {
                failure = Some(reason);
            },
            _ => {
                failure = Some("could not read what the other end sent".to_owned());
            },
        }
        Step { events, answer, failure }
    }
}

fn push_event(out: &mut Vec<Event>, event: Event)
    ensures
        final(out)@ == old(out)@.push(event),
        reports(final(out)@) == reports(old(out)@).push(event@),
{
    out.push(event);
    assert(reports(out@) =~= reports(old(out)@).push(event@));
}

// ------------------------------------------------------------------- retries

/// How one attempt to stay connected ended.
pub enum Attempt {
    /// The desk refused, which is an answer and not a fault.
    Refused,
    /// A connection was made, and has ended.
    Ended,
    /// No connection was made.
    Failed { reason: String },
}

/// How an attempt ended as contracts speak of it.
pub enum Outcome {
    Refused,
    Ended,
    Failed { reason: Seq<char> },
}

impl View for Attempt {
    type V = Outcome;

    open spec fn view(&self) -> Outcome {
        match *self {
            Attempt::Refused => Outcome::Refused,
            Attempt::Ended => Outcome::Ended,
            Attempt::Failed { reason } => Outcome::Failed { reason: reason@ },
        }
    }
}

/// What to do after an attempt.
pub enum Next {
    /// Do not try again.
    Stop,
    /// Report these, wait so many seconds, and try again.
    Retry { events: Vec<Event>, seconds: u64 },
}

/// The wait that follows a wait: twice as long, up to the longest.
pub open spec fn longer_wait(wait: u64) -> u64 {
    if 2 * wait <= RETRY_LONGEST {
        (2 * wait) as u64
    } else {
        RETRY_LONGEST
    }
}

/// What is reported before another attempt.
pub open spec fn retry_events(outcome: Outcome, wait: u64) -> Seq<Reported> {
    match outcome {
        Outcome::Failed { reason } => seq![
            Reported::Dropped { reason },
            Reported::Reconnecting { seconds: wait },
        ],
        _ => seq![Reported::Reconnecting { seconds: wait }],
    }
}

/// Keeps count of how long to wait before the next attempt.
pub struct Retry {
    wait: u64,
}

impl Retry {
    /// The next wait, in seconds.
    pub closed spec fn wait(&self) -> u64 {
        self.wait
    }

    /// No wait is shorter than the first or longer than the longest.
    pub closed spec fn well_formed(&self) -> bool {
        RETRY_FIRST <= self.wait <= RETRY_LONGEST
    }

    /// Before the first attempt.
    pub fn new() -> (r: Retry)
        ensures
            r.well_formed(),
            r.wait() == RETRY_FIRST,
    {
        Retry { wait: RETRY_FIRST }
    }

    /// What to do after an attempt.
    pub fn after(&mut self, attempt: Attempt) -> (r: Next)
        requires
            old(self).well_formed(),
        ensures
            final(self).well_formed(),
            match r {
                Next::Stop => attempt@ is Refused && final(self).wait() == old(self).wait(),
                Next::Retry { events, seconds } => {
                    &&& attempt@ !is Refused
                    &&& seconds == old(self).wait()
                    &&& RETRY_FIRST <= seconds <= RETRY_LONGEST
                    &&& reports(events@) == retry_events(attempt@, old(self).wait())
                    &&& final(self).wait() == longer_wait(old(self).wait())
                },
            },
    {
        let mut events: Vec<Event> = Vec::new();
        assert(reports(events@) =~= Seq::empty());
        let seconds: u64 = self.wait;
        match attempt {
            Attempt::Refused => {
                return Next::Stop;
            },
            Attempt::Ended => {},
            Attempt::Failed { reason } => {
                push_event(&mut events, Event::Dropped { reason });
            },
        }
        push_event(&mut events, Event::Reconnecting { seconds });
        assert(reports(events@) =~= retry_events(attempt@, seconds));
        self.wait = if 2 * self.wait <= RETRY_LONGEST {
            2 * self.wait
        } else {
            RETRY_LONGEST
        };
        Next::Retry { events, seconds }
    }
}

/// How a read from the other end came to nothing.
pub enum ReadEnd {
    Closed,
    TimedOut,
    Failed { error: String },
}

/// Why the link went, in words.
pub fn read_failure(end: &ReadEnd) -> (r: String)
    ensures
        r@ == match *end {
            ReadEnd::Closed => "the desk closed the connection"@,
            ReadEnd::TimedOut => "the desk stopped answering"@,
            ReadEnd::Failed { error } => "the connection failed: "@ + error@,
        },
{
    match end {
        ReadEnd::Closed => "the desk closed the connection".to_owned(),
        ReadEnd::TimedOut => "the desk stopped answering".to_owned(),
        ReadEnd::Failed { error } => {
            let mut out: String = "the connection failed: ".to_owned();
            out.push_str(error.as_str());
            out
        },
    }
}

// ---------------------------------------------------------------------- laws

/// A dropped link never produces a blank: a screen reports something as staged
/// only when the desk sent exactly that, and never when the connection fails.
pub proof fn law_only_the_desk_changes_what_is_shown(
    id: Seq<char>,
    name: Seq<char>,
    secret: Held,
    stage: Stage,
    arrived: Arrived,
    i: int,
    shown: Staging,
    progress: Wound,
)
    requires
        0 <= i < taken(id, name, secret, stage, arrived).events.len(),
        taken(id, name, secret, stage, arrived).events[i] == Reported::Staged(shown, progress),
    ensures
        arrived == Arrived::Message(Sent::Staged { shown, progress }),
        stage is Watching,
{
}

/// A screen that joins is told at once what is staged, whatever was staged
/// before it came.
pub proof fn law_what_the_desk_sends_is_what_the_screen_reports(
    id: Seq<char>,
    name: Seq<char>,
    secret: Held,
    shown: Staging,
    progress: Wound,
)
    ensures
        taken(
            id,
            name,
            secret,
            Stage::Watching,
            Arrived::Message(Sent::Staged { shown, progress }),
        ).events == seq![Reported::Staged(shown, progress)],
{
}

/// A screen that was walked the code is let in, and holds the token that the
/// desk remembers it by.
pub proof fn law_both_ends_derive_the_same_token(
    door: Door,
    code: Seq<char>,
    now: nat,
    id: Seq<char>,
    name: Seq<char>,
    nonce: Seq<char>,
    desk: Seq<char>,
)
    ensures
        ({
            let open = offering(door, code, now);
            let first = taken(
                id,
                name,
                Held::Code(code),
                Stage::Challenged,
                Arrived::Challenge { nonce, pairing_open: open_at(open, now), desk },
            );
            let (ruling, after) = judged(open, first.answer->0, nonce, now);
            let second = taken(
                id,
                name,
                Held::Code(code),
                first.stage,
                Arrived::Verdict(ruling),
            );
            &&& first.answer is Some
            &&& ruling == Ruling::Ready { you: name }
            &&& second.events == seq![
                Reported::Paired { token: after.known[id].token },
                Reported::Connected { desk },
            ]
        }),
{
}

/// A refusal ends the connection, is reported once, and is not retried into.
pub proof fn law_a_refusal_is_final(
    id: Seq<char>,
    name: Seq<char>,
    secret: Held,
    desk: Seq<char>,
    derived: Option<Seq<char>>,
    reason: Seq<char>,
    later: Arrived,
)
    ensures
        ({
            let after = taken(
                id,
                name,
                secret,
                Stage::Answered { desk, derived },
                Arrived::Verdict(Ruling::Refused { reason }),
            );
            &&& after.events == seq![Reported::Rejected { reason }]
            &&& after.stage is Ended
            &&& taken(id, name, secret, after.stage, later).events.len() == 0
        }),
{
}

/// The waits before one attempt after another.
pub open spec fn waits(attempts: nat) -> u64
    decreases attempts,
{
    if attempts == 0 {
        RETRY_FIRST
    } else {
        longer_wait(waits((attempts - 1) as nat))
    }
}

/// However long the desk is away, no wait is longer than the longest, and from
/// the fourth on each is exactly that.
pub proof fn law_the_wait_is_bounded(attempts: nat)
    ensures
        RETRY_FIRST <= waits(attempts) <= RETRY_LONGEST,
        attempts >= 3 ==> waits(attempts) == RETRY_LONGEST,
    decreases attempts,
{
    if attempts > 0 {
        law_the_wait_is_bounded((attempts - 1) as nat);
        reveal_with_fuel(waits, 4);
    }
}

/// A missed beat is a busy network; the desk counts as gone only after more
/// than three.
pub proof fn law_silence_outlasts_three_beats()
    ensures
        SILENCE_MEANS_GONE > 3 * HEARTBEAT,
{
}

/// A link that is lost while the screen is watching is reported with its reason,
/// once. Before the screen was let in there is no link to report: the attempt
/// failed, and for that reason.
pub proof fn law_a_lost_link_is_reported(
    id: Seq<char>,
    name: Seq<char>,
    secret: Held,
    stage: Stage,
    reason: Seq<char>,
)
    ensures
        ({
            let after = taken(id, name, secret, stage, Arrived::Failed { reason });
            &&& after.stage is Ended
            &&& after.answer is None
            &&& stage is Watching ==> after.events == seq![Reported::Dropped { reason }]
                && after.failure is None
            &&& stage !is Watching ==> after.events.len() == 0
            &&& stage is Challenged || stage is Answered ==> after.failure == Some(reason)
        }),
{
}

/// A beat keeps the link and says nothing else.
pub proof fn law_a_beat_changes_nothing(id: Seq<char>, name: Seq<char>, secret: Held)
    ensures
        ({
            let after = taken(id, name, secret, Stage::Watching, Arrived::Message(Sent::Beat));
            &&& after.stage is Watching
            &&& after.events.len() == 0
            &&& after.answer is None
            &&& after.failure is None
        }),
{
}

/// A screen with a token proves it, whether or not a code is on offer; a screen
/// with a code proves that only while one is on offer. What is proved is proved
/// of the nonce of this challenge.
pub proof fn law_a_challenge_is_answered_with_proof(
    id: Seq<char>,
    name: Seq<char>,
    kept: Seq<char>,
    nonce: Seq<char>,
    pairing_open: bool,
    desk: Seq<char>,
)
    ensures
        ({
            let challenge = Arrived::Challenge { nonce, pairing_open, desk };
            let known = taken(id, name, Held::Token(kept), Stage::Challenged, challenge);
            let newcomer = taken(id, name, Held::Code(kept), Stage::Challenged, challenge);
            &&& known.answer == Some(Reply::Hello { id, proof: proof_of(kept, nonce) })
            &&& known.events.len() == 0
            &&& pairing_open ==> newcomer.answer == Some(
                Reply::Pair { id, name, proof: proof_of(kept, nonce) },
            ) && newcomer.events.len() == 0
            &&& !pairing_open ==> newcomer.answer is None && newcomer.stage is Ended
                && newcomer.events.len() == 1 && newcomer.events[0] is Rejected
        }),
{
}

/// A screen that is let in with its token is connected and paired with nothing
/// new.
pub proof fn law_a_known_screen_is_let_in(
    id: Seq<char>,
    name: Seq<char>,
    token: Seq<char>,
    nonce: Seq<char>,
    pairing_open: bool,
    desk: Seq<char>,
    you: Seq<char>,
)
    ensures
        ({
            let first = taken(
                id,
                name,
                Held::Token(token),
                Stage::Challenged,
                Arrived::Challenge { nonce, pairing_open, desk },
            );
            let second = taken(
                id,
                name,
                Held::Token(token),
                first.stage,
                Arrived::Verdict(Ruling::Ready { you }),
            );
            &&& second.stage is Watching
            &&& second.events == seq![Reported::Connected { desk }]
            &&& second.failure is None
        }),
{
}

/// The first wait is a second and each later one is twice as long, up to eight
/// seconds.
pub proof fn law_the_wait_doubles(attempts: nat)
    ensures
        waits(0) == 1,
        waits(attempts + 1) == 2 * waits(attempts) || waits(attempts + 1) == 8,
        waits(attempts + 1) == 8 ==> waits(attempts) >= 4,
{
    law_the_wait_is_bounded(attempts);
    reveal_with_fuel(waits, 2);
}

/// A comparison loses no row and no cell when it is written as lines: there is a
/// line for each row, and each cell stands in it, after its heading and a colon
/// where the column has a heading.
pub proof fn law_a_comparison_is_written_whole(table: Compared, i: int)
    requires
        0 <= i < table.rows.len(),
    ensures
        table_lines(table).len() == table.rows.len(),
        exists|cells: Seq<Seq<char>>|
            #[trigger] joined(cells, " \u{b7} "@) == table_lines(table)[i] && cells.len()
                == table.rows[i].len() && (forall|k: int|
                0 <= k < cells.len() ==> #[trigger] cells[k] == if k < table.header.len()
                    && !blank(table.header[k]) {
                    table.header[k] + seq![':', ' '] + table.rows[i][k]
                } else {
                    table.rows[i][k]
                }),
{
    reveal_strlit(": ");
    assert(": "@ =~= seq![':', ' ']);
    let row = table.rows[i];
    let cells = Seq::new(row.len(), |at: int| headed(table.header, at, row[at]));
    assert(joined(cells, " \u{b7} "@) == table_lines(table)[i]);
}

/// What a watching screen does not expect ends the link, and is reported as a
/// link that was lost; what a joining one does not expect ends the attempt.
pub proof fn law_what_is_not_expected_ends_the_link(
    id: Seq<char>,
    name: Seq<char>,
    secret: Held,
    stage: Stage,
    arrived: Arrived,
)
    requires
        arrived !is Failed,
        stage is Watching ==> arrived !is Message,
        stage is Challenged ==> arrived !is Challenge,
        stage is Answered ==> arrived !is Verdict,
        stage !is Ended,
    ensures
        ({
            let after = taken(id, name, secret, stage, arrived);
            &&& after.stage is Ended
            &&& after.answer is None
            &&& stage is Watching ==> after.events.len() == 1 && after.events[0] is Dropped
                && after.failure is None
            &&& stage !is Watching ==> after.events.len() == 0 && after.failure is Some
        }),
{
}

} // verus!
