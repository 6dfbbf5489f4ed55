//! The block model every export is written from.

use crate::text::lemma_prefix_step;
use vstd::prelude::*;

verus! {

/// A run of text with its emphasis.
#[derive(Debug, PartialEq)]
pub struct Span {
    pub text: String,
    pub bold: bool,
    pub italic: bool,
    pub strike: bool,
}

/// A run of text as contracts speak of it.
#[verifier::ext_equal]
pub struct Run {
    pub text: Seq<char>,
    pub bold: bool,
    pub italic: bool,
    pub strike: bool,
}

impl View for Span {
    type V = Run;

    open spec fn view(&self) -> Run {
        Run { text: self.text@, bold: self.bold, italic: self.italic, strike: self.strike }
    }
}

/// One piece of a parsed document.
#[derive(Debug, PartialEq)]
pub enum Block {
    Heading { level: u8, text: Vec<Span> },
    Paragraph(Vec<Span>),
    /// `depth` is how far the item is nested; 0 is top level.
    Bullet { depth: u8, text: Vec<Span> },
    Numbered { depth: u8, number: usize, text: Vec<Span> },
    /// A quoted passage, already joined into one block.
    Quote(Vec<Span>),
    Table { head: Vec<Vec<Span>>, rows: Vec<Vec<Vec<Span>>> },
    /// A thematic break between sections.
    Rule,
}

/// A block as contracts speak of it.
#[verifier::ext_equal]
pub enum Piece {
    Heading { level: u8, text: Seq<Run> },
    Paragraph(Seq<Run>),
    Bullet { depth: u8, text: Seq<Run> },
    Numbered { depth: u8, number: usize, text: Seq<Run> },
    Quote(Seq<Run>),
    Table { head: Seq<Seq<Run>>, rows: Seq<Seq<Seq<Run>>> },
    Rule,
}

pub open spec fn runs(list: Seq<Span>) -> Seq<Run> {
    list.map_values(|s: Span| s@)
}

pub open spec fn cells(list: Seq<Vec<Span>>) -> Seq<Seq<Run>> {
    list.map_values(|c: Vec<Span>| runs(c@))
}

pub open spec fn grid(list: Seq<Vec<Vec<Span>>>) -> Seq<Seq<Seq<Run>>> {
    list.map_values(|r: Vec<Vec<Span>>| cells(r@))
}

impl View for Block {
    type V = Piece;

    open spec fn view(&self) -> Piece {
        match *self {
            Block::Heading { level, text } => Piece::Heading { level, text: runs(text@) },
            Block::Paragraph(text) => Piece::Paragraph(runs(text@)),
            Block::Bullet { depth, text } => Piece::Bullet { depth, text: runs(text@) },
            Block::Numbered { depth, number, text } => Piece::Numbered {
                depth,
                number,
                text: runs(text@),
            },
            Block::Quote(text) => Piece::Quote(runs(text@)),
            Block::Table { head, rows } => Piece::Table { head: cells(head@), rows: grid(rows@) },
            Block::Rule => Piece::Rule,
        }
    }
}

pub open spec fn pieces(list: Seq<Block>) -> Seq<Piece> {
    list.map_values(|b: Block| b@)
}

/// A run without emphasis.
pub open spec fn plain_run(text: Seq<char>) -> Run {
    Run { text, bold: false, italic: false, strike: false }
}

impl Span {
    /// Plain text, for the places that cannot show emphasis.
    pub fn plain(text: &str) -> (r: Self)
        ensures
            r@ == plain_run(text@),
    {
        Span { text: text.to_owned(), bold: false, italic: false, strike: false }
    }
}

impl Default for Span {
    fn default() -> (r: Self)
        ensures
            r@ == plain_run(Seq::empty()),
    {
        Span { text: String::new(), bold: false, italic: false, strike: false }
    }
}

impl Clone for Span {
    fn clone(&self) -> (r: Span)
        ensures
            r@ == self@,
    {
        Span {
            text: self.text.clone(),
            bold: self.bold,
            italic: self.italic,
            strike: self.strike,
        }
    }
}

/// Pushing a span pushes its run.
pub proof fn lemma_runs_push(list: Seq<Span>, s: Span)
    ensures
        runs(list.push(s)) == runs(list).push(s@),
{
    assert(runs(list.push(s)) =~= runs(list).push(s@));
}

pub fn push_span(out: &mut Vec<Span>, span: Span)
    ensures
        final(out)@ == old(out)@.push(span),
        runs(final(out)@) == runs(old(out)@).push(span@),
{
    proof {
        lemma_runs_push(out@, span);
    }
    out.push(span);
}

/// A text as the only span, without emphasis.
pub fn only(text: &str) -> (r: Vec<Span>)
    ensures
        runs(r@) == seq![plain_run(text@)],
{
    let mut list: Vec<Span> = Vec::new();
    push_span(&mut list, Span::plain(text));
    assert(runs(list@) =~= seq![plain_run(text@)]);
    list
}

pub fn push_block(out: &mut Vec<Block>, block: Block)
    ensures
        final(out)@ == old(out)@.push(block),
        pieces(final(out)@) == pieces(old(out)@).push(block@),
{
    out.push(block);
    assert(pieces(out@) =~= pieces(old(out)@).push(block@));
}

pub fn copy_spans(list: &[Span]) -> (r: Vec<Span>)
    ensures
        runs(r@) == runs(list@),
{
    let mut out: Vec<Span> = Vec::new();
    let ghost all = runs(list@);
    let mut i: usize = 0;
    assert(runs(out@) =~= all.take(0));
    while i < list.len()
        invariant
            i <= list.len(),
            all == runs(list@),
            runs(out@) == all.take(i as int),
        decreases list.len() - i,
    {
        push_span(&mut out, list[i].clone());
        i += 1;
        assert(all.take(i as int) =~= all.take(i - 1).push(all[i - 1]));
    }
    assert(all.take(i as int) =~= all);
    out
}

/// The text of runs, one after another, without their emphasis.
pub open spec fn plain_text(list: Seq<Run>) -> Seq<char>
    decreases list.len(),
{
    if list.len() == 0 {
        Seq::empty()
    } else {
        plain_text(list.drop_last()) + list.last().text
    }
}

/// Spans as one string, for the places that cannot show emphasis.
pub fn plain(list: &[Span]) -> (r: String)
    ensures
        r@ == plain_text(runs(list@)),
{
    let mut out: String = String::new();
    let ghost all = runs(list@);
    let mut i: usize = 0;
    while i < list.len()
        invariant
            i <= list.len(),
            all == runs(list@),
            out@ == plain_text(all.take(i as int)),
        decreases list.len() - i,
    {
        out.push_str(list[i].text.as_str());
        i += 1;
        proof {
            lemma_prefix_step(all, i - 1);
        }
    }
    assert(all.take(i as int) =~= all);
    out
}

} // verus!
