//! Reading Markdown into blocks.
//!
//! CommonMark with the GitHub extensions, by way of pulldown-cmark. Its events
//! are folded into the block model, and constructs with no sensible place in a
//! printed summary contribute their text and nothing else: what was said is
//! never dropped.

use crate::exports::model::{
    cells, grid, pieces, plain_run, push_block, push_span, runs, Block, Piece, Run, Span,
};
use crate::text::{
    chars_list, chars_of, copy_range, is_char, is_whitespace, join, joined, lemma_prefix_step,
    lines, lines_of, push_all, text_of, trim_back, trim_text, trimmed, whitespace,
};
use pulldown_cmark::{Event as Raw, Options, Parser, Tag, TagEnd};
use vstd::prelude::*;

verus! {

// -------------------------------------------------------------------- events

/// What an event opens or closes.
#[derive(Debug, Clone, Copy, PartialEq, Eq)]
pub enum Element {
    Paragraph,
    /// A heading and its level, 1 to 6.
    Heading(u8),
    Quote,
    CodeBlock,
    List,
    Item,
    Table,
    TableHead,
    TableRow,
    TableCell,
    Emphasis,
    Strong,
    Strikethrough,
    Other,
}

/// One step of a Markdown document.
#[derive(Debug)]
pub enum Event {
    Open(Element),
    /// A list, with its first number when it is a numbered one.
    OpenList(Option<u64>),
    Close(Element),
    Text(String),
    Code(String),
    Html(String),
    SoftBreak,
    HardBreak,
    Rule,
    /// A task list item, done or not.
    Task(bool),
    Other,
}

/// An event as contracts speak of it.
pub enum Mark {
    Open(Element),
    OpenList(Option<u64>),
    Close(Element),
    Text(Seq<char>),
    Code(Seq<char>),
    Html(Seq<char>),
    SoftBreak,
    HardBreak,
    Rule,
    Task(bool),
    Other,
}

impl View for Event {
    type V = Mark;

    open spec fn view(&self) -> Mark {
        match *self {
            Event::Open(element) => Mark::Open(element),
            Event::OpenList(first) => Mark::OpenList(first),
            Event::Close(element) => Mark::Close(element),
            Event::Text(text) => Mark::Text(text@),
            Event::Code(text) => Mark::Code(text@),
            Event::Html(text) => Mark::Html(text@),
            Event::SoftBreak => Mark::SoftBreak,
            Event::HardBreak => Mark::HardBreak,
            Event::Rule => Mark::Rule,
            Event::Task(done) => Mark::Task(done),
            Event::Other => Mark::Other,
        }
    }
}

pub open spec fn marks(events: Seq<Event>) -> Seq<Mark> {
    events.map_values(|e: Event| e@)
}

/// pulldown-cmark's name for what an event closes.
#[verifier::external_type_specification]
#[verifier::external_body]
pub struct ExTagEnd(pulldown_cmark::TagEnd);

/// Which element a pulldown-cmark tag is.
pub uninterp spec fn element_of(end: pulldown_cmark::TagEnd) -> Element;

/// Tells the variants of `pulldown_cmark::TagEnd` apart. The element depends on
/// the tag alone.
#[verifier::external_body]
fn element(end: pulldown_cmark::TagEnd) -> (r: Element)
    ensures
        r == element_of(end),
{
    match end {
        TagEnd::Paragraph => Element::Paragraph,
        TagEnd::Heading(level) => Element::Heading(level as u8),
        TagEnd::BlockQuote(_) => Element::Quote,
        TagEnd::CodeBlock => Element::CodeBlock,
        TagEnd::List(_) => Element::List,
        TagEnd::Item => Element::Item,
        TagEnd::Table => Element::Table,
        TagEnd::TableHead => Element::TableHead, TagEnd::TableRow => Element::TableRow,
        TagEnd::TableCell => Element::TableCell,
        TagEnd::Emphasis => Element::Emphasis, TagEnd::Strong => Element::Strong,
        TagEnd::Strikethrough => Element::Strikethrough,
        _ => Element::Other,
    }
}

/// An event as pulldown-cmark hands it over, its tags still its own.
enum Scanned {
    Open(pulldown_cmark::TagEnd),
    OpenList(Option<u64>),
    Close(pulldown_cmark::TagEnd),
    Text(String),
    Code(String),
    Html(String),
    SoftBreak,
    HardBreak,
    Rule,
    Task(bool),
    Other,
}

impl Scanned {
    spec fn mark(self) -> Mark {
        match self {
            Scanned::Open(end) => Mark::Open(element_of(end)),
            Scanned::OpenList(first) => Mark::OpenList(first),
            Scanned::Close(end) => Mark::Close(element_of(end)),
            Scanned::Text(text) => Mark::Text(text@),
            Scanned::Code(text) => Mark::Code(text@),
            Scanned::Html(text) => Mark::Html(text@),
            Scanned::SoftBreak => Mark::SoftBreak,
            Scanned::HardBreak => Mark::HardBreak,
            Scanned::Rule => Mark::Rule,
            Scanned::Task(done) => Mark::Task(done),
            Scanned::Other => Mark::Other,
        }
    }
}

/// The events pulldown-cmark reads in a text, with tables, strikethrough, task
/// lists and footnotes switched on.
pub uninterp spec fn markdown_events(markdown: Seq<char>) -> Seq<Mark>;

/// `pulldown_cmark::Parser::new_ext`, run to its end. The events depend on the
/// text alone.
#[verifier::external_body]
fn scan(markdown: &str) -> (r: Vec<Scanned>)
    ensures
        r@.map_values(|s: Scanned| s.mark()) == markdown_events(markdown@),
{
    let options = Options::ENABLE_TABLES | Options::ENABLE_STRIKETHROUGH
        | Options::ENABLE_TASKLISTS | Options::ENABLE_FOOTNOTES;
    Parser::new_ext(markdown, options).map(|event| match event {
        Raw::Start(Tag::List(first)) => Scanned::OpenList(first),
        Raw::Start(tag) => Scanned::Open(tag.to_end()),
        Raw::End(end) => Scanned::Close(end),
        Raw::Text(text) => Scanned::Text(text.into_string()),
        Raw::Code(text) => Scanned::Code(text.into_string()),
        Raw::Html(text) | Raw::InlineHtml(text) => Scanned::Html(text.into_string()),
        Raw::SoftBreak => Scanned::SoftBreak, Raw::HardBreak => Scanned::HardBreak,
        Raw::Rule => Scanned::Rule,
        Raw::TaskListMarker(done) => Scanned::Task(done),
        _ => Scanned::Other,
    }).collect()
}

/// The events of a Markdown text.
pub fn events(markdown: &str) -> (r: Vec<Event>)
    ensures
        marks(r@) == markdown_events(markdown@),
{
    let scanned: Vec<Scanned> = scan(markdown);
    let ghost all = scanned@.map_values(|s: Scanned| s.mark());
    let mut out: Vec<Event> = Vec::new();
    assert(marks(out@) =~= all.take(0));
    for one in it: scanned
        invariant
            all == it.seq().map_values(|s: Scanned| s.mark()),
            marks(out@) == all.take(it.index() as int),
    {
        let ghost mark = one.mark();
        let event: Event = match one {
            Scanned::Open(end) => Event::Open(element(end)),
            Scanned::OpenList(first) => Event::OpenList(first),
            Scanned::Close(end) => Event::Close(element(end)),
            Scanned::Text(text) => Event::Text(text),
            Scanned::Code(text) => Event::Code(text),
            Scanned::Html(text) => Event::Html(text),
            Scanned::SoftBreak => Event::SoftBreak,
            Scanned::HardBreak => Event::HardBreak,
            Scanned::Rule => Event::Rule,
            Scanned::Task(done) => Event::Task(done),
            Scanned::Other => Event::Other,
        };
        assert(event@ == mark);
        let ghost before = marks(out@);
        out.push(event);
        assert(marks(out@) =~= before.push(mark));
        assert(all.take(it.index() + 1) =~= all.take(it.index() as int).push(
            all[it.index() as int],
        ));
    }
    assert(all.take(all.len() as int) =~= all);
    out
}

// ------------------------------------------------------------------- folding

/// A table being gathered.
#[verifier::ext_equal]
pub struct TableDraft {
    pub head: Seq<Seq<Run>>,
    pub rows: Seq<Seq<Seq<Run>>>,
    pub cells: Seq<Seq<Run>>,
}

/// A list that is open.
#[derive(Clone, Copy)]
pub struct Listing {
    /// The number of its next item, when it has numbers.
    pub next: Option<u64>,
    /// Whether the line of the item being read has been written.
    pub written: bool,
}

/// What has been read so far: the blocks that are complete, and what the next
/// one is being gathered from.
#[verifier::ext_equal]
pub struct Draft {
    pub blocks: Seq<Piece>,
    pub runs: Seq<Run>,
    /// The emphasis text is read in; its own text stays empty.
    pub style: Run,
    /// The lists that are open, the innermost last.
    pub lists: Seq<Listing>,
    pub quoting: nat,
    pub heading: Option<u8>,
    pub code: Option<Seq<char>>,
    pub table: Option<TableDraft>,
}

pub open spec fn empty_draft() -> Draft {
    Draft {
        blocks: Seq::empty(),
        runs: Seq::empty(),
        style: plain_run(Seq::empty()),
        lists: Seq::empty(),
        quoting: 0,
        heading: None,
        code: None,
        table: None,
    }
}

/// Text added to what is gathered: to the last run when the emphasis is the
/// same, in a run of its own when it is not.
pub open spec fn with_text(list: Seq<Run>, style: Run, text: Seq<char>) -> Seq<Run> {
    if text.len() == 0 {
        list
    } else if list.len() > 0 && list.last().bold == style.bold && list.last().italic
        == style.italic && list.last().strike == style.strike {
        list.drop_last().push(Run { text: list.last().text + text, ..list.last() })
    } else {
        list.push(Run { text, ..style })
    }
}

pub open spec fn saying(d: Draft, text: Seq<char>) -> Draft {
    Draft { runs: with_text(d.runs, d.style, text), ..d }
}

pub open spec fn with_block(d: Draft, block: Piece) -> Draft {
    Draft { blocks: d.blocks.push(block), runs: Seq::empty(), ..d }
}

/// How deep an item is nested; anything deeper than three is shown as three.
pub open spec fn item_depth(lists: Seq<Listing>) -> u8 {
    if lists.len() == 0 {
        0
    } else if lists.len() > 3 {
        3
    } else {
        (lists.len() - 1) as u8
    }
}

/// A list whose item has its line.
pub open spec fn line_written(list: Listing) -> Listing {
    Listing {
        next: match list.next {
            Some(at) => Some(at.wrapping_add(1)),
            None => None,
        },
        written: true,
    }
}

/// The list item being gathered, closed. Items of a numbered list count up.
pub open spec fn with_item(d: Draft) -> Draft {
    let depth = item_depth(d.lists);
    if d.lists.len() == 0 {
        with_block(d, Piece::Bullet { depth, text: d.runs })
    } else {
        let list = d.lists.last();
        Draft {
            lists: d.lists.drop_last().push(line_written(list)),
            ..with_block(
                d,
                match list.next {
                    Some(at) => Piece::Numbered { depth, number: at as usize, text: d.runs },
                    None => Piece::Bullet { depth, text: d.runs },
                },
            )
        }
    }
}

/// An item opened in the innermost list: its line is still to be written.
pub open spec fn item_opened(d: Draft) -> Draft {
    if d.lists.len() == 0 {
        d
    } else {
        Draft {
            lists: d.lists.drop_last().push(Listing { written: false, ..d.lists.last() }),
            ..d
        }
    }
}

pub open spec fn opened(d: Draft, element: Element) -> Draft {
    match element {
        Element::Heading(level) => Draft { heading: Some(level), ..d },
        Element::Quote => Draft { quoting: d.quoting + 1, ..d },
        Element::CodeBlock => Draft { code: Some(Seq::empty()), ..d },
        Element::Table => Draft {
            table: Some(
                TableDraft { head: Seq::empty(), rows: Seq::empty(), cells: Seq::empty() },
            ),
            ..d
        },
        Element::Emphasis => Draft { style: Run { italic: true, ..d.style }, ..d },
        Element::Strong => Draft { style: Run { bold: true, ..d.style }, ..d },
        Element::Strikethrough => Draft { style: Run { strike: true, ..d.style }, ..d },
        Element::Item => item_opened(d),
        _ => d,
    }
}

/// A heading closed: written when there is anything in it.
pub open spec fn heading_closed(d: Draft) -> Draft {
    match d.heading {
        Some(level) if d.runs.len() > 0 => Draft {
            heading: None,
            ..with_block(d, Piece::Heading { level, text: d.runs })
        },
        _ => Draft { heading: None, ..d },
    }
}

/// A quotation closed: what was gathered inside it becomes one block.
pub open spec fn quote_closed(d: Draft) -> Draft {
    let left = Draft {
        quoting: if d.quoting == 0 {
            0
        } else {
            (d.quoting - 1) as nat
        },
        ..d
    };
    if d.runs.len() > 0 {
        with_block(left, Piece::Quote(d.runs))
    } else {
        left
    }
}

/// A code block closed: its words become an ordinary paragraph.
pub open spec fn code_closed(d: Draft) -> Draft {
    match d.code {
        Some(code) => {
            let text = trimmed(code);
            if text.len() == 0 {
                Draft { code: None, ..d }
            } else {
                Draft {
                    code: None,
                    blocks: d.blocks.push(Piece::Paragraph(seq![plain_run(text)])),
                    ..d
                }
            }
        },
        None => d,
    }
}

/// A paragraph closed: inside a quotation it stays part of the quotation, and the
/// first of a list item is that item's line.
pub open spec fn paragraph_closed(d: Draft) -> Draft {
    if d.runs.len() == 0 || d.quoting > 0 {
        d
    } else if d.lists.len() > 0 && !d.lists.last().written {
        with_item(d)
    } else {
        with_block(d, Piece::Paragraph(d.runs))
    }
}

pub open spec fn cell_closed(d: Draft) -> Draft {
    match d.table {
        Some(t) => Draft {
            table: Some(TableDraft { cells: t.cells.push(d.runs), ..t }),
            runs: Seq::empty(),
            ..d
        },
        None => d,
    }
}

pub open spec fn row_closed(d: Draft) -> Draft {
    match d.table {
        Some(t) => Draft {
            table: Some(
                TableDraft { rows: t.rows.push(t.cells), cells: Seq::empty(), ..t },
            ),
            ..d
        },
        None => d,
    }
}

pub open spec fn head_closed(d: Draft) -> Draft {
    match d.table {
        Some(t) => Draft {
            table: Some(TableDraft { head: t.cells, cells: Seq::empty(), ..t }),
            ..d
        },
        None => d,
    }
}

pub open spec fn table_closed(d: Draft) -> Draft {
    match d.table {
        Some(t) => Draft {
            table: None,
            blocks: d.blocks.push(Piece::Table { head: t.head, rows: t.rows }),
            ..d
        },
        None => d,
    }
}

pub open spec fn closed(d: Draft, element: Element) -> Draft {
    match element {
        Element::Heading(_) => heading_closed(d),
        Element::List => Draft {
            lists: if d.lists.len() > 0 {
                d.lists.drop_last()
            } else {
                d.lists
            },
            ..d
        },
        Element::Item => if d.runs.len() > 0 {
            with_item(d)
        } else {
            d
        },
        Element::Quote => quote_closed(d),
        Element::CodeBlock => code_closed(d),
        Element::TableHead => head_closed(d),
        Element::TableRow => row_closed(d),
        Element::TableCell => cell_closed(d),
        Element::Table => table_closed(d),
        Element::Emphasis => Draft { style: Run { italic: false, ..d.style }, ..d },
        Element::Strong => Draft { style: Run { bold: false, ..d.style }, ..d },
        Element::Strikethrough => Draft { style: Run { strike: false, ..d.style }, ..d },
        Element::Paragraph => paragraph_closed(d),
        Element::Other => d,
    }
}

/// A list opened. Nested in an item, the item's own line is complete and is
/// written before its sub-points.
pub open spec fn list_opened(d: Draft, first: Option<u64>) -> Draft {
    let before = if d.lists.len() > 0 && d.runs.len() > 0 {
        with_item(d)
    } else {
        d
    };
    Draft { lists: before.lists.push(Listing { next: first, written: false }), ..before }
}

/// One event taken in.
pub open spec fn step(d: Draft, mark: Mark) -> Draft {
    match mark {
        Mark::Open(element) => opened(d, element),
        Mark::OpenList(first) => list_opened(d, first),
        Mark::Close(element) => closed(d, element),
        Mark::Text(text) => match d.code {
            Some(code) => Draft { code: Some(code + text), ..d },
            None => saying(d, text),
        },
        Mark::Code(text) => saying(d, text),
        Mark::Html(text) => saying(d, text),
        Mark::SoftBreak => saying(d, " "@),
        Mark::HardBreak => saying(d, " "@),
        Mark::Rule => Draft { blocks: d.blocks.push(Piece::Rule), ..d },
        Mark::Task(done) => saying(
            d,
            if done {
                "\u{2611} "@
            } else {
                "\u{2610} "@
            },
        ),
        Mark::Other => d,
    }
}

/// What has been read after a run of events.
pub open spec fn drafted(events: Seq<Mark>) -> Draft
    decreases events.len(),
{
    if events.len() == 0 {
        empty_draft()
    } else {
        step(drafted(events.drop_last()), events.last())
    }
}

/// The blocks of a document: those completed, and a paragraph of whatever text
/// is left over.
pub open spec fn blocks_of(events: Seq<Mark>) -> Seq<Piece> {
    let d = drafted(events);
    if d.runs.len() > 0 {
        d.blocks.push(Piece::Paragraph(d.runs))
    } else {
        d.blocks
    }
}

/// Blank lines between its items do not undo a list: an item whose words stand in
/// a paragraph of their own is read like one whose words do not.
pub proof fn law_blank_lines_do_not_undo_a_list(d: Draft, text: Seq<char>)
    requires
        d.lists.len() > 0,
        d.runs.len() == 0,
        d.quoting == 0,
        d.code is None,
    ensures
        ({
            let opened = step(d, Mark::Open(Element::Item));
            let tight = step(step(opened, Mark::Text(text)), Mark::Close(Element::Item));
            let said = step(step(opened, Mark::Open(Element::Paragraph)), Mark::Text(text));
            let loose = step(
                step(said, Mark::Close(Element::Paragraph)),
                Mark::Close(Element::Item),
            );
            &&& loose == tight
            &&& text.len() > 0 ==> {
                &&& tight.blocks.len() == d.blocks.len() + 1
                &&& tight.blocks.last() == match d.lists.last().next {
                    Some(at) => Piece::Numbered {
                        depth: item_depth(d.lists),
                        number: at as usize,
                        text: seq![Run { text, ..d.style }],
                    },
                    None => Piece::Bullet {
                        depth: item_depth(d.lists),
                        text: seq![Run { text, ..d.style }],
                    },
                }
            }
        }),
{
    let only = seq![Run { text, ..d.style }];
    assert(d.runs.push(Run { text, ..d.style }) =~= only);
}

struct Folding {
    blocks: Vec<Block>,
    runs: Vec<Span>,
    bold: bool,
    italic: bool,
    strike: bool,
    lists: Vec<Listing>,
    quoting: usize,
    heading: Option<u8>,
    code: Option<String>,
    table: Option<TableFolding>,
}

struct TableFolding {
    head: Vec<Vec<Span>>,
    rows: Vec<Vec<Vec<Span>>>,
    cells: Vec<Vec<Span>>,
}

impl TableFolding {
    spec fn draft(self) -> TableDraft {
        TableDraft { head: cells(self.head@), rows: grid(self.rows@), cells: cells(self.cells@) }
    }
}

/// What was gathered, leaving nothing behind.
fn take_runs(list: &mut Vec<Span>) -> (r: Vec<Span>)
    ensures
        r@ == old(list)@,
        runs(final(list)@) == Seq::<Run>::empty(),
{
    let mut out: Vec<Span> = Vec::new();
    std::mem::swap(&mut out, list);
    assert(runs(list@) =~= Seq::<Run>::empty());
    out
}

impl Folding {
    spec fn draft(self) -> Draft {
        Draft {
            blocks: pieces(self.blocks@),
            runs: runs(self.runs@),
            style: Run {
                text: Seq::empty(),
                bold: self.bold,
                italic: self.italic,
                strike: self.strike,
            },
            lists: self.lists@,
            quoting: self.quoting as nat,
            heading: self.heading,
            code: match self.code {
                Some(code) => Some(code@),
                None => None,
            },
            table: match self.table {
                Some(table) => Some(table.draft()),
                None => None,
            },
        }
    }

    fn new() -> (r: Folding)
        ensures
            r.draft() == empty_draft(),
            r.quoting == 0,
    {
        let r: Folding = Folding {
            blocks: Vec::new(),
            runs: Vec::new(),
            bold: false,
            italic: false,
            strike: false,
            lists: Vec::new(),
            quoting: 0,
            heading: None,
            code: None,
            table: None,
        };
        assert(r.draft() =~= empty_draft());
        r
    }

    fn say(&mut self, text: &str)
        ensures
            final(self).draft() == saying(old(self).draft(), text@),
            final(self).quoting == old(self).quoting,
    {
        if text.is_empty() {
            return;
        }
        let ghost before = runs(self.runs@);
        let matching: bool = if self.runs.len() > 0 {
            let last: &Span = &self.runs[self.runs.len() - 1];
            last.bold == self.bold && last.italic == self.italic && last.strike == self.strike
        } else {
            false
        };
        let mut span: Span = Span {
            text: String::new(),
            bold: self.bold,
            italic: self.italic,
            strike: self.strike,
        };
        if matching {
            if let Some(last) = self.runs.pop() {
                assert(runs(self.runs@) =~= before.drop_last());
                span = last;
            }
        }
        span.text.push_str(text);
        assert(span@.text =~= (if matching {
            before.last().text
        } else {
            Seq::empty()
        }) + text@);
        if !matching {
            assert(span@.text =~= text@);
        }
        push_span(&mut self.runs, span);
        assert(self.draft() =~= saying(old(self).draft(), text@));
    }

    fn finish_item(&mut self)
        ensures
            final(self).draft() == with_item(old(self).draft()),
            final(self).quoting == old(self).quoting,
    {
        let depth: u8 = if self.lists.len() == 0 {
            0
        } else if self.lists.len() > 3 {
            3
        } else {
            (self.lists.len() - 1) as u8
        };
        let text: Vec<Span> = take_runs(&mut self.runs);
        let list: Option<Listing> = self.lists.pop();
        let number: Option<u64> = match list {
            Some(list) => list.next,
            None => None,
        };
        if list.is_some() {
            self.lists.push(
                Listing {
                    next: match number {
                        Some(at) => Some(at.wrapping_add(1)),
                        None => None,
                    },
                    written: true,
                },
            );
        }
        match number {
            Some(at) => {
                push_block(
                    &mut self.blocks,
                    Block::Numbered { depth, number: at as usize, text },
                );
            },
            None => {
                push_block(&mut self.blocks, Block::Bullet { depth, text });
            },
        }
        assert(self.draft() =~= with_item(old(self).draft()));
    }

    fn open(&mut self, element: Element)
        requires
            old(self).quoting < usize::MAX,
        ensures
            final(self).draft() == opened(old(self).draft(), element),
            final(self).quoting <= old(self).quoting + 1,
    {
        match element {
            Element::Heading(level) => {
                self.heading = Some(level);
            },
            Element::Quote => {
                self.quoting += 1;
            },
            Element::CodeBlock => {
                self.code = Some(String::new());
                assert(self.draft().code == Some(Seq::<char>::empty())) by {
                    assert(self.code->0@ =~= Seq::<char>::empty());
                }
            },
            Element::Table => {
                let table: TableFolding = TableFolding {
                    head: Vec::new(),
                    rows: Vec::new(),
                    cells: Vec::new(),
                };
                assert(table.draft() =~= TableDraft {
                    head: Seq::empty(),
                    rows: Seq::empty(),
                    cells: Seq::empty(),
                });
                self.table = Some(table);
            },
            Element::Emphasis => {
                self.italic = true;
            },
            Element::Strong => {
                self.bold = true;
            },
            Element::Strikethrough => {
                self.strike = true;
            },
            Element::Item => {
                if let Some(list) = self.lists.pop() {
                    self.lists.push(Listing { next: list.next, written: false });
                }
            },
            _ => {},
        }
        assert(self.draft() =~= opened(old(self).draft(), element));
    }

    fn open_list(&mut self, first: Option<u64>)
        ensures
            final(self).draft() == list_opened(old(self).draft(), first),
            final(self).quoting == old(self).quoting,
    {
        if self.lists.len() > 0 && self.runs.len() > 0 {
            self.finish_item();
        }
        self.lists.push(Listing { next: first, written: false });
        assert(self.draft() =~= list_opened(old(self).draft(), first));
    }

    fn close_heading(&mut self)
        ensures
            final(self).draft() == heading_closed(old(self).draft()),
            final(self).quoting == old(self).quoting,
    {
        if let Some(level) = self.heading {
            self.heading = None;
            if self.runs.len() > 0 {
                let text: Vec<Span> = take_runs(&mut self.runs);
                push_block(&mut self.blocks, Block::Heading { level, text });
            }
        }
        assert(self.draft() =~= heading_closed(old(self).draft()));
    }

    fn close_quote(&mut self)
        ensures
            final(self).draft() == quote_closed(old(self).draft()),
            final(self).quoting <= old(self).quoting,
    {
        if self.quoting > 0 {
            self.quoting -= 1;
        }
        if self.runs.len() > 0 {
            let text: Vec<Span> = take_runs(&mut self.runs);
            push_block(&mut self.blocks, Block::Quote(text));
        }
        assert(self.draft() =~= quote_closed(old(self).draft()));
    }

    fn close_code(&mut self)
        ensures
            final(self).draft() == code_closed(old(self).draft()),
            final(self).quoting == old(self).quoting,
    {
        let code: Option<String> = self.code.take();
        if let Some(code) = code {
            let text: String = trim_text(code.as_str());
            if !text.as_str().is_empty() {
                let mut only: Vec<Span> = Vec::new();
                push_span(&mut only, Span::plain(text.as_str()));
                assert(runs(only@) =~= seq![plain_run(text@)]);
                push_block(&mut self.blocks, Block::Paragraph(only));
            }
        }
        assert(self.draft() =~= code_closed(old(self).draft()));
    }

    fn close_paragraph(&mut self)
        ensures
            final(self).draft() == paragraph_closed(old(self).draft()),
            final(self).quoting == old(self).quoting,
    {
        assert(runs(self.runs@).len() == self.runs@.len());
        if self.runs.len() > 0 && self.quoting == 0 {
            if self.lists.len() > 0 && !self.lists[self.lists.len() - 1].written {
                self.finish_item();
            } else {
                let text: Vec<Span> = take_runs(&mut self.runs);
                push_block(&mut self.blocks, Block::Paragraph(text));
            }
        }
        assert(self.draft() =~= paragraph_closed(old(self).draft()));
    }

    fn close_cell(&mut self)
        ensures
            final(self).draft() == cell_closed(old(self).draft()),
            final(self).quoting == old(self).quoting,
    {
        let table: Option<TableFolding> = self.table.take();
        if let Some(mut t) = table {
            let ghost before = t.draft();
            let text: Vec<Span> = take_runs(&mut self.runs);
            t.cells.push(text);
            assert(t.draft().cells =~= before.cells.push(runs(text@)));
            self.table = Some(t);
        }
        assert(self.draft() =~= cell_closed(old(self).draft()));
    }

    fn close_row(&mut self)
        ensures
            final(self).draft() == row_closed(old(self).draft()),
            final(self).quoting == old(self).quoting,
    {
        let table: Option<TableFolding> = self.table.take();
        if let Some(t) = table {
            let TableFolding { head, mut rows, cells: row } = t;
            let ghost before = grid(rows@);
            rows.push(row);
            assert(grid(rows@) =~= before.push(cells(row@)));
            let next: TableFolding = TableFolding { head, rows, cells: Vec::new() };
            assert(next.draft().cells =~= Seq::empty());
            self.table = Some(next);
        }
        assert(self.draft() =~= row_closed(old(self).draft()));
    }

    fn close_head(&mut self)
        ensures
            final(self).draft() == head_closed(old(self).draft()),
            final(self).quoting == old(self).quoting,
    {
        let table: Option<TableFolding> = self.table.take();
        if let Some(t) = table {
            let next: TableFolding = TableFolding {
                head: t.cells,
                rows: t.rows,
                cells: Vec::new(),
            };
            assert(next.draft().cells =~= Seq::empty());
            self.table = Some(next);
        }
        assert(self.draft() =~= head_closed(old(self).draft()));
    }

    fn close_table(&mut self)
        ensures
            final(self).draft() == table_closed(old(self).draft()),
            final(self).quoting == old(self).quoting,
    {
        let table: Option<TableFolding> = self.table.take();
        if let Some(t) = table {
            push_block(&mut self.blocks, Block::Table { head: t.head, rows: t.rows });
        }
        assert(self.draft() =~= table_closed(old(self).draft()));
    }

    fn close(&mut self, element: Element)
        ensures
            final(self).draft() == closed(old(self).draft(), element),
            final(self).quoting <= old(self).quoting,
    {
        match element {
            Element::Heading(_) => self.close_heading(),
            Element::List => {
                self.lists.pop();
            },
            Element::Item => {
                if self.runs.len() > 0 {
                    self.finish_item();
                }
            },
            Element::Quote => self.close_quote(),
            Element::CodeBlock => self.close_code(),
            Element::TableHead => self.close_head(),
            Element::TableRow => self.close_row(),
            Element::TableCell => self.close_cell(),
            Element::Table => self.close_table(),
            Element::Emphasis => {
                self.italic = false;
            },
            Element::Strong => {
                self.bold = false;
            },
            Element::Strikethrough => {
                self.strike = false;
            },
            Element::Paragraph => self.close_paragraph(),
            Element::Other => {},
        }
        assert(self.draft() =~= closed(old(self).draft(), element));
    }

    fn take(&mut self, event: Event)
        requires
            old(self).quoting < usize::MAX,
        ensures
            final(self).draft() == step(old(self).draft(), event@),
            final(self).quoting <= old(self).quoting + 1,
    {
        match event {
            Event::Open(element) => self.open(element),
            Event::OpenList(first) => self.open_list(first),
            Event::Close(element) => self.close(element),
            Event::Text(text) => {
                let code: Option<String> = self.code.take();
                match code {
                    Some(mut code) => {
                        code.push_str(text.as_str());
                        self.code = Some(code);
                        assert(self.draft() =~= step(old(self).draft(), event@));
                    },
                    None => {
                        assert(self.draft() =~= old(self).draft());
                        self.say(text.as_str());
                    },
                }
            },
            Event::Code(text) => self.say(text.as_str()),
            Event::Html(text) => self.say(text.as_str()),
            Event::SoftBreak => self.say(" "),
            Event::HardBreak => self.say(" "),
            Event::Rule => {
                push_block(&mut self.blocks, Block::Rule);
                assert(self.draft() =~= step(old(self).draft(), event@));
            },
            Event::Task(done) => {
                if done {
                    self.say("\u{2611} ");
                } else {
                    self.say("\u{2610} ");
                }
            },
            Event::Other => {},
        }
    }
}

/// Folds the events of a document into its blocks.
pub fn fold(events: Vec<Event>) -> (r: Vec<Block>)
    ensures
        pieces(r@) == blocks_of(marks(events@)),
{
    let ghost all = marks(events@);
    let total: usize = events.len();
    let mut folding: Folding = Folding::new();
    assert(all.take(0) =~= Seq::empty());
    for event in it: events
        invariant
            all == marks(it.seq()),
            it.seq().len() == total,
            folding.quoting <= it.index(),
            folding.draft() == drafted(all.take(it.index() as int)),
    {
        folding.take(event);
        proof {
            lemma_prefix_step(all, it.index() as int);
        }
    }
    assert(all.take(all.len() as int) =~= all);
    let Folding { mut blocks, runs: rest, bold, italic, strike, lists, quoting, heading, code, table } =
        folding;
    if rest.len() > 0 {
        push_block(&mut blocks, Block::Paragraph(rest));
    }
    blocks
}

// ------------------------------------------------------------------ headings

/// How many `#` stand in a row from `at` on.
pub open spec fn hash_run(line: Seq<char>, at: int) -> nat
    decreases line.len() - at,
{
    if 0 <= at < line.len() && line[at] == '#' {
        1 + hash_run(line, at + 1)
    } else {
        0
    }
}

/// Whether a heading marker stands in the middle of a line: one to six `#`
/// between white space, with something said before them.
pub open spec fn heading_at(line: Seq<char>, at: int) -> bool {
    &&& 0 < at < line.len()
    &&& line[at] == '#'
    &&& whitespace(line[at - 1])
    &&& exists|k: int| 0 <= k < at && !whitespace(#[trigger] line[k])
    &&& hash_run(line, at) <= 6
    &&& at + hash_run(line, at) < line.len()
    &&& whitespace(line[at + hash_run(line, at)])
}

/// The first heading marker in the middle of a line, from `at` on.
pub open spec fn first_heading(line: Seq<char>, at: int) -> Option<int>
    decreases line.len() - at,
{
    if at < 0 || at >= line.len() {
        None
    } else if heading_at(line, at) {
        Some(at)
    } else {
        first_heading(line, at + 1)
    }
}

/// A line with the first heading in the middle of it on a line of its own.
pub open spec fn broken_line(line: Seq<char>) -> Seq<char> {
    match first_heading(line, 0) {
        Some(at) => trim_back(line.take(at), is_char(' ')) + "\n\n"@ + line.skip(at),
        None => line,
    }
}

/// A text with every such heading on a line of its own.
pub open spec fn broken(markdown: Seq<char>) -> Seq<char> {
    joined(lines_of(markdown).map_values(|line: Seq<char>| broken_line(line)), "\n"@)
}

fn count_hashes(line: &[char], at: usize) -> (r: usize)
    requires
        at <= line.len(),
    ensures
        r == hash_run(line@, at as int),
        at + r <= line.len(),
{
    let mut i: usize = at;
    while i < line.len() && line[i] == '#'
        invariant
            at <= i <= line.len(),
            hash_run(line@, at as int) == (i - at) + hash_run(line@, i as int),
        decreases line.len() - i,
    {
        i += 1;
    }
    i - at
}

fn find_heading(line: &[char]) -> (r: Option<usize>)
    ensures
        match first_heading(line@, 0) {
            Some(at) => r matches Some(k) && k == at && k < line.len(),
            None => r is None,
        },
{
    let mut at: usize = 0;
    let mut said: bool = false;
    while at < line.len()
        invariant
            at <= line.len(),
            said <==> exists|k: int| 0 <= k < at && !whitespace(#[trigger] line@[k]),
            first_heading(line@, 0) == first_heading(line@, at as int),
        decreases line.len() - at,
    {
        if line[at] == '#' && at > 0 && is_whitespace(line[at - 1]) && said {
            let hashes: usize = count_hashes(line, at);
            if hashes <= 6 && at + hashes < line.len() && is_whitespace(line[at + hashes]) {
                assert(heading_at(line@, at as int));
                return Some(at);
            }
        }
        assert(!heading_at(line@, at as int));
        if !is_whitespace(line[at]) {
            said = true;
            assert(!whitespace(line@[at as int]));
        }
        at += 1;
    }
    None
}

fn break_line(line: &[char]) -> (r: Vec<char>)
    ensures
        r@ == broken_line(line@),
{
    match find_heading(line) {
        Some(at) => {
            let mut out: Vec<char> = copy_range(line, 0, at);
            assert(out@ =~= line@.take(at as int));
            let ghost front = line@.take(at as int);
            while out.len() > 0 && out[out.len() - 1] == ' '
                invariant
                    trim_back(front, is_char(' ')) == trim_back(out@, is_char(' ')),
                decreases out.len(),
            {
                out.pop();
            }
            push_all(&mut out, chars_of("\n\n").as_slice());
            let rest: Vec<char> = copy_range(line, at, line.len());
            assert(rest@ =~= line@.skip(at as int));
            push_all(&mut out, rest.as_slice());
            out
        },
        None => {
            let out: Vec<char> = copy_range(line, 0, line.len());
            assert(out@ =~= line@);
            out
        },
    }
}

/// Puts a heading back on a line of its own.
///
/// A model will write "...and the older son. ## Main points" on one run and
/// break the line on the next, and Markdown only recognises a heading at the
/// start of a line.
pub fn break_before_headings(markdown: &str) -> (r: String)
    ensures
        r@ == broken(markdown@),
{
    let all: Vec<Vec<char>> = lines(chars_of(markdown).as_slice());
    let ghost before = chars_list(all@);
    let ghost wanted = before.map_values(|line: Seq<char>| broken_line(line));
    let mut out: Vec<Vec<char>> = Vec::new();
    let mut i: usize = 0;
    assert(chars_list(out@) =~= wanted.take(0));
    while i < all.len()
        invariant
            i <= all.len(),
            before == chars_list(all@),
            wanted == before.map_values(|line: Seq<char>| broken_line(line)),
            chars_list(out@) == wanted.take(i as int),
        decreases all.len() - i,
    {
        let line: Vec<char> = break_line(all[i].as_slice());
        let ghost done = chars_list(out@);
        out.push(line);
        assert(chars_list(out@) =~= done.push(line@));
        i += 1;
        assert(wanted.take(i as int) =~= wanted.take(i - 1).push(wanted[i - 1]));
    }
    assert(wanted.take(i as int) =~= wanted);
    text_of(join(out.as_slice(), chars_of("\n").as_slice()).as_slice())
}

/// Reads Markdown.
pub fn parse(markdown: &str) -> (r: Vec<Block>)
    ensures
        pieces(r@) == blocks_of(markdown_events(broken(markdown@))),
{
    let markdown: String = break_before_headings(markdown);
    fold(events(markdown.as_str()))
}

} // verus!
