//! The export laid out on pages.
//!
//! What is drawn, in which order, at what size and how far in, is decided here,
//! and so is where a line breaks once its width is known. Measuring in
//! millimetres and drawing belong to whoever owns the page.

use crate::exports::model::{
    cells, copy_spans, grid, only, pieces, plain, plain_run, plain_text, push_span, runs, Block,
    Piece, Run, Span,
};
use crate::text::{
    chars_of, decimal, fields, is_word, join_texts, joined, lemma_prefix_step, lemma_split_push,
    push_decimal, split_whitespace, texts,
};
use vstd::prelude::*;

verus! {

// -------------------------------------------------------------------- widths

/// Advance widths of Helvetica from space to tilde, in thousandths of an em.
pub open spec fn regular_widths() -> Seq<u16> {
    seq![
        278, 278, 355, 556, 556, 889, 667, 191, 333, 333, 389, 584, 278, 333, 278, 278, 556, 556,
        556, 556, 556, 556, 556, 556, 556, 556, 278, 278, 584, 584, 584, 556, 1015, 667, 667,
        722, 722, 667, 611, 778, 722, 278, 500, 667, 556, 833, 722, 778, 667, 778, 722, 667, 611,
        722, 667, 944, 667, 667, 611, 278, 278, 278, 469, 556, 333, 556, 556, 500, 556, 556, 278,
        556, 556, 222, 222, 500, 222, 833, 556, 556, 556, 556, 333, 500, 278, 556, 500, 722, 500,
        500, 500, 334, 260, 334, 584,
    ]
}

/// Advance widths of Helvetica Bold from space to tilde.
pub open spec fn bold_widths() -> Seq<u16> {
    seq![
        278, 333, 474, 556, 556, 889, 722, 238, 333, 333, 389, 584, 278, 333, 278, 278, 556, 556,
        556, 556, 556, 556, 556, 556, 556, 556, 333, 333, 584, 584, 584, 611, 975, 722, 722, 722,
        722, 667, 611, 778, 722, 278, 556, 722, 611, 833, 722, 778, 667, 778, 722, 667, 611, 722,
        667, 944, 667, 667, 611, 333, 278, 333, 584, 556, 333, 556, 611, 556, 611, 556, 333, 611,
        611, 278, 278, 556, 278, 889, 611, 611, 611, 611, 389, 556, 333, 611, 556, 778, 556, 556,
        500, 389, 280, 389, 584,
    ]
}

/// How far a character advances, in thousandths of an em. Beyond ASCII the
/// handful a summary actually uses are known, and everything else takes a
/// middling width.
pub open spec fn advance_of(c: char, bold: bool) -> u16 {
    if ' ' <= c <= '~' {
        if bold {
            bold_widths()[c as int - 32]
        } else {
            regular_widths()[c as int - 32]
        }
    } else if c == '\u{2014}' || c == '\u{2026}' {
        1000
    } else if c == '\u{2018}' || c == '\u{2019}' {
        if bold {
            238
        } else {
            222
        }
    } else if c == '\u{201c}' || c == '\u{201d}' {
        if bold {
            500
        } else {
            333
        }
    } else if c == '\u{2022}' {
        350
    } else if c == '\u{a0}' {
        278
    } else if c == '\u{2611}' || c == '\u{2610}' {
        778
    } else {
        556
    }
}

fn regular_width(at: usize) -> (r: u16)
    requires
        at < 95,
    ensures
        r == regular_widths()[at as int],
{
    let table: [u16; 95] = [
        278, 278, 355, 556, 556, 889, 667, 191, 333, 333, 389, 584, 278, 333, 278, 278, 556, 556,
        556, 556, 556, 556, 556, 556, 556, 556, 278, 278, 584, 584, 584, 556, 1015, 667, 667,
        722, 722, 667, 611, 778, 722, 278, 500, 667, 556, 833, 722, 778, 667, 778, 722, 667, 611,
        722, 667, 944, 667, 667, 611, 278, 278, 278, 469, 556, 333, 556, 556, 500, 556, 556, 278,
        556, 556, 222, 222, 500, 222, 833, 556, 556, 556, 556, 333, 500, 278, 556, 500, 722, 500,
        500, 500, 334, 260, 334, 584,
    ];
    table[at]
}

fn bold_width(at: usize) -> (r: u16)
    requires
        at < 95,
    ensures
        r == bold_widths()[at as int],
{
    let table: [u16; 95] = [
        278, 333, 474, 556, 556, 889, 722, 238, 333, 333, 389, 584, 278, 333, 278, 278, 556, 556,
        556, 556, 556, 556, 556, 556, 556, 556, 333, 333, 584, 584, 584, 611, 975, 722, 722, 722,
        722, 667, 611, 778, 722, 278, 556, 722, 611, 833, 722, 778, 667, 778, 722, 667, 611, 722,
        667, 944, 667, 667, 611, 333, 278, 333, 584, 556, 333, 556, 611, 556, 611, 556, 333, 611,
        611, 278, 278, 556, 278, 889, 611, 611, 611, 611, 389, 556, 333, 611, 556, 778, 556, 556,
        500, 389, 280, 389, 584,
    ];
    table[at]
}

/// Advance widths for the built-in Helvetica faces, in thousandths of an em.
pub fn advance(c: char, bold: bool) -> (r: u16)
    ensures
        r == advance_of(c, bold),
{
    if ' ' <= c && c <= '~' {
        let at: usize = (c as u32 - 32) as usize;
        if bold {
            bold_width(at)
        } else {
            regular_width(at)
        }
    } else if c == '\u{2014}' || c == '\u{2026}' {
        1000
    } else if c == '\u{2018}' || c == '\u{2019}' {
        if bold {
            238
        } else {
            222
        }
    } else if c == '\u{201c}' || c == '\u{201d}' {
        if bold {
            500
        } else {
            333
        }
    } else if c == '\u{2022}' {
        350
    } else if c == '\u{a0}' {
        278
    } else if c == '\u{2611}' || c == '\u{2610}' {
        778
    } else {
        556
    }
}

/// How wide a text is, in thousandths of an em.
pub open spec fn thousandths_of(s: Seq<char>, bold: bool) -> nat
    decreases s.len(),
{
    if s.len() == 0 {
        0
    } else {
        thousandths_of(s.drop_last(), bold) + advance_of(s.last(), bold) as nat
    }
}

/// How wide a text is, in thousandths of an em.
pub fn thousandths(text: &str, bold: bool) -> (r: u64)
    requires
        text@.len() <= u32::MAX,
    ensures
        r == thousandths_of(text@, bold),
{
    let chars: Vec<char> = chars_of(text);
    let mut total: u64 = 0;
    let mut i: usize = 0;
    while i < chars.len()
        invariant
            i <= chars.len() <= u32::MAX,
            total == thousandths_of(chars@.take(i as int), bold),
            total <= i * 65535,
        decreases chars.len() - i,
    {
        total += advance(chars[i], bold) as u64;
        i += 1;
        proof {
            lemma_prefix_step(chars@, i - 1);
        }
    }
    assert(chars@.take(i as int) =~= chars@);
    total
}

/// How wide a cell is; no cell is no width.
pub open spec fn cell_width(row: Seq<Seq<Run>>, at: int, bold: bool) -> nat {
    if 0 <= at < row.len() {
        thousandths_of(plain_text(row[at]), bold)
    } else {
        0
    }
}

pub open spec fn width_at(widths: Seq<nat>, at: int) -> nat {
    if 0 <= at < widths.len() {
        widths[at]
    } else {
        0
    }
}

pub open spec fn wider(a: nat, b: nat) -> nat {
    if a >= b {
        a
    } else {
        b
    }
}

/// Columns just wide enough for what they were wide enough for and one more row.
pub open spec fn widened(widths: Seq<nat>, row: Seq<Seq<Run>>, bold: bool) -> Seq<nat> {
    Seq::new(
        wider(widths.len(), row.len()),
        |at: int| wider(width_at(widths, at), cell_width(row, at, bold)),
    )
}

/// The widths of a table's columns: as wide as the widest cell in each, the head
/// measured in bold.
pub open spec fn columns(head: Seq<Seq<Run>>, rows: Seq<Seq<Seq<Run>>>) -> Seq<nat>
    decreases rows.len(),
{
    if rows.len() == 0 {
        widened(Seq::empty(), head, true)
    } else {
        widened(columns(head, rows.drop_last()), rows.last(), false)
    }
}

/// Whether a row can be measured: none of its cells is too long to count.
pub open spec fn is_measurable(row: Seq<Seq<Run>>) -> bool {
    forall|at: int| 0 <= at < row.len() ==> plain_text(#[trigger] row[at]).len() <= u32::MAX
}

pub open spec fn numbers(widths: Seq<u64>) -> Seq<nat> {
    widths.map_values(|w: u64| w as nat)
}

/// Widens columns to hold one more row.
fn widen(widths: &mut Vec<u64>, row: &[Vec<Span>], bold: bool)
    requires
        is_measurable(cells(row@)),
    ensures
        numbers(final(widths)@) == widened(numbers(old(widths)@), cells(row@), bold),
{
    let ghost listed = cells(row@);
    let ghost before = numbers(widths@);
    let mut at: usize = 0;
    assert(numbers(widths@) =~= widened(before, listed.take(0), bold));
    while at < row.len()
        invariant
            at <= row.len(),
            listed == cells(row@),
            is_measurable(listed),
            numbers(widths@) == widened(before, listed.take(at as int), bold),
        decreases row.len() - at,
    {
        assert(listed[at as int] == runs(row@[at as int]@));
        let ghost so_far = numbers(widths@);
        assert(so_far.len() == widths@.len());
        let wide: u64 = thousandths(plain(row[at].as_slice()).as_str(), bold);
        if at < widths.len() {
            assert(so_far[at as int] == width_at(before, at as int));
            if widths[at] < wide {
                widths.set(at, wide);
            }
        } else {
            widths.push(wide);
        }
        at += 1;
        proof {
            let then = listed.take(at - 1);
            let now = listed.take(at as int);
            assert forall|k: int| 0 <= k < widths@.len() implies (#[trigger] numbers(widths@)[k])
                == widened(before, now, bold)[k] by {
                if k != at - 1 {
                    assert(numbers(widths@)[k] == so_far[k]);
                    assert(cell_width(now, k, bold) == cell_width(then, k, bold));
                } else {
                    assert(cell_width(now, k, bold) == wide);
                }
            }
            assert(numbers(widths@) =~= widened(before, now, bold));
        }
    }
    assert(listed.take(at as int) =~= listed);
}

/// The widths of a table's columns, in thousandths of an em. Columns are placed
/// at measured offsets: padding with spaces would assume that every character
/// is as wide as every other.
pub fn column_widths(head: &[Vec<Span>], rows: &[Vec<Vec<Span>>]) -> (r: Vec<u64>)
    requires
        is_measurable(cells(head@)),
        forall|i: int| 0 <= i < rows@.len() ==> is_measurable(cells((#[trigger] rows@[i])@)),
    ensures
        numbers(r@) == columns(cells(head@), grid(rows@)),
{
    let mut widths: Vec<u64> = Vec::new();
    assert(numbers(widths@) =~= Seq::empty());
    widen(&mut widths, head, true);
    let ghost all = grid(rows@);
    let ghost first = cells(head@);
    let mut i: usize = 0;
    assert(all.take(0) =~= Seq::empty());
    while i < rows.len()
        invariant
            i <= rows.len(),
            all == grid(rows@),
            forall|k: int| 0 <= k < rows@.len() ==> is_measurable(cells((#[trigger] rows@[k])@)),
            numbers(widths@) == columns(first, all.take(i as int)),
        decreases rows.len() - i,
    {
        widen(&mut widths, rows[i].as_slice(), false);
        i += 1;
        proof {
            lemma_prefix_step(all, i - 1);
            assert(all[i - 1] == cells(rows@[i - 1]@));
        }
    }
    assert(all.take(i as int) =~= all);
    widths
}

/// Every cell of a table fits the column it stands in, and there are exactly as
/// many columns as the longest row has cells.
pub proof fn law_every_cell_fits_its_column(
    head: Seq<Seq<Run>>,
    rows: Seq<Seq<Seq<Run>>>,
    i: int,
    at: int,
)
    ensures
        0 <= at < head.len() ==> at < columns(head, rows).len() && cell_width(head, at, true)
            <= columns(head, rows)[at],
        0 <= i < rows.len() && 0 <= at < rows[i].len() ==> at < columns(head, rows).len()
            && cell_width(rows[i], at, false) <= columns(head, rows)[at],
        columns(head, rows).len() == head.len() || exists|k: int|
            0 <= k < rows.len() && (#[trigger] rows[k]).len() == columns(head, rows).len(),
    decreases rows.len(),
{
    if rows.len() > 0 {
        let before = rows.drop_last();
        law_every_cell_fits_its_column(head, before, i, at);
        if 0 <= i < rows.len() - 1 {
            assert(before[i] == rows[i]);
        }
        let count = columns(head, rows).len();
        if count != head.len() {
            if rows.last().len() == count {
                assert(rows[rows.len() - 1].len() == count);
            } else {
                let k = choose|k: int|
                    0 <= k < before.len() && (#[trigger] before[k]).len() == columns(
                        head,
                        before,
                    ).len();
                assert(rows[k].len() == count);
            }
        }
    }
}

// --------------------------------------------------------------------- plan

/// One thing to do on the page, from the top down.
#[derive(Debug, PartialEq)]
pub enum Step {
    /// Leave so many tenths of a millimetre empty.
    Gap(u32),
    /// Draw text at a size in points, so many millimetres in.
    Lines { text: Vec<Span>, size: u32, indent: u32, bold: bool, quoted: bool },
    /// Draw a table.
    Table { head: Vec<Vec<Span>>, rows: Vec<Vec<Vec<Span>>> },
    /// Draw a line across the page.
    Rule,
}

/// A step as contracts speak of it.
#[verifier::ext_equal]
pub enum Drawn {
    Gap(u32),
    Lines { text: Seq<Run>, size: u32, indent: u32, bold: bool, quoted: bool },
    Table { head: Seq<Seq<Run>>, rows: Seq<Seq<Seq<Run>>> },
    Rule,
}

impl View for Step {
    type V = Drawn;

    open spec fn view(&self) -> Drawn {
        match *self {
            Step::Gap(tenths) => Drawn::Gap(tenths),
            Step::Lines { text, size, indent, bold, quoted } => Drawn::Lines {
                text: runs(text@),
                size,
                indent,
                bold,
                quoted,
            },
            Step::Table { head, rows } => Drawn::Table {
                head: cells(head@),
                rows: grid(rows@),
            },
            Step::Rule => Drawn::Rule,
        }
    }
}

pub open spec fn drawn(list: Seq<Step>) -> Seq<Drawn> {
    list.map_values(|s: Step| s@)
}

pub open spec fn body_text(text: Seq<Run>, indent: u32) -> Drawn {
    Drawn::Lines { text, size: 11, indent, bold: false, quoted: false }
}

pub open spec fn heading_text(text: Seq<Run>, size: u32) -> Drawn {
    Drawn::Lines { text, size, indent: 0, bold: true, quoted: false }
}

/// How far in an item stands.
pub open spec fn item_indent(depth: u8) -> u32 {
    (5 + 6 * depth) as u32
}

pub open spec fn italic_runs(list: Seq<Run>) -> Seq<Run> {
    list.map_values(|run: Run| Run { italic: true, ..run })
}

/// What one block draws.
pub open spec fn block_steps(block: Piece) -> Seq<Drawn> {
    match block {
        Piece::Heading { level, text } => seq![
            Drawn::Gap(35),
            heading_text(
                text,
                if level <= 2 {
                    14
                } else {
                    12
                },
            ),
            Drawn::Gap(15),
        ],
        Piece::Paragraph(text) => seq![body_text(text, 0), Drawn::Gap(30)],
        Piece::Bullet { depth, text } => {
            let marker = plain_run(
                if depth == 0 {
                    "\u{2022}  "@
                } else {
                    "\u{2013}  "@
                },
            );
            seq![body_text(seq![marker] + text, item_indent(depth)), Drawn::Gap(12)]
        },
        Piece::Numbered { depth, number, text } => {
            let marker = Run { bold: true, ..plain_run(decimal(number as nat) + ".  "@) };
            seq![body_text(seq![marker] + text, item_indent(depth)), Drawn::Gap(12)]
        },
        Piece::Quote(text) => seq![
            Drawn::Gap(15),
            Drawn::Lines {
                text: italic_runs(text),
                size: 11,
                indent: 8,
                bold: false,
                quoted: true,
            },
            Drawn::Gap(30),
        ],
        Piece::Table { head, rows } => seq![
            Drawn::Gap(20),
            Drawn::Table { head, rows },
            Drawn::Gap(30),
        ],
        Piece::Rule => seq![Drawn::Gap(30), Drawn::Rule, Drawn::Gap(50)],
    }
}

pub open spec fn blocks_steps(blocks: Seq<Piece>) -> Seq<Drawn>
    decreases blocks.len(),
{
    if blocks.len() == 0 {
        Seq::empty()
    } else {
        blocks_steps(blocks.drop_last()) + block_steps(blocks.last())
    }
}

pub open spec fn title_steps(title: Seq<char>) -> Seq<Drawn> {
    if title.len() == 0 {
        Seq::empty()
    } else {
        seq![heading_text(seq![plain_run(title)], 20), Drawn::Gap(50)]
    }
}

pub open spec fn subject_steps(topics: Seq<Seq<char>>) -> Seq<Drawn> {
    if topics.len() == 0 {
        Seq::empty()
    } else {
        seq![
            Drawn::Gap(50),
            heading_text(seq![plain_run("Subjects"@)], 14),
            Drawn::Gap(15),
            body_text(seq![plain_run(joined(topics, ",  "@))], 0),
        ]
    }
}

/// Everything a document draws, in order.
pub open spec fn page_steps(
    title: Seq<char>,
    blocks: Seq<Piece>,
    topics: Seq<Seq<char>>,
) -> Seq<Drawn> {
    title_steps(title) + blocks_steps(blocks) + subject_steps(topics)
}

/// What the file itself is called.
pub open spec fn document_title(title: Seq<char>) -> Seq<char> {
    if title.len() == 0 {
        "Summary"@
    } else {
        title
    }
}

/// What the file itself is called: its title, or "Summary" when it has none.
pub fn file_title(title: &str) -> (r: String)
    ensures
        r@ == document_title(title@),
{
    if title.is_empty() {
        "Summary".to_owned()
    } else {
        title.to_owned()
    }
}

fn push_step(out: &mut Vec<Step>, step: Step)
    ensures
        final(out)@ == old(out)@.push(step),
        drawn(final(out)@) == drawn(old(out)@).push(step@),
{
    out.push(step);
    assert(drawn(out@) =~= drawn(old(out)@).push(step@));
}

fn push_lines(
    out: &mut Vec<Step>,
    text: Vec<Span>,
    size: u32,
    indent: u32,
    bold: bool,
    quoted: bool,
)
    ensures
        drawn(final(out)@) == drawn(old(out)@).push(
            Drawn::Lines { text: runs(text@), size, indent, bold, quoted },
        ),
{
    push_step(out, Step::Lines { text, size, indent, bold, quoted });
}

/// Spans after a first one.
fn preceded(first: Span, rest: &[Span]) -> (r: Vec<Span>)
    ensures
        runs(r@) == seq![first@] + runs(rest@),
{
    let mut out: Vec<Span> = Vec::new();
    let ghost all = runs(rest@);
    push_span(&mut out, first);
    let mut i: usize = 0;
    assert(runs(out@) =~= seq![first@] + all.take(0));
    while i < rest.len()
        invariant
            i <= rest.len(),
            all == runs(rest@),
            runs(out@) == seq![first@] + all.take(i as int),
        decreases rest.len() - i,
    {
        push_span(&mut out, rest[i].clone());
        i += 1;
        assert(all.take(i as int) =~= all.take(i - 1).push(all[i - 1]));
        assert(runs(out@) =~= seq![first@] + all.take(i as int));
    }
    assert(all.take(i as int) =~= all);
    out
}

fn italicised(list: &[Span]) -> (r: Vec<Span>)
    ensures
        runs(r@) == italic_runs(runs(list@)),
{
    let mut out: Vec<Span> = Vec::new();
    let ghost wanted = italic_runs(runs(list@));
    let mut i: usize = 0;
    assert(runs(out@) =~= wanted.take(0));
    while i < list.len()
        invariant
            i <= list.len(),
            wanted == italic_runs(runs(list@)),
            runs(out@) == wanted.take(i as int),
        decreases list.len() - i,
    {
        let mut span: Span = list[i].clone();
        span.italic = true;
        push_span(&mut out, span);
        i += 1;
        assert(wanted.take(i as int) =~= wanted.take(i - 1).push(wanted[i - 1]));
    }
    assert(wanted.take(i as int) =~= wanted);
    out
}

fn copy_cells(list: &[Vec<Span>]) -> (r: Vec<Vec<Span>>)
    ensures
        cells(r@) == cells(list@),
{
    let mut out: Vec<Vec<Span>> = Vec::new();
    let ghost all = cells(list@);
    let mut i: usize = 0;
    assert(cells(out@) =~= all.take(0));
    while i < list.len()
        invariant
            i <= list.len(),
            all == cells(list@),
            cells(out@) == all.take(i as int),
        decreases list.len() - i,
    {
        let cell: Vec<Span> = copy_spans(list[i].as_slice());
        let ghost before = cells(out@);
        out.push(cell);
        i += 1;
        assert(cells(out@) =~= before.push(runs(cell@)));
        assert(all.take(i as int) =~= all.take(i - 1).push(all[i - 1]));
    }
    assert(all.take(i as int) =~= all);
    out
}

fn copy_grid(list: &[Vec<Vec<Span>>]) -> (r: Vec<Vec<Vec<Span>>>)
    ensures
        grid(r@) == grid(list@),
{
    let mut out: Vec<Vec<Vec<Span>>> = Vec::new();
    let ghost all = grid(list@);
    let mut i: usize = 0;
    assert(grid(out@) =~= all.take(0));
    while i < list.len()
        invariant
            i <= list.len(),
            all == grid(list@),
            grid(out@) == all.take(i as int),
        decreases list.len() - i,
    {
        let row: Vec<Vec<Span>> = copy_cells(list[i].as_slice());
        let ghost before = grid(out@);
        out.push(row);
        i += 1;
        assert(grid(out@) =~= before.push(
            cells(row@),
        ));
        assert(all.take(i as int) =~= all.take(i - 1).push(all[i - 1]));
    }
    assert(all.take(i as int) =~= all);
    out
}

fn push_block_steps(out: &mut Vec<Step>, block: &Block)
    ensures
        drawn(final(out)@) == drawn(old(out)@) + block_steps(block@),
{
    match block {
        Block::Heading { level, text } => {
            push_step(out, Step::Gap(35));
            let size: u32 = if *level <= 2 {
                14
            } else {
                12
            };
            push_lines(out, copy_spans(text.as_slice()), size, 0, true, false);
            push_step(out, Step::Gap(15));
        },
        Block::Paragraph(text) => {
            push_lines(out, copy_spans(text.as_slice()), 11, 0, false, false);
            push_step(out, Step::Gap(30));
        },
        Block::Bullet { depth, text } => {
            let marker: Span = Span::plain(
                if *depth == 0 {
                    "\u{2022}  "
                } else {
                    "\u{2013}  "
                },
            );
            let indent: u32 = 5 + 6 * (*depth as u32);
            push_lines(out, preceded(marker, text.as_slice()), 11, indent, false, false);
            push_step(out, Step::Gap(12));
        },
        Block::Numbered { depth, number, text } => {
            let mut name: String = String::new();
            push_decimal(&mut name, *number as u64);
            name.push_str(".  ");
            assert(name@ =~= decimal(*number as nat) + ".  "@);
            let marker: Span = Span { text: name, bold: true, italic: false, strike: false };
            let indent: u32 = 5 + 6 * (*depth as u32);
            push_lines(out, preceded(marker, text.as_slice()), 11, indent, false, false);
            push_step(out, Step::Gap(12));
        },
        Block::Quote(text) => {
            push_step(out, Step::Gap(15));
            push_lines(out, italicised(text.as_slice()), 11, 8, false, true);
            push_step(out, Step::Gap(30));
        },
        Block::Table { head, rows } => {
            push_step(out, Step::Gap(20));
            push_step(
                out,
                Step::Table {
                    head: copy_cells(head.as_slice()),
                    rows: copy_grid(rows.as_slice()),
                },
            );
            push_step(out, Step::Gap(30));
        },
        Block::Rule => {
            push_step(out, Step::Gap(30));
            push_step(out, Step::Rule);
            push_step(out, Step::Gap(50));
        },
    }
    assert(drawn(out@) =~= drawn(old(out)@) + block_steps(block@));
}

/// Everything a document draws, in order.
pub fn plan(title: &str, blocks: &[Block], topics: &[String]) -> (r: Vec<Step>)
    ensures
        drawn(r@) == page_steps(title@, pieces(blocks@), texts(topics@)),
{
    let mut out: Vec<Step> = Vec::new();
    if !title.is_empty() {
        push_lines(&mut out, only(title), 20, 0, true, false);
        push_step(&mut out, Step::Gap(50));
    }
    assert(drawn(out@) =~= title_steps(title@));
    let ghost all = pieces(blocks@);
    let mut i: usize = 0;
    assert(drawn(out@) =~= title_steps(title@) + blocks_steps(all.take(0)));
    while i < blocks.len()
        invariant
            i <= blocks.len(),
            all == pieces(blocks@),
            drawn(out@) == title_steps(title@) + blocks_steps(all.take(i as int)),
        decreases blocks.len() - i,
    {
        push_block_steps(&mut out, &blocks[i]);
        i += 1;
        proof {
            lemma_prefix_step(all, i - 1);
            assert(drawn(out@) =~= title_steps(title@) + (blocks_steps(all.take(i - 1))
                + block_steps(all[i - 1])));
        }
    }
    assert(all.take(i as int) =~= all);
    assert(texts(topics@).len() == topics@.len());
    if topics.len() > 0 {
        push_step(&mut out, Step::Gap(50));
        push_lines(&mut out, only("Subjects"), 14, 0, true, false);
        push_step(&mut out, Step::Gap(15));
        push_lines(&mut out, only(join_texts(topics, ",  ").as_str()), 11, 0, false, false);
    }
    assert(drawn(out@) =~= page_steps(title@, all, texts(topics@)));
    out
}

// ------------------------------------------------------------------ wrapping

/// A word and the emphasis it is drawn in; the emphasis carries no text.
#[verifier::ext_equal]
pub struct Word {
    pub text: Seq<char>,
    pub bold: bool,
    pub italic: bool,
    pub strike: bool,
}

/// Lines being filled with words: those complete, and the one being filled.
#[verifier::ext_equal]
pub struct Filling {
    pub lines: Seq<Seq<Run>>,
    pub line: Seq<Run>,
}

pub open spec fn nothing_filled() -> Filling {
    Filling { lines: Seq::empty(), line: Seq::empty() }
}

pub open spec fn word_run(text: Seq<char>, word: Word) -> Run {
    Run { text, bold: word.bold, italic: word.italic, strike: word.strike }
}

/// A word as it would stand next: after a space, unless it starts a line.
pub open spec fn spaced(line: Seq<Run>, word: Seq<char>) -> Seq<char> {
    if line.len() == 0 {
        word
    } else {
        " "@ + word
    }
}

/// A word put down. When it overruns a line that has something on it, it starts
/// the next one; when its emphasis is that of the run before it, it joins that
/// run.
pub open spec fn put(f: Filling, word: Word, overruns: bool) -> Filling {
    if f.line.len() > 0 && overruns {
        Filling { lines: f.lines.push(f.line), line: seq![word_run(word.text, word)] }
    } else {
        let text = spaced(f.line, word.text);
        let line = if f.line.len() > 0 && f.line.last().bold == word.bold && f.line.last().italic
            == word.italic && f.line.last().strike == word.strike {
            f.line.drop_last().push(Run { text: f.line.last().text + text, ..f.line.last() })
        } else {
            f.line.push(word_run(text, word))
        };
        Filling { line, ..f }
    }
}

/// The lines in the end. Nothing at all is one empty line.
pub open spec fn filled_lines(f: Filling) -> Seq<Seq<Run>> {
    if f.line.len() > 0 {
        f.lines.push(f.line)
    } else if f.lines.len() > 0 {
        f.lines
    } else {
        seq![seq![plain_run(Seq::empty())]]
    }
}

/// Breaks spans into lines, word by word, keeping each word's emphasis with it.
///
/// Whoever owns the page measures what `next` gives for a word and tells `put`
/// whether it overruns the line.
#[derive(Debug)]
pub struct Wrapping {
    lines: Vec<Vec<Span>>,
    line: Vec<Span>,
}

impl View for Wrapping {
    type V = Filling;

    closed spec fn view(&self) -> Filling {
        Filling { lines: cells(self.lines@), line: runs(self.line@) }
    }
}

pub open spec fn styled(word: Seq<char>, style: Run) -> Word {
    Word { text: word, bold: style.bold, italic: style.italic, strike: style.strike }
}

impl Wrapping {
    /// Nothing filled yet.
    pub fn new() -> (r: Wrapping)
        ensures
            r@ == nothing_filled(),
    {
        let r: Wrapping = Wrapping { lines: Vec::new(), line: Vec::new() };
        assert(r@ =~= nothing_filled());
        r
    }

    /// Whether the next word starts a line.
    pub fn starts_line(&self) -> (r: bool)
        ensures
            r == (self@.line.len() == 0),
    {
        self.line.len() == 0
    }

    /// The word as it would stand next, to be measured.
    pub fn next(&self, word: &str) -> (r: String)
        ensures
            r@ == spaced(self@.line, word@),
    {
        let mut out: String = String::new();
        if self.line.len() > 0 {
            out.push_str(" ");
        }
        out.push_str(word);
        assert(out@ =~= spaced(self@.line, word@));
        out
    }

    /// Puts a word down in the emphasis of its span.
    pub fn put(&mut self, word: &str, span: &Span, overruns: bool)
        ensures
            final(self)@ == put(old(self)@, styled(word@, span@), overruns),
    {
        let ghost given = styled(word@, span@);
        if self.line.len() > 0 && overruns {
            let mut line: Vec<Span> = Vec::new();
            std::mem::swap(&mut line, &mut self.line);
            let ghost before = cells(self.lines@);
            self.lines.push(line);
            assert(cells(self.lines@) =~= before.push(runs(line@)));
            push_span(
                &mut self.line,
                Span {
                    text: word.to_owned(),
                    bold: span.bold,
                    italic: span.italic,
                    strike: span.strike,
                },
            );
            assert(runs(self.line@) =~= seq![word_run(word@, given)]);
            assert(self@ =~= put(old(self)@, given, overruns));
            return;
        }
        let text: String = self.next(word);
        let ghost before = runs(self.line@);
        let matching: bool = if self.line.len() > 0 {
            let last: &Span = &self.line[self.line.len() - 1];
            last.bold == span.bold && last.italic == span.italic && last.strike == span.strike
        } else {
            false
        };
        let mut run: Span = Span {
            text: String::new(),
            bold: span.bold,
            italic: span.italic,
            strike: span.strike,
        };
        if matching {
            if let Some(last) = self.line.pop() {
                assert(runs(self.line@) =~= before.drop_last());
                run = last;
            }
        }
        run.text.push_str(text.as_str());
        if !matching {
            assert(run@.text =~= text@);
        }
        push_span(&mut self.line, run);
        assert(self@ =~= put(old(self)@, given, overruns));
    }

    /// The lines in the end.
    pub fn finish(self) -> (r: Vec<Vec<Span>>)
        ensures
            cells(r@) == filled_lines(self@),
    {
        let Wrapping { mut lines, line } = self;
        let ghost before = cells(lines@);
        if line.len() > 0 {
            lines.push(line);
            assert(cells(lines@) =~= before.push(runs(line@)));
        } else if lines.len() == 0 {
            let mut empty: Vec<Span> = Vec::new();
            push_span(&mut empty, Span::default());
            assert(runs(empty@) =~= seq![plain_run(Seq::empty())]);
            lines.push(empty);
            assert(cells(lines@) =~= seq![
                seq![plain_run(Seq::<char>::empty())],
            ]);
        }
        lines
    }
}

/// Words put down one after another, each with what measuring it said.
pub open spec fn put_all(words: Seq<Word>, overruns: Seq<bool>) -> Filling
    decreases words.len(),
{
    if words.len() == 0 {
        nothing_filled()
    } else {
        put(put_all(words.drop_last(), overruns), words.last(), overruns[words.len() - 1])
    }
}

/// The words of a run, each in the run's emphasis.
pub open spec fn words_in(run: Run) -> Seq<Word> {
    split_whitespace(run.text).map_values(|text: Seq<char>| styled(text, run))
}

pub open spec fn words_in_runs(list: Seq<Run>) -> Seq<Word>
    decreases list.len(),
{
    if list.len() == 0 {
        Seq::empty()
    } else {
        words_in_runs(list.drop_last()) + words_in(list.last())
    }
}

pub open spec fn words_in_lines(lines: Seq<Seq<Run>>) -> Seq<Word>
    decreases lines.len(),
{
    if lines.len() == 0 {
        Seq::empty()
    } else {
        words_in_lines(lines.drop_last()) + words_in_runs(lines.last())
    }
}

proof fn lemma_put_keeps_words(f: Filling, word: Word, overruns: bool)
    requires
        is_word(word.text),
    ensures
        ({
            let after = put(f, word, overruns);
            words_in_lines(after.lines) + words_in_runs(after.line) == (words_in_lines(f.lines)
                + words_in_runs(f.line)).push(word)
        }),
{
    let after = put(f, word, overruns);
    let before = words_in_lines(f.lines) + words_in_runs(f.line);
    if f.line.len() > 0 && overruns {
        let run = word_run(word.text, word);
        assert(f.lines.push(f.line).drop_last() =~= f.lines);
        assert(words_in_lines(after.lines) =~= before);
        let only = seq![run];
        assert(only.drop_last() =~= Seq::empty());
        lemma_split_push(Seq::empty(), word.text);
        assert(words_in(run) =~= seq![word]);
        assert(words_in_runs(Seq::<Run>::empty()) =~= Seq::<Word>::empty());
        assert(words_in_runs(only) =~= seq![word]);
        assert(words_in_lines(after.lines) + words_in_runs(after.line) =~= before.push(word));
    } else {
        let text = spaced(f.line, word.text);
        if f.line.len() > 0 && f.line.last().bold == word.bold && f.line.last().italic
            == word.italic && f.line.last().strike == word.strike {
            let last = f.line.last();
            let joint = Run { text: last.text + text, ..last };
            let line = f.line.drop_last().push(joint);
            assert(line.drop_last() =~= f.line.drop_last());
            lemma_split_push(last.text, word.text);
            assert(last.text + text =~= last.text + " "@ + word.text);
            assert(words_in(joint) =~= words_in(last).push(word));
            assert(words_in_runs(line) =~= words_in_runs(f.line).push(word));
        } else {
            let run = word_run(text, word);
            let line = f.line.push(run);
            assert(line.drop_last() =~= f.line);
            lemma_split_push(Seq::empty(), word.text);
            if f.line.len() > 0 {
                assert(text =~= Seq::<char>::empty() + " "@ + word.text);
                assert(fields(Seq::<char>::empty()).0 =~= Seq::<Seq<char>>::empty());
                assert(split_whitespace(Seq::<char>::empty()) =~= Seq::<Seq<char>>::empty());
                assert(split_whitespace(text) =~= seq![word.text]);
            }
            assert(words_in(run) =~= seq![word]);
            assert(words_in_runs(line) =~= words_in_runs(f.line).push(word));
        }
        assert(words_in_lines(after.lines) + words_in_runs(after.line) =~= before.push(word));
    }
}

proof fn lemma_put_all_keeps_words(words: Seq<Word>, overruns: Seq<bool>)
    requires
        forall|i: int| 0 <= i < words.len() ==> is_word((#[trigger] words[i]).text),
    ensures
        ({
            let f = put_all(words, overruns);
            words_in_lines(f.lines) + words_in_runs(f.line) == words
        }),
    decreases words.len(),
{
    let f = put_all(words, overruns);
    if words.len() == 0 {
        assert(words_in_lines(f.lines) + words_in_runs(f.line) =~= words);
    } else {
        let front = words.drop_last();
        assert forall|i: int| 0 <= i < front.len() implies is_word((#[trigger] front[i]).text) by {
            assert(front[i] == words[i]);
        }
        lemma_put_all_keeps_words(front, overruns);
        assert(is_word(words[words.len() - 1].text));
        lemma_put_keeps_words(
            put_all(front, overruns),
            words.last(),
            overruns[words.len() - 1],
        );
        assert(front.push(words.last()) =~= words);
    }
}

/// Whatever measuring says, the lines hold every word in order, each in its own
/// emphasis.
pub proof fn law_lines_keep_each_word_with_its_emphasis(words: Seq<Word>, overruns: Seq<bool>)
    requires
        forall|i: int| 0 <= i < words.len() ==> is_word((#[trigger] words[i]).text),
    ensures
        words_in_lines(filled_lines(put_all(words, overruns))) == words,
{
    let f = put_all(words, overruns);
    lemma_put_all_keeps_words(words, overruns);
    let lines = filled_lines(f);
    if f.line.len() > 0 {
        assert(f.lines.push(f.line).drop_last() =~= f.lines);
    } else {
        assert(words_in_runs(f.line) =~= Seq::<Word>::empty());
        assert(words =~= words_in_lines(f.lines));
        if f.lines.len() == 0 {
            let empty = seq![plain_run(Seq::<char>::empty())];
            assert(empty.drop_last() =~= Seq::empty());
            assert(lines.drop_last() =~= Seq::empty());
            assert(words_in_runs(Seq::<Run>::empty()) =~= Seq::<Word>::empty());
            assert(words_in_lines(Seq::<Seq<Run>>::empty()) =~= Seq::<Word>::empty());
            assert(split_whitespace(Seq::<char>::empty()) =~= Seq::<Seq<char>>::empty());
            assert(words_in(empty.last()) =~= Seq::<Word>::empty());
            assert(words_in_runs(empty) =~= Seq::<Word>::empty());
            assert(words_in_lines(lines) =~= Seq::<Word>::empty());
        }
    }
}

/// How many of some words, but for the first, were found to overrun.
pub open spec fn overrunning(overruns: Seq<bool>, count: nat) -> nat
    decreases count,
{
    if count <= 1 {
        0
    } else {
        overrunning(overruns, (count - 1) as nat) + if overruns[count - 1] {
            1nat
        } else {
            0nat
        }
    }
}

proof fn lemma_breaks(words: Seq<Word>, overruns: Seq<bool>)
    ensures
        put_all(words, overruns).line.len() > 0 <==> words.len() > 0,
        put_all(words, overruns).lines.len() == overrunning(overruns, words.len()),
    decreases words.len(),
{
    if words.len() > 0 {
        lemma_breaks(words.drop_last(), overruns);
    }
}

/// Each line break is needed: there is one for every word that overran what was
/// before it on its line, and no other. The first word is before none.
pub proof fn law_a_line_breaks_only_where_a_word_overruns(words: Seq<Word>, overruns: Seq<bool>)
    ensures
        filled_lines(put_all(words, overruns)).len() == overrunning(overruns, words.len()) + 1,
{
    lemma_breaks(words, overruns);
}

} // verus!
