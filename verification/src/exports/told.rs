//! That reading a document gives the document: the blocks read from the events that
//! a Markdown reader gives for some blocks are those blocks.

use crate::exports::markdown::{
    blocks_of, broken_line, drafted, empty_draft, first_heading, hash_run, heading_at, step, Draft,
    Element, Mark, TableDraft,
};
use crate::exports::model::{plain_run, Piece, Run};
use crate::text::{is_char, repeated, trim_back, trimmed, whitespace};
use vstd::prelude::*;

verus! {

/// What has been read once a draft has taken in a run of events.
pub open spec fn reading_on(d: Draft, events: Seq<Mark>) -> Draft
    decreases events.len(),
{
    if events.len() == 0 {
        d
    } else {
        step(reading_on(d, events.drop_last()), events.last())
    }
}

proof fn lemma_on(d: Draft, a: Seq<Mark>, b: Seq<Mark>)
    ensures
        reading_on(d, a + b) == reading_on(reading_on(d, a), b),
    decreases b.len(),
{
    if b.len() == 0 {
        assert(a + b =~= a);
    } else {
        lemma_on(d, a, b.drop_last());
        assert((a + b).drop_last() =~= a + b.drop_last());
    }
}

proof fn lemma_one(d: Draft, mark: Mark)
    ensures
        reading_on(d, seq![mark]) == step(d, mark),
{
    assert(seq![mark].drop_last() =~= Seq::empty());
    assert(reading_on(d, Seq::empty()) == d);
}

proof fn lemma_drafted(events: Seq<Mark>)
    ensures
        drafted(events) == reading_on(empty_draft(), events),
    decreases events.len(),
{
    if events.len() > 0 {
        lemma_drafted(events.drop_last());
    }
}

// ---------------------------------------------------------------------- runs

pub open spec fn perhaps(shown: bool, mark: Mark) -> Seq<Mark> {
    if shown {
        seq![mark]
    } else {
        Seq::empty()
    }
}

/// The events of a run: its emphasis opened, its text, its emphasis closed.
pub open spec fn run_told(run: Run) -> Seq<Mark> {
    perhaps(run.bold, Mark::Open(Element::Strong)) + perhaps(
        run.italic,
        Mark::Open(Element::Emphasis),
    ) + perhaps(run.strike, Mark::Open(Element::Strikethrough)) + seq![Mark::Text(run.text)]
        + perhaps(run.strike, Mark::Close(Element::Strikethrough)) + perhaps(
        run.italic,
        Mark::Close(Element::Emphasis),
    ) + perhaps(run.bold, Mark::Close(Element::Strong))
}

pub open spec fn runs_told(list: Seq<Run>) -> Seq<Mark>
    decreases list.len(),
{
    if list.len() == 0 {
        Seq::empty()
    } else {
        runs_told(list.drop_last()) + run_told(list.last())
    }
}

pub open spec fn same_emphasis(a: Run, b: Run) -> bool {
    a.bold == b.bold && a.italic == b.italic && a.strike == b.strike
}

/// Whether runs are as they are gathered: none empty, no two neighbours alike.
pub open spec fn is_gathered(list: Seq<Run>) -> bool {
    &&& forall|i: int| 0 <= i < list.len() ==> (#[trigger] list[i]).text.len() > 0
    &&& forall|i: int|
        0 < i < list.len() ==> !same_emphasis(list[i - 1], #[trigger] list[i])
}

/// A draft that gathers text without emphasis.
spec fn is_plain(d: Draft) -> bool {
    d.style == plain_run(Seq::empty()) && d.code is None
}

proof fn lemma_perhaps(d: Draft, shown: bool, mark: Mark)
    ensures
        reading_on(d, perhaps(shown, mark)) == if shown {
            step(d, mark)
        } else {
            d
        },
{
    lemma_one(d, mark);
    assert(reading_on(d, Seq::empty()) == d);
}

proof fn lemma_run(d: Draft, run: Run)
    requires
        is_plain(d),
        run.text.len() > 0,
        d.runs.len() == 0 || !same_emphasis(d.runs.last(), run),
    ensures
        reading_on(d, run_told(run)) == (Draft { runs: d.runs.push(run), ..d }),
{
    let a = perhaps(run.bold, Mark::Open(Element::Strong));
    let b = perhaps(run.italic, Mark::Open(Element::Emphasis));
    let c = perhaps(run.strike, Mark::Open(Element::Strikethrough));
    let t = seq![Mark::Text(run.text)];
    let x = perhaps(run.strike, Mark::Close(Element::Strikethrough));
    let y = perhaps(run.italic, Mark::Close(Element::Emphasis));
    let z = perhaps(run.bold, Mark::Close(Element::Strong));
    let none = Seq::<char>::empty();
    let d1 = Draft { style: Run { bold: run.bold, ..d.style }, ..d };
    let d2 = Draft { style: Run { italic: run.italic, ..d1.style }, ..d };
    let d3 = Draft { style: Run { text: none, ..run }, ..d };
    lemma_perhaps(d, run.bold, Mark::Open(Element::Strong));
    assert(reading_on(d, a) == d1);
    lemma_on(d, a, b);
    lemma_perhaps(d1, run.italic, Mark::Open(Element::Emphasis));
    assert(reading_on(d1, b) == d2);
    lemma_on(d, a + b, c);
    lemma_perhaps(d2, run.strike, Mark::Open(Element::Strikethrough));
    assert(reading_on(d2, c) == d3);
    lemma_on(d, a + b + c, t);
    lemma_one(d3, Mark::Text(run.text));
    let e3 = Draft { runs: d.runs.push(run), ..d3 };
    assert(Run { text: run.text, ..d3.style } == run);
    assert(reading_on(d3, t) == e3);
    let e2 = Draft { style: d2.style, ..e3 };
    let e1 = Draft { style: d1.style, ..e3 };
    lemma_on(d, a + b + c + t, x);
    lemma_perhaps(e3, run.strike, Mark::Close(Element::Strikethrough));
    assert(reading_on(e3, x) == e2);
    lemma_on(d, a + b + c + t + x, y);
    lemma_perhaps(e2, run.italic, Mark::Close(Element::Emphasis));
    assert(reading_on(e2, y) == e1);
    lemma_on(d, a + b + c + t + x + y, z);
    lemma_perhaps(e1, run.bold, Mark::Close(Element::Strong));
}

proof fn lemma_runs(d: Draft, list: Seq<Run>)
    requires
        is_plain(d),
        d.runs.len() == 0,
        is_gathered(list),
    ensures
        reading_on(d, runs_told(list)) == (Draft { runs: list, ..d }),
    decreases list.len(),
{
    if list.len() == 0 {
        assert(d.runs =~= list);
    } else {
        let front = list.drop_last();
        assert forall|i: int| 0 <= i < front.len() implies (#[trigger] front[i]).text.len()
            > 0 by {
            assert(front[i] == list[i]);
        }
        assert forall|i: int| 0 < i < front.len() implies !same_emphasis(
            front[i - 1],
            #[trigger] front[i],
        ) by {
            assert(front[i] == list[i]);
            assert(front[i - 1] == list[i - 1]);
        }
        lemma_runs(d, front);
        lemma_on(d, runs_told(front), run_told(list.last()));
        let then = Draft { runs: front, ..d };
        assert(list[list.len() - 1].text.len() > 0);
        if front.len() > 0 {
            assert(!same_emphasis(list[list.len() - 2], list[list.len() - 1]));
            assert(front.last() == list[list.len() - 2]);
        }
        lemma_run(then, list.last());
        assert(front.push(list.last()) =~= list);
    }
}

// -------------------------------------------------------------------- blocks

pub open spec fn cells_told(row: Seq<Seq<Run>>) -> Seq<Mark>
    decreases row.len(),
{
    if row.len() == 0 {
        Seq::empty()
    } else {
        cells_told(row.drop_last()) + seq![Mark::Open(Element::TableCell)] + runs_told(row.last())
            + seq![Mark::Close(Element::TableCell)]
    }
}

pub open spec fn rows_told(rows: Seq<Seq<Seq<Run>>>) -> Seq<Mark>
    decreases rows.len(),
{
    if rows.len() == 0 {
        Seq::empty()
    } else {
        rows_told(rows.drop_last()) + seq![Mark::Open(Element::TableRow)] + cells_told(rows.last())
            + seq![Mark::Close(Element::TableRow)]
    }
}

/// The events of a block that is no list item.
pub open spec fn block_told(block: Piece) -> Seq<Mark> {
    match block {
        Piece::Heading { level, text } => seq![Mark::Open(Element::Heading(level))] + runs_told(
            text,
        ) + seq![Mark::Close(Element::Heading(level))],
        Piece::Paragraph(text) => seq![Mark::Open(Element::Paragraph)] + runs_told(text) + seq![
            Mark::Close(Element::Paragraph),
        ],
        Piece::Quote(text) => seq![Mark::Open(Element::Quote), Mark::Open(Element::Paragraph)]
            + runs_told(text) + seq![Mark::Close(Element::Paragraph), Mark::Close(Element::Quote)],
        Piece::Table { head, rows } => seq![
            Mark::Open(Element::Table),
            Mark::Open(Element::TableHead),
        ] + cells_told(head) + seq![Mark::Close(Element::TableHead)] + rows_told(rows) + seq![
            Mark::Close(Element::Table),
        ],
        _ => seq![Mark::Rule],
    }
}

pub open spec fn blocks_told(blocks: Seq<Piece>) -> Seq<Mark>
    decreases blocks.len(),
{
    if blocks.len() == 0 {
        Seq::empty()
    } else {
        blocks_told(blocks.drop_last()) + block_told(blocks.last())
    }
}

pub open spec fn all_gathered(row: Seq<Seq<Run>>) -> bool {
    forall|i: int| 0 <= i < row.len() ==> is_gathered(#[trigger] row[i])
}

/// Whether a block is one that can be read back: its runs are as they are gathered,
/// something is in it, and it is no list item.
pub open spec fn is_tellable(block: Piece) -> bool {
    match block {
        Piece::Heading { level, text } => text.len() > 0 && is_gathered(text),
        Piece::Paragraph(text) => text.len() > 0 && is_gathered(text),
        Piece::Quote(text) => text.len() > 0 && is_gathered(text),
        Piece::Table { head, rows } => all_gathered(head) && forall|i: int|
            0 <= i < rows.len() ==> all_gathered(#[trigger] rows[i]),
        Piece::Rule => true,
        _ => false,
    }
}

/// A draft between blocks.
spec fn settled(blocks: Seq<Piece>) -> Draft {
    Draft { blocks, ..empty_draft() }
}

proof fn lemma_framed(d: Draft, open: Mark, list: Seq<Run>, close: Mark)
    requires
        is_plain(step(d, open)),
        step(d, open).runs.len() == 0,
        is_gathered(list),
    ensures
        reading_on(d, seq![open] + runs_told(list) + seq![close]) == step(
            Draft { runs: list, ..step(d, open) },
            close,
        ),
{
    lemma_one(d, open);
    lemma_on(d, seq![open], runs_told(list));
    lemma_runs(step(d, open), list);
    lemma_on(d, seq![open] + runs_told(list), seq![close]);
    lemma_one(Draft { runs: list, ..step(d, open) }, close);
}

proof fn lemma_cells(d: Draft, t: TableDraft, row: Seq<Seq<Run>>)
    requires
        is_plain(d),
        d.runs.len() == 0,
        d.table == Some(t),
        t.cells.len() == 0,
        all_gathered(row),
    ensures
        reading_on(d, cells_told(row)) == (Draft {
            table: Some(TableDraft { cells: row, ..t }),
            ..d
        }),
    decreases row.len(),
{
    if row.len() == 0 {
        assert(t.cells =~= row);
    } else {
        let front = row.drop_last();
        assert forall|i: int| 0 <= i < front.len() implies is_gathered(#[trigger] front[i]) by {
            assert(front[i] == row[i]);
        }
        lemma_cells(d, t, front);
        let then = Draft { table: Some(TableDraft { cells: front, ..t }), ..d };
        let open = Mark::Open(Element::TableCell);
        let close = Mark::Close(Element::TableCell);
        assert(is_gathered(row[row.len() - 1]));
        lemma_framed(then, open, row.last(), close);
        let last = seq![open] + runs_told(row.last()) + seq![close];
        lemma_on(d, cells_told(front), last);
        assert(cells_told(row) =~= cells_told(front) + last);
        assert(front.push(row.last()) =~= row);
        assert(d.runs =~= Seq::empty());
    }
}

proof fn lemma_rows(d: Draft, t: TableDraft, rows: Seq<Seq<Seq<Run>>>)
    requires
        is_plain(d),
        d.runs.len() == 0,
        d.table == Some(t),
        t.cells.len() == 0,
        t.rows.len() == 0,
        forall|i: int| 0 <= i < rows.len() ==> all_gathered(#[trigger] rows[i]),
    ensures
        reading_on(d, rows_told(rows)) == (Draft { table: Some(TableDraft { rows, ..t }), ..d }),
    decreases rows.len(),
{
    if rows.len() == 0 {
        assert(t.rows =~= rows);
    } else {
        let front = rows.drop_last();
        assert forall|i: int| 0 <= i < front.len() implies all_gathered(#[trigger] front[i]) by {
            assert(front[i] == rows[i]);
        }
        lemma_rows(d, t, front);
        let u = TableDraft { rows: front, ..t };
        let then = Draft { table: Some(u), ..d };
        let open = Mark::Open(Element::TableRow);
        let close = Mark::Close(Element::TableRow);
        assert(all_gathered(rows[rows.len() - 1]));
        lemma_on(d, rows_told(front), seq![open]);
        lemma_one(then, open);
        lemma_on(d, rows_told(front) + seq![open], cells_told(rows.last()));
        lemma_cells(then, u, rows.last());
        let full = Draft { table: Some(TableDraft { cells: rows.last(), ..u }), ..d };
        lemma_on(d, rows_told(front) + seq![open] + cells_told(rows.last()), seq![close]);
        lemma_one(full, close);
        assert(front.push(rows.last()) =~= rows);
        assert(t.cells =~= Seq::empty());
    }
}

proof fn lemma_quote(blocks: Seq<Piece>, text: Seq<Run>)
    requires
        text.len() > 0,
        is_gathered(text),
    ensures
        reading_on(settled(blocks), block_told(Piece::Quote(text))) == settled(
            blocks.push(Piece::Quote(text)),
        ),
{
    let d = settled(blocks);
    let open = Mark::Open(Element::Quote);
    let close = Mark::Close(Element::Quote);
    let q = step(d, open);
    let inner = seq![Mark::Open(Element::Paragraph)] + runs_told(text) + seq![
        Mark::Close(Element::Paragraph),
    ];
    lemma_one(d, open);
    lemma_on(d, seq![open], inner);
    lemma_framed(q, Mark::Open(Element::Paragraph), text, Mark::Close(Element::Paragraph));
    lemma_on(d, seq![open] + inner, seq![close]);
    lemma_one(Draft { runs: text, ..q }, close);
    assert(block_told(Piece::Quote(text)) =~= seq![open] + inner + seq![close]);
}

proof fn lemma_table(blocks: Seq<Piece>, head: Seq<Seq<Run>>, rows: Seq<Seq<Seq<Run>>>)
    requires
        all_gathered(head),
        forall|i: int| 0 <= i < rows.len() ==> all_gathered(#[trigger] rows[i]),
    ensures
        reading_on(settled(blocks), block_told(Piece::Table { head, rows })) == settled(
            blocks.push(Piece::Table { head, rows }),
        ),
{
    let d = settled(blocks);
    let t0 = TableDraft { head: Seq::empty(), rows: Seq::empty(), cells: Seq::empty() };
    let d0 = Draft { table: Some(t0), ..d };
    let a = seq![Mark::Open(Element::Table)];
    let b = seq![Mark::Open(Element::TableHead)];
    let c = cells_told(head);
    let e = seq![Mark::Close(Element::TableHead)];
    let f = rows_told(rows);
    let g = seq![Mark::Close(Element::Table)];
    lemma_one(d, Mark::Open(Element::Table));
    lemma_on(d, a, b);
    lemma_one(d0, Mark::Open(Element::TableHead));
    lemma_on(d, a + b, c);
    lemma_cells(d0, t0, head);
    lemma_on(d, a + b + c, e);
    lemma_one(
        Draft { table: Some(TableDraft { cells: head, ..t0 }), ..d },
        Mark::Close(Element::TableHead),
    );
    let t1 = TableDraft { head, ..t0 };
    let d1 = Draft { table: Some(t1), ..d };
    lemma_on(d, a + b + c + e, f);
    lemma_rows(d1, t1, rows);
    let d2 = Draft { table: Some(TableDraft { rows, ..t1 }), ..d };
    lemma_on(d, a + b + c + e + f, g);
    lemma_one(d2, Mark::Close(Element::Table));
    assert(block_told(Piece::Table { head, rows }) =~= a + b + c + e + f + g);
}

proof fn lemma_block(blocks: Seq<Piece>, block: Piece)
    requires
        is_tellable(block),
    ensures
        reading_on(settled(blocks), block_told(block)) == settled(blocks.push(block)),
{
    let d = settled(blocks);
    match block {
        Piece::Heading { level, text } => {
            lemma_framed(
                d,
                Mark::Open(Element::Heading(level)),
                text,
                Mark::Close(Element::Heading(level)),
            );
        },
        Piece::Paragraph(text) => {
            lemma_framed(d, Mark::Open(Element::Paragraph), text, Mark::Close(Element::Paragraph));
        },
        Piece::Quote(text) => {
            lemma_quote(blocks, text);
        },
        Piece::Table { head, rows } => {
            lemma_table(blocks, head, rows);
        },
        _ => {
            lemma_one(d, Mark::Rule);
        },
    }
}

proof fn lemma_blocks(blocks: Seq<Piece>)
    requires
        forall|i: int| 0 <= i < blocks.len() ==> is_tellable(#[trigger] blocks[i]),
    ensures
        reading_on(empty_draft(), blocks_told(blocks)) == settled(blocks),
    decreases blocks.len(),
{
    if blocks.len() == 0 {
        assert(blocks =~= Seq::empty());
    } else {
        let front = blocks.drop_last();
        assert forall|i: int| 0 <= i < front.len() implies is_tellable(#[trigger] front[i]) by {
            assert(front[i] == blocks[i]);
        }
        lemma_blocks(front);
        lemma_on(empty_draft(), blocks_told(front), block_told(blocks.last()));
        assert(is_tellable(blocks[blocks.len() - 1]));
        lemma_block(front, blocks.last());
        assert(front.push(blocks.last()) =~= blocks);
    }
}

/// A document is read as it was told: the blocks read from the events of headings,
/// paragraphs, quotations, tables and rules are those, in order, each with its
/// level, its runs and their emphasis, its cells and its rows.
pub proof fn law_a_document_is_read_as_it_was_told(blocks: Seq<Piece>)
    requires
        forall|i: int| 0 <= i < blocks.len() ==> is_tellable(#[trigger] blocks[i]),
    ensures
        blocks_of(blocks_told(blocks)) == blocks,
{
    lemma_drafted(blocks_told(blocks));
    lemma_blocks(blocks);
}

// --------------------------------------------------------------------- lists

/// The events of a list's items.
pub open spec fn items_told(items: Seq<Seq<Run>>) -> Seq<Mark>
    decreases items.len(),
{
    if items.len() == 0 {
        Seq::empty()
    } else {
        items_told(items.drop_last()) + (seq![Mark::Open(Element::Item)] + runs_told(items.last())
            + seq![Mark::Close(Element::Item)])
    }
}

/// The events of a list, numbered from a number on or without numbers.
pub open spec fn list_told(first: Option<u64>, items: Seq<Seq<Run>>) -> Seq<Mark> {
    seq![Mark::OpenList(first)] + items_told(items) + seq![Mark::Close(Element::List)]
}

/// The item at a place in a list, so many lists within others: numbered on from the
/// first, and shown no deeper than three.
pub open spec fn item_at(first: Option<u64>, within: nat, text: Seq<Run>, k: nat) -> Piece {
    let depth: u8 = if within > 3 {
        3
    } else {
        within as u8
    };
    match first {
        Some(first) => Piece::Numbered { depth, number: (first + k) as usize, text },
        None => Piece::Bullet { depth, text },
    }
}

pub open spec fn items_of(first: Option<u64>, within: nat, items: Seq<Seq<Run>>) -> Seq<Piece>
    decreases items.len(),
{
    if items.len() == 0 {
        Seq::empty()
    } else {
        items_of(first, within, items.drop_last()).push(
            item_at(first, within, items.last(), (items.len() - 1) as nat),
        )
    }
}

spec fn counted(first: Option<u64>, k: nat) -> Option<u64> {
    match first {
        Some(first) => Some((first + k) as u64),
        None => None,
    }
}

proof fn lemma_items(d: Draft, first: Option<u64>, items: Seq<Seq<Run>>)
    requires
        is_plain(d),
        d.runs.len() == 0,
        d.quoting == 0,
        d.lists.len() > 0,
        d.lists.last().next == first,
        first matches Some(n) ==> n + items.len() <= u32::MAX,
        forall|i: int|
            0 <= i < items.len() ==> is_gathered(#[trigger] items[i]) && items[i].len() > 0,
    ensures
        ({
            let after = reading_on(d, items_told(items));
            &&& after.blocks == d.blocks + items_of(first, (d.lists.len() - 1) as nat, items)
            &&& after == (Draft { blocks: after.blocks, lists: after.lists, ..d })
            &&& after.lists.len() == d.lists.len()
            &&& after.lists.drop_last() == d.lists.drop_last()
            &&& after.lists.last().next == counted(first, items.len())
        }),
    decreases items.len(),
{
    if items.len() == 0 {
        assert(d.blocks + items_of(first, (d.lists.len() - 1) as nat, items) =~= d.blocks);
    } else {
        let front = items.drop_last();
        assert forall|i: int| 0 <= i < front.len() implies is_gathered(#[trigger] front[i])
            && front[i].len() > 0 by {
            assert(front[i] == items[i]);
        }
        lemma_items(d, first, front);
        let then = reading_on(d, items_told(front));
        let open = Mark::Open(Element::Item);
        let close = Mark::Close(Element::Item);
        assert(is_gathered(items[items.len() - 1]) && items[items.len() - 1].len() > 0);
        lemma_on(
            d,
            items_told(front),
            seq![open] + runs_told(items.last()) + seq![close],
        );
        lemma_framed(then, open, items.last(), close);
        lemma_item(then, first, items.last(), front.len());
        let after = reading_on(d, items_told(items));
        assert(after.blocks =~= d.blocks + items_of(first, (d.lists.len() - 1) as nat, items));
        assert(d.runs =~= Seq::empty());
    }
}

proof fn lemma_item(d: Draft, first: Option<u64>, text: Seq<Run>, k: nat)
    requires
        d.runs.len() == 0,
        d.lists.len() > 0,
        d.lists.last().next == counted(first, k),
        first matches Some(n) ==> n + k < u32::MAX,
        text.len() > 0,
    ensures
        ({
            let opened = step(d, Mark::Open(Element::Item));
            let after = step(Draft { runs: text, ..opened }, Mark::Close(Element::Item));
            &&& after.blocks == d.blocks.push(item_at(first, (d.lists.len() - 1) as nat, text, k))
            &&& after == (Draft { blocks: after.blocks, lists: after.lists, runs: Seq::empty(), ..d })
            &&& after.lists.len() == d.lists.len()
            &&& after.lists.drop_last() == d.lists.drop_last()
            &&& after.lists.last().next == counted(first, k + 1)
        }),
{
    let opened = step(d, Mark::Open(Element::Item));
    let after = step(Draft { runs: text, ..opened }, Mark::Close(Element::Item));
    assert(opened.lists.drop_last() =~= d.lists.drop_last());
    assert(after.lists.drop_last() =~= d.lists.drop_last());
}

/// A list is read as its items, in order: numbered on from the number it begins
/// with, or bulleted, and set in by how many lists it stands within. Nothing else
/// of what has been read is touched.
pub proof fn law_a_list_is_read_item_by_item(
    d: Draft,
    first: Option<u64>,
    items: Seq<Seq<Run>>,
)
    requires
        d.style == plain_run(Seq::empty()),
        d.code is None,
        d.runs.len() == 0,
        d.quoting == 0,
        first matches Some(n) ==> n + items.len() <= u32::MAX,
        forall|i: int|
            0 <= i < items.len() ==> is_gathered(#[trigger] items[i]) && items[i].len() > 0,
    ensures
        reading_on(d, list_told(first, items)) == (Draft {
            blocks: d.blocks + items_of(first, d.lists.len(), items),
            ..d
        }),
{
    let open = Mark::OpenList(first);
    let close = Mark::Close(Element::List);
    lemma_one(d, open);
    let d1 = step(d, open);
    lemma_on(d, seq![open], items_told(items));
    assert(d1.lists.drop_last() =~= d.lists);
    lemma_items(d1, first, items);
    let d2 = reading_on(d1, items_told(items));
    lemma_on(d, seq![open] + items_told(items), seq![close]);
    lemma_one(d2, close);
}

/// A list within an item comes behind the item's own line: the line is written where
/// the inner list begins, and is not written again.
pub proof fn law_an_items_line_comes_before_what_is_within_it(
    d: Draft,
    text: Seq<Run>,
    items: Seq<Seq<Run>>,
)
    requires
        d.style == plain_run(Seq::empty()),
        d.code is None,
        d.runs.len() == 0,
        d.quoting == 0,
        d.lists.len() > 0,
        d.lists.last().next is None,
        is_gathered(text),
        text.len() > 0,
        forall|i: int|
            0 <= i < items.len() ==> is_gathered(#[trigger] items[i]) && items[i].len() > 0,
    ensures
        reading_on(
            d,
            seq![Mark::Open(Element::Item)] + runs_told(text) + list_told(None, items) + seq![
                Mark::Close(Element::Item),
            ],
        ).blocks == d.blocks.push(item_at(None, (d.lists.len() - 1) as nat, text, 0)) + items_of(
            None,
            d.lists.len(),
            items,
        ),
{
    let open = Mark::Open(Element::Item);
    let close = Mark::Close(Element::Item);
    let inner = list_told(None, items);
    let head = seq![open] + runs_told(text);
    lemma_one(d, open);
    let d1 = step(d, open);
    lemma_on(d, seq![open], runs_told(text));
    lemma_runs(d1, text);
    let d2 = Draft { runs: text, ..d1 };
    lemma_on(d, head, inner);
    let rest = items_told(items) + seq![Mark::Close(Element::List)];
    assert(inner =~= seq![Mark::OpenList(None)] + rest);
    lemma_on(d2, seq![Mark::OpenList(None)], rest);
    lemma_one(d2, Mark::OpenList(None));
    let d3 = step(d2, Mark::OpenList(None));
    lemma_items(d3, None, items);
    lemma_on(d3, items_told(items), seq![Mark::Close(Element::List)]);
    let d4 = reading_on(d3, items_told(items));
    lemma_one(d4, Mark::Close(Element::List));
    let d5 = step(d4, Mark::Close(Element::List));
    lemma_on(d, head + inner, seq![close]);
    lemma_one(d5, close);
}

// ---------------------------------------------------------------- other text

/// Code in a line and markup are read as the text they are, a line break as a space,
/// and a task as the box it is, ticked or empty.
pub proof fn law_other_text_is_read_as_text(a: Seq<char>, b: Seq<char>)
    requires
        a.len() > 0,
        b.len() > 0,
    ensures
        ({
            let open = Mark::Open(Element::Paragraph);
            let close = Mark::Close(Element::Paragraph);
            &&& blocks_of(seq![open, Mark::Text(a), Mark::SoftBreak, Mark::Text(b), close]) == seq![
                Piece::Paragraph(seq![plain_run(a + seq![' '] + b)]),
            ]
            &&& blocks_of(seq![open, Mark::Text(a), Mark::HardBreak, Mark::Text(b), close]) == seq![
                Piece::Paragraph(seq![plain_run(a + seq![' '] + b)]),
            ]
            &&& blocks_of(seq![open, Mark::Code(a), Mark::Html(b), close]) == seq![
                Piece::Paragraph(seq![plain_run(a + b)]),
            ]
            &&& blocks_of(seq![open, Mark::Task(true), Mark::Text(b), close]) == seq![
                Piece::Paragraph(seq![plain_run(seq!['\u{2611}', ' '] + b)]),
            ]
            &&& blocks_of(seq![open, Mark::Task(false), Mark::Text(b), close]) == seq![
                Piece::Paragraph(seq![plain_run(seq!['\u{2610}', ' '] + b)]),
            ]
        }),
{
    let open = Mark::Open(Element::Paragraph);
    let close = Mark::Close(Element::Paragraph);
    reveal_strlit(" ");
    reveal_strlit("\u{2611} ");
    reveal_strlit("\u{2610} ");
    assert(" "@ =~= seq![' ']);
    assert("\u{2611} "@ =~= seq!['\u{2611}', ' ']);
    assert("\u{2610} "@ =~= seq!['\u{2610}', ' ']);
    lemma_five(open, Mark::Text(a), Mark::SoftBreak, Mark::Text(b), close);
    lemma_five(open, Mark::Text(a), Mark::HardBreak, Mark::Text(b), close);
    lemma_four(open, Mark::Code(a), Mark::Html(b), close);
    lemma_four(open, Mark::Task(true), Mark::Text(b), close);
    lemma_four(open, Mark::Task(false), Mark::Text(b), close);
    let none = Seq::<Run>::empty();
    lemma_said(a, seq![' ']);
    lemma_said(a + seq![' '], b);
    lemma_said(a, b);
    lemma_said(seq!['\u{2611}', ' '], b);
    lemma_said(seq!['\u{2610}', ' '], b);
    assert(none.push(plain_run(a)) =~= seq![plain_run(a)]);
}

proof fn lemma_said(a: Seq<char>, b: Seq<char>)
    requires
        a.len() > 0,
        b.len() > 0,
    ensures
        crate::exports::markdown::with_text(Seq::empty(), plain_run(Seq::empty()), a) == seq![
            plain_run(a),
        ],
        crate::exports::markdown::with_text(
            seq![plain_run(a)],
            plain_run(Seq::empty()),
            b,
        ) == seq![plain_run(a + b)],
{
    assert(Seq::<Run>::empty().push(plain_run(a)) =~= seq![plain_run(a)]);
    assert(seq![plain_run(a)].drop_last().push(plain_run(a + b)) =~= seq![plain_run(a + b)]);
}

proof fn lemma_four(a: Mark, b: Mark, c: Mark, d: Mark)
    ensures
        drafted(seq![a, b, c, d]) == step(step(step(step(empty_draft(), a), b), c), d),
{
    lemma_drafted(seq![a, b, c, d]);
    assert(seq![a, b, c, d] =~= seq![a] + seq![b] + seq![c] + seq![d]);
    let e = empty_draft();
    lemma_on(e, seq![a] + seq![b] + seq![c], seq![d]);
    lemma_on(e, seq![a] + seq![b], seq![c]);
    lemma_on(e, seq![a], seq![b]);
    lemma_one(e, a);
    lemma_one(step(e, a), b);
    lemma_one(step(step(e, a), b), c);
    lemma_one(step(step(step(e, a), b), c), d);
}

proof fn lemma_five(a: Mark, b: Mark, c: Mark, d: Mark, f: Mark)
    ensures
        drafted(seq![a, b, c, d, f]) == step(
            step(step(step(step(empty_draft(), a), b), c), d),
            f,
        ),
{
    lemma_four(a, b, c, d);
    assert(seq![a, b, c, d, f].drop_last() =~= seq![a, b, c, d]);
}

/// A block of code is read as a paragraph of its words without emphasis and without
/// the white space around them, and an empty one as nothing.
pub proof fn law_a_block_of_code_is_a_paragraph(blocks: Seq<Piece>, code: Seq<char>)
    requires
        forall|i: int| 0 <= i < blocks.len() ==> is_tellable(#[trigger] blocks[i]),
    ensures
        blocks_of(
            blocks_told(blocks) + seq![
                Mark::Open(Element::CodeBlock),
                Mark::Text(code),
                Mark::Close(Element::CodeBlock),
            ],
        ) == if trimmed(code).len() == 0 {
            blocks
        } else {
            blocks.push(Piece::Paragraph(seq![plain_run(trimmed(code))]))
        },
{
    let a = Mark::Open(Element::CodeBlock);
    let b = Mark::Text(code);
    let c = Mark::Close(Element::CodeBlock);
    let e = empty_draft();
    let told = blocks_told(blocks);
    lemma_drafted(told + seq![a, b, c]);
    lemma_blocks(blocks);
    lemma_on(e, told, seq![a, b, c]);
    let d = settled(blocks);
    assert(seq![a, b, c] =~= seq![a] + seq![b] + seq![c]);
    lemma_on(d, seq![a] + seq![b], seq![c]);
    lemma_on(d, seq![a], seq![b]);
    lemma_one(d, a);
    lemma_one(step(d, a), b);
    lemma_one(step(step(d, a), b), c);
    assert(Seq::<char>::empty() + code =~= code);
}

// --------------------------------------------------------- headings in a line

proof fn lemma_hash_run(line: Seq<char>, at: int, count: nat)
    requires
        0 <= at,
        at + count < line.len(),
        forall|k: int| at <= k < at + count ==> #[trigger] line[k] == '#',
        line[at + count] != '#',
    ensures
        hash_run(line, at) == count,
    decreases count,
{
    if count > 0 {
        assert(line[at] == '#');
        lemma_hash_run(line, at + 1, (count - 1) as nat);
    }
}

proof fn lemma_no_heading_before(line: Seq<char>, from: int, to: int)
    requires
        0 <= from <= to <= line.len(),
        forall|k: int| from <= k < to ==> !heading_at(line, k),
    ensures
        first_heading(line, from) == first_heading(line, to),
    decreases to - from,
{
    if from < to {
        assert(!heading_at(line, from));
        lemma_no_heading_before(line, from + 1, to);
    }
}

/// A heading that a model wrote in the middle of a line gets a line of its own,
/// with a blank line before it; what was said before it stays before it.
pub proof fn law_a_heading_gets_its_own_line(before: Seq<char>, level: nat, title: Seq<char>)
    requires
        before.len() > 0,
        !whitespace(before.last()),
        !before.contains('#'),
        1 <= level <= 6,
    ensures
        broken_line(before + seq![' '] + repeated('#', level) + seq![' '] + title) == before + seq![
            '\n',
            '\n',
        ] + repeated('#', level) + seq![' '] + title,
{
    reveal_strlit("\n\n");
    assert("\n\n"@ =~= seq!['\n', '\n']);
    let line = before + seq![' '] + repeated('#', level) + seq![' '] + title;
    let at = before.len() as int + 1;
    assert(line[at - 1] == ' ');
    assert(line[at + level] == ' ');
    assert forall|k: int| at <= k < at + level implies #[trigger] line[k] == '#' by {}
    lemma_hash_run(line, at, level);
    assert(line[at] == '#');
    assert(line[at - 2] == before.last());
    assert(heading_at(line, at));
    assert forall|k: int| 0 <= k < at implies !heading_at(line, k) by {
        if k < before.len() {
            assert(line[k] == before[k]);
            assert(before.contains(before[k]));
        }
    }
    lemma_no_heading_before(line, 0, at);
    assert(first_heading(line, at) == Some(at));
    let said = line.take(at);
    let drop = is_char(' ');
    assert(said =~= before + seq![' ']);
    assert(said.drop_last() =~= before);
    assert(!drop(before.last()));
    assert(trim_back(before, drop) == before);
    assert(trim_back(said, drop) == before);
    assert(line.skip(at) =~= repeated('#', level) + seq![' '] + title);
    assert(broken_line(line) =~= before + seq!['\n', '\n'] + repeated('#', level) + seq![' ']
        + title);
}

/// A line that is a heading already, or has no mark of one in it, stays as it is.
pub proof fn law_other_lines_stay_as_they_are(level: nat, rest: Seq<char>)
    requires
        !rest.contains('#'),
    ensures
        broken_line(repeated('#', level) + rest) == repeated('#', level) + rest,
{
    let line = repeated('#', level) + rest;
    assert forall|k: int| 0 <= k < line.len() implies !heading_at(line, k) by {
        if k < level {
            if k > 0 {
                assert(line[k - 1] == '#');
            }
        } else {
            assert(line[k] == rest[k - level]);
            assert(rest.contains(rest[k - level]));
        }
    }
    lemma_no_heading_before(line, 0, line.len() as int);
}

} // verus!
