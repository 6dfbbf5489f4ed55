//! That a Word file shows the document: what is read in its body is the title, the
//! blocks and the subjects, each in its style and with its emphasis.

use crate::exports::model::{plain_run, plain_text, Piece, Run};
use crate::exports::plain_text::{column_count, widest_row};
use crate::exports::reading::{
    at, events_in, lemma_bold, lemma_cell_close, lemma_cell_open, lemma_document_close,
    lemma_document_open, lemma_escaped, lemma_indent_close, lemma_indent_open, lemma_italic,
    lemma_para_close, lemma_para_open, lemma_props_close, lemma_row_close, lemma_row_open,
    lemma_rule, lemma_run_open, lemma_run_props_close, lemma_run_props_open, lemma_strike,
    lemma_style_close, lemma_table_close, lemma_table_open, lemma_text_close, lemma_text_open,
    lemma_then, lemma_value, letters, read, resting, Event, Mode, Reader,
};
use crate::exports::word;
use crate::exports::word::{
    block_xml, blocks_xml, body_xml, cell_runs, cell_xml, emphasis_xml, escaped, heading_style,
    indent_xml, marker_xml, para_xml, row_cells_xml, row_xml, rows_xml, run_xml, runs_xml,
    subjects_xml, table_xml, word_parts, DOCUMENT_CLOSE, DOCUMENT_OPEN, TABLE_OPEN,
};
use crate::text::{decimal, joined, lemma_decimal, lemma_prefix_step};
use vstd::prelude::*;

verus! {

// ---------------------------------------------------------------------- runs

/// What a run shows.
pub open spec fn run_shown(run: Run) -> Seq<Event> {
    letters(run.text, run)
}

/// What runs show, one after another.
pub open spec fn runs_shown(list: Seq<Run>) -> Seq<Event>
    decreases list.len(),
{
    if list.len() == 0 {
        Seq::empty()
    } else {
        runs_shown(list.drop_last()) + run_shown(list.last())
    }
}

/// The characters of a text without emphasis.
pub open spec fn unmarked(text: Seq<char>) -> Seq<Event> {
    letters(text, plain_run(text))
}

proof fn lemma_when(r: Reader, shown: bool, text: Seq<char>)
    ensures
        read(r, word::when(shown, text), 0) == if shown {
            read(r, text, 0)
        } else {
            r
        },
{
}

spec fn emphasised(r: Reader, bold: bool, italic: bool, strike: bool) -> Reader {
    Reader { bold, italic, strike, ..r }
}

proof fn lemma_emphasis(events: Seq<Event>, run: Run)
    ensures
        read(resting(events), emphasis_xml(run), 0) == emphasised(
            resting(events),
            run.bold,
            run.italic,
            run.strike,
        ),
{
    let r = resting(events);
    if run.bold || run.italic || run.strike {
        let b = word::when(run.bold, "<w:b/>"@);
        let i = word::when(run.italic, "<w:i/>"@);
        let s = word::when(run.strike, "<w:strike/>"@);
        lemma_run_props_open(r);
        let r1 = emphasised(r, run.bold, false, false);
        let r2 = emphasised(r, run.bold, run.italic, false);
        let r3 = emphasised(r, run.bold, run.italic, run.strike);
        lemma_when(r, run.bold, "<w:b/>"@);
        lemma_bold(r);
        assert(read(r, b, 0) == r1);
        lemma_when(r1, run.italic, "<w:i/>"@);
        lemma_italic(r1);
        assert(read(r1, i, 0) == r2);
        lemma_when(r2, run.strike, "<w:strike/>"@);
        lemma_strike(r2);
        assert(read(r2, s, 0) == r3);
        lemma_then(r, b, i);
        lemma_then(r, b + i, s);
        lemma_run_props_close(r3);
        lemma_then(r, "<w:rPr>"@, b + i + s);
        lemma_then(r, "<w:rPr>"@ + (b + i + s), "</w:rPr>"@);
    }
}

proof fn lemma_run(events: Seq<Event>, run: Run)
    ensures
        read(resting(events), run_xml(run), 0) == resting(events + run_shown(run)),
{
    let r = resting(events);
    let open = "<w:r>"@;
    let emphasis = emphasis_xml(run);
    let tag = "<w:t xml:space=\"preserve\">"@;
    let text = escaped(run.text);
    let close = "</w:t></w:r>"@;
    let e = emphasised(r, run.bold, run.italic, run.strike);
    lemma_run_open(r);
    lemma_then(r, open, emphasis);
    lemma_emphasis(events, run);
    lemma_then(r, open + emphasis, tag);
    lemma_text_open(e);
    lemma_then(r, open + emphasis + tag, text);
    lemma_escaped(at(e, Mode::Text), run.text, run);
    lemma_then(r, open + emphasis + tag + text, close);
    let filled = Reader { mode: Mode::Text, events: events + run_shown(run), ..e };
    lemma_text_close(filled);
    assert(read(filled, close, 0) == resting(events + run_shown(run)));
}

proof fn lemma_runs(events: Seq<Event>, list: Seq<Run>)
    ensures
        read(resting(events), runs_xml(list), 0) == resting(events + runs_shown(list)),
    decreases list.len(),
{
    if list.len() == 0 {
        assert(events + runs_shown(list) =~= events);
    } else {
        let front = list.drop_last();
        lemma_runs(events, front);
        lemma_then(resting(events), runs_xml(front), run_xml(list.last()));
        lemma_run(events + runs_shown(front), list.last());
        assert(events + runs_shown(front) + run_shown(list.last()) =~= events + runs_shown(list));
    }
}

// ---------------------------------------------------------------- paragraphs

/// What a paragraph shows: its style, how far it is set in, its marker, its runs.
pub open spec fn paragraph(style: Seq<char>, left: nat, marker: Seq<char>, list: Seq<Run>) -> Seq<
    Event,
> {
    seq![Event::Paragraph { style }] + (if left > 0 {
        seq![Event::Indent { left: decimal(left) }]
    } else {
        Seq::empty()
    }) + unmarked(marker) + runs_shown(list)
}

proof fn lemma_indent(events: Seq<Event>, left: nat)
    ensures
        read(resting(events), indent_xml(left), 0) == resting(
            events + (if left > 0 {
                seq![Event::Indent { left: decimal(left) }]
            } else {
                Seq::empty()
            }),
        ),
{
    let r = resting(events);
    if left > 0 {
        let open = "<w:ind w:left=\""@;
        let close = "\" w:hanging=\"360\"/>"@;
        lemma_indent_open(r);
        lemma_then(r, open, decimal(left));
        lemma_decimal(left);
        let v = at(r, Mode::IndValue);
        lemma_value(v, decimal(left), 0);
        assert(decimal(left).skip(0) =~= decimal(left));
        assert(v.value + decimal(left) =~= decimal(left));
        let full = Reader { value: decimal(left), ..v };
        lemma_then(r, open + decimal(left), close);
        lemma_indent_close(full);
        assert(events.push(Event::Indent { left: decimal(left) }) =~= events + seq![
            Event::Indent { left: decimal(left) },
        ]);
    } else {
        assert(events + Seq::<Event>::empty() =~= events);
    }
}

spec fn marked(marker: Option<Seq<char>>) -> Seq<char> {
    match marker {
        Some(marker) => marker,
        None => Seq::empty(),
    }
}

proof fn lemma_marker(events: Seq<Event>, marker: Option<Seq<char>>)
    ensures
        read(resting(events), marker_xml(marker), 0) == resting(
            events + unmarked(marked(marker)),
        ),
{
    match marker {
        Some(marker) => {
            lemma_run(events, plain_run(marker));
        },
        None => {
            assert(events + unmarked(Seq::empty()) =~= events);
        },
    }
}

proof fn lemma_style(events: Seq<Event>, style: Seq<char>)
    requires
        forall|i: int| 0 <= i < style.len() ==> #[trigger] style[i] != '"',
    ensures
        read(resting(events), "<w:p><w:pPr><w:pStyle w:val=\""@ + style + "\"/>"@, 0) == resting(
            events + seq![Event::Paragraph { style }],
        ),
{
    let r = resting(events);
    let open = "<w:p><w:pPr><w:pStyle w:val=\""@;
    let close = "\"/>"@;
    lemma_para_open(r);
    lemma_then(r, open, style);
    let v = at(r, Mode::StyleValue);
    lemma_value(v, style, 0);
    assert(style.skip(0) =~= style);
    assert(v.value + style =~= style);
    let full = Reader { value: style, ..v };
    lemma_then(r, open + style, close);
    lemma_style_close(full);
    assert(events.push(Event::Paragraph { style }) =~= events + seq![Event::Paragraph { style }]);
}

proof fn lemma_para(
    events: Seq<Event>,
    list: Seq<Run>,
    style: Seq<char>,
    left: nat,
    marker: Option<Seq<char>>,
)
    requires
        forall|i: int| 0 <= i < style.len() ==> #[trigger] style[i] != '"',
    ensures
        read(resting(events), para_xml(list, style, left, marker), 0) == resting(
            events + paragraph(style, left, marked(marker), list),
        ),
{
    let r = resting(events);
    let head = "<w:p><w:pPr><w:pStyle w:val=\""@ + style + "\"/>"@;
    let e1 = events + seq![Event::Paragraph { style }];
    lemma_style(events, style);
    lemma_then(r, head, indent_xml(left));
    lemma_indent(e1, left);
    let e2 = e1 + (if left > 0 {
        seq![Event::Indent { left: decimal(left) }]
    } else {
        Seq::empty()
    });
    lemma_then(r, head + indent_xml(left), "</w:pPr>"@);
    lemma_props_close(resting(e2));
    lemma_then(r, head + indent_xml(left) + "</w:pPr>"@, marker_xml(marker));
    lemma_marker(e2, marker);
    let e3 = e2 + unmarked(marked(marker));
    lemma_then(r, head + indent_xml(left) + "</w:pPr>"@ + marker_xml(marker), runs_xml(list));
    lemma_runs(e3, list);
    let e4 = e3 + runs_shown(list);
    lemma_then(
        r,
        head + indent_xml(left) + "</w:pPr>"@ + marker_xml(marker) + runs_xml(list),
        "</w:p>"@,
    );
    lemma_para_close(resting(e4));
    assert(e4 =~= events + paragraph(style, left, marked(marker), list));
}

// -------------------------------------------------------------------- tables

/// What a cell of a head shows: bold throughout.
pub open spec fn all_bold(list: Seq<Run>) -> Seq<Run> {
    list.map_values(|run: Run| Run { bold: true, ..run })
}

/// What a row shows: each of its cells, and then empty ones up to the last column.
pub open spec fn row_shown(row: Seq<Seq<Run>>, header: bool, columns: nat) -> Seq<Event>
    decreases columns,
{
    if columns == 0 {
        seq![Event::Row]
    } else {
        let at = columns - 1;
        row_shown(row, header, at as nat) + seq![Event::Cell] + paragraph(
            "Normal"@,
            0,
            Seq::empty(),
            if at >= row.len() {
                Seq::empty()
            } else if header {
                all_bold(row[at])
            } else {
                row[at]
            },
        )
    }
}

pub open spec fn rows_shown(rows: Seq<Seq<Seq<Run>>>, columns: nat) -> Seq<Event>
    decreases rows.len(),
{
    if rows.len() == 0 {
        Seq::empty()
    } else {
        rows_shown(rows.drop_last(), columns) + row_shown(rows.last(), false, columns)
    }
}

/// What a table shows: its head, where it has one, and then each of its rows.
pub open spec fn table_shown(head: Seq<Seq<Run>>, rows: Seq<Seq<Seq<Run>>>) -> Seq<Event> {
    let columns = column_count(head, rows);
    if columns == 0 {
        Seq::empty()
    } else {
        (if head.len() > 0 {
            row_shown(head, true, columns)
        } else {
            Seq::empty()
        }) + rows_shown(rows, columns)
    }
}

proof fn lemma_cell_runs(list: Seq<Run>, header: bool)
    ensures
        cell_runs(list, header) == if header {
            all_bold(list)
        } else {
            list
        },
{
    assert(cell_runs(list, header) =~= if header {
        all_bold(list)
    } else {
        list
    });
}

proof fn lemma_normal()
    ensures
        forall|i: int| 0 <= i < "Normal"@.len() ==> #[trigger] "Normal"@[i] != '"',
{
    reveal_strlit("Normal");
}

proof fn lemma_cell(events: Seq<Event>, row: Seq<Seq<Run>>, at: int, header: bool)
    requires
        0 <= at,
    ensures
        read(resting(events), cell_xml(row, at, header), 0) == resting(
            events + seq![Event::Cell] + paragraph(
                "Normal"@,
                0,
                Seq::empty(),
                if at >= row.len() {
                    Seq::empty()
                } else if header {
                    all_bold(row[at])
                } else {
                    row[at]
                },
            ),
        ),
{
    let r = resting(events);
    let content = if 0 <= at < row.len() {
        cell_runs(row[at], header)
    } else {
        Seq::empty()
    };
    if at < row.len() {
        lemma_cell_runs(row[at], header);
    }
    let open = "<w:tc><w:tcPr><w:tcW w:w=\"0\" w:type=\"auto\"/></w:tcPr>"@;
    let inner = para_xml(content, "Normal"@, 0, None);
    lemma_cell_open(r);
    let e = events + seq![Event::Cell];
    assert(events.push(Event::Cell) =~= e);
    lemma_then(r, open, inner);
    lemma_normal();
    lemma_para(e, content, "Normal"@, 0, None);
    lemma_then(r, open + inner, "</w:tc>"@);
    lemma_cell_close(resting(e + paragraph("Normal"@, 0, Seq::empty(), content)));
}

proof fn lemma_row_cells(events: Seq<Event>, row: Seq<Seq<Run>>, header: bool, columns: nat)
    ensures
        read(resting(events + seq![Event::Row]), row_cells_xml(row, header, columns), 0) == resting(
            events + row_shown(row, header, columns),
        ),
    decreases columns,
{
    if columns > 0 {
        let at = columns - 1;
        lemma_row_cells(events, row, header, at as nat);
        lemma_then(
            resting(events + seq![Event::Row]),
            row_cells_xml(row, header, at as nat),
            cell_xml(row, at, header),
        );
        let e = events + row_shown(row, header, at as nat);
        lemma_cell(e, row, at, header);
        assert(e + seq![Event::Cell] + paragraph(
            "Normal"@,
            0,
            Seq::empty(),
            if at >= row.len() {
                Seq::empty()
            } else if header {
                all_bold(row[at])
            } else {
                row[at]
            },
        ) =~= events + row_shown(row, header, columns));
    }
}

proof fn lemma_row(events: Seq<Event>, row: Seq<Seq<Run>>, header: bool, columns: nat)
    ensures
        read(resting(events), row_xml(row, header, columns), 0) == resting(
            events + row_shown(row, header, columns),
        ),
{
    let r = resting(events);
    let inner = row_cells_xml(row, header, columns);
    lemma_row_open(r);
    assert(events.push(Event::Row) =~= events + seq![Event::Row]);
    lemma_then(r, "<w:tr>"@, inner);
    lemma_row_cells(events, row, header, columns);
    lemma_then(r, "<w:tr>"@ + inner, "</w:tr>"@);
    lemma_row_close(resting(events + row_shown(row, header, columns)));
}

proof fn lemma_rows(events: Seq<Event>, rows: Seq<Seq<Seq<Run>>>, columns: nat)
    ensures
        read(resting(events), rows_xml(rows, columns), 0) == resting(
            events + rows_shown(rows, columns),
        ),
    decreases rows.len(),
{
    if rows.len() == 0 {
        assert(events + rows_shown(rows, columns) =~= events);
    } else {
        let front = rows.drop_last();
        lemma_rows(events, front, columns);
        lemma_then(resting(events), rows_xml(front, columns), row_xml(rows.last(), false, columns));
        lemma_row(events + rows_shown(front, columns), rows.last(), false, columns);
        assert(events + rows_shown(front, columns) + row_shown(rows.last(), false, columns)
            =~= events + rows_shown(rows, columns));
    }
}

proof fn lemma_table(events: Seq<Event>, head: Seq<Seq<Run>>, rows: Seq<Seq<Seq<Run>>>)
    ensures
        read(resting(events), table_xml(head, rows), 0) == resting(events + table_shown(head, rows)),
{
    let r = resting(events);
    let columns = column_count(head, rows);
    if columns == 0 {
        assert(events + table_shown(head, rows) =~= events);
    } else {
        let top = word::when(head.len() > 0, row_xml(head, true, columns));
        let e = events + (if head.len() > 0 {
            row_shown(head, true, columns)
        } else {
            Seq::empty()
        });
        lemma_table_open(events);
        lemma_then(r, TABLE_OPEN@, top);
        lemma_when(r, head.len() > 0, row_xml(head, true, columns));
        lemma_row(events, head, true, columns);
        if head.len() == 0 {
            assert(e =~= events);
        }
        lemma_then(r, TABLE_OPEN@ + top, rows_xml(rows, columns));
        lemma_rows(e, rows, columns);
        lemma_then(r, TABLE_OPEN@ + top + rows_xml(rows, columns), "</w:tbl><w:p/>"@);
        lemma_table_close(resting(e + rows_shown(rows, columns)));
        assert(e + rows_shown(rows, columns) =~= events + table_shown(head, rows));
    }
}

// ------------------------------------------------------------------ document

/// What a block shows. A heading is in the style of its level, the third at most;
/// items are set in by a quarter of an inch for each level, behind a round bullet,
/// a hollow one further in, or their number; a quotation is set in by half an inch.
pub open spec fn block_shown(block: Piece) -> Seq<Event> {
    match block {
        Piece::Heading { level, text } => paragraph(
            if level >= 3 {
                "Heading3"@
            } else if level == 2 {
                "Heading2"@
            } else if level == 1 {
                "Heading1"@
            } else {
                "Heading0"@
            },
            0,
            Seq::empty(),
            text,
        ),
        Piece::Paragraph(text) => paragraph("Normal"@, 0, Seq::empty(), text),
        Piece::Bullet { depth, text } => paragraph(
            "Normal"@,
            360 * (depth as nat + 1),
            if depth == 0 {
                seq!['\u{2022}', '\u{a0}']
            } else {
                seq!['\u{25e6}', '\u{a0}']
            },
            text,
        ),
        Piece::Numbered { depth, number, text } => paragraph(
            "Normal"@,
            360 * (depth as nat + 1),
            decimal(number as nat) + seq!['.', '\u{a0}'],
            text,
        ),
        Piece::Quote(text) => paragraph("Quote"@, 720, Seq::empty(), text),
        Piece::Table { head, rows } => table_shown(head, rows),
        Piece::Rule => Seq::empty(),
    }
}

pub open spec fn blocks_shown(blocks: Seq<Piece>) -> Seq<Event>
    decreases blocks.len(),
{
    if blocks.len() == 0 {
        Seq::empty()
    } else {
        blocks_shown(blocks.drop_last()) + block_shown(blocks.last())
    }
}

proof fn lemma_styles()
    ensures
        forall|i: int| 0 <= i < "Quote"@.len() ==> #[trigger] "Quote"@[i] != '"',
        forall|i: int| 0 <= i < "Title"@.len() ==> #[trigger] "Title"@[i] != '"',
        forall|i: int| 0 <= i < "Heading2"@.len() ==> #[trigger] "Heading2"@[i] != '"',
{
    reveal_strlit("Quote");
    reveal_strlit("Title");
    reveal_strlit("Heading2");
}

proof fn lemma_heading_style(level: u8)
    ensures
        heading_style(level) == (if level >= 3 {
            "Heading3"@
        } else if level == 2 {
            "Heading2"@
        } else if level == 1 {
            "Heading1"@
        } else {
            "Heading0"@
        }),
        forall|i: int|
            0 <= i < heading_style(level).len() ==> #[trigger] heading_style(level)[i] != '"',
{
    reveal_strlit("Heading");
    reveal_strlit("Heading0");
    reveal_strlit("Heading1");
    reveal_strlit("Heading2");
    reveal_strlit("Heading3");
    let n: nat = if level < 3 {
        level as nat
    } else {
        3
    };
    assert(decimal(n) =~= seq![(48 + n) as char]);
    assert("Heading"@ + seq!['0'] =~= "Heading0"@);
    assert("Heading"@ + seq!['1'] =~= "Heading1"@);
    assert("Heading"@ + seq!['2'] =~= "Heading2"@);
    assert("Heading"@ + seq!['3'] =~= "Heading3"@);
}

proof fn lemma_markers()
    ensures
        "\u{2022}\u{a0}"@ == seq!['\u{2022}', '\u{a0}'],
        "\u{25e6}\u{a0}"@ == seq!['\u{25e6}', '\u{a0}'],
        ".\u{a0}"@ == seq!['.', '\u{a0}'],
{
    reveal_strlit("\u{2022}\u{a0}");
    reveal_strlit("\u{25e6}\u{a0}");
    reveal_strlit(".\u{a0}");
    assert("\u{2022}\u{a0}"@ =~= seq!['\u{2022}', '\u{a0}']);
    assert("\u{25e6}\u{a0}"@ =~= seq!['\u{25e6}', '\u{a0}']);
    assert(".\u{a0}"@ =~= seq!['.', '\u{a0}']);
}

proof fn lemma_block(events: Seq<Event>, block: Piece)
    ensures
        read(resting(events), block_xml(block), 0) == resting(events + block_shown(block)),
{
    lemma_normal();
    lemma_styles();
    lemma_markers();
    match block {
        Piece::Heading { level, text } => {
            lemma_heading_style(level);
            lemma_para(events, text, heading_style(level), 0, None);
        },
        Piece::Paragraph(text) => {
            lemma_para(events, text, "Normal"@, 0, None);
        },
        Piece::Bullet { depth, text } => {
            let marker = if depth == 0 {
                "\u{2022}\u{a0}"@
            } else {
                "\u{25e6}\u{a0}"@
            };
            lemma_para(events, text, "Normal"@, 360 + 360 * depth as nat, Some(marker));
        },
        Piece::Numbered { depth, number, text } => {
            let marker = decimal(number as nat) + ".\u{a0}"@;
            lemma_para(events, text, "Normal"@, 360 + 360 * depth as nat, Some(marker));
        },
        Piece::Quote(text) => {
            lemma_para(events, text, "Quote"@, 720, None);
        },
        Piece::Table { head, rows } => {
            lemma_table(events, head, rows);
        },
        Piece::Rule => {
            lemma_rule(events);
            assert(events + Seq::<Event>::empty() =~= events);
        },
    }
}

proof fn lemma_blocks(events: Seq<Event>, blocks: Seq<Piece>)
    ensures
        read(resting(events), blocks_xml(blocks), 0) == resting(events + blocks_shown(blocks)),
    decreases blocks.len(),
{
    if blocks.len() == 0 {
        assert(events + blocks_shown(blocks) =~= events);
    } else {
        let front = blocks.drop_last();
        lemma_blocks(events, front);
        lemma_then(resting(events), blocks_xml(front), block_xml(blocks.last()));
        lemma_block(events + blocks_shown(front), blocks.last());
        assert(events + blocks_shown(front) + block_shown(blocks.last()) =~= events + blocks_shown(
            blocks,
        ));
    }
}

/// What a document shows: its title, where it has one, its blocks in order, and
/// its subjects under a heading of their own, where it has any.
pub open spec fn document_shown(
    title: Seq<char>,
    blocks: Seq<Piece>,
    topics: Seq<Seq<char>>,
) -> Seq<Event> {
    (if title.len() > 0 {
        paragraph("Title"@, 0, Seq::empty(), seq![plain_run(title)])
    } else {
        Seq::empty()
    }) + blocks_shown(blocks) + (if topics.len() > 0 {
        paragraph("Heading2"@, 0, Seq::empty(), seq![plain_run("Subjects"@)]) + paragraph(
            "Normal"@,
            0,
            Seq::empty(),
            seq![plain_run(joined(topics, ", "@))],
        )
    } else {
        Seq::empty()
    })
}

/// A Word file shows the document: what is read in its body, its entities read as
/// the characters they stand for, is the document, every character of it in its
/// emphasis, every paragraph in its style, every row and every cell.
pub proof fn law_a_word_file_shows_the_document(
    title: Seq<char>,
    blocks: Seq<Piece>,
    topics: Seq<Seq<char>>,
)
    ensures
        events_in(body_xml(title, blocks, topics)) == document_shown(title, blocks, topics),
{
    lemma_body(title, blocks, topics);
}

proof fn lemma_body(title: Seq<char>, blocks: Seq<Piece>, topics: Seq<Seq<char>>)
    ensures
        read(resting(Seq::empty()), body_xml(title, blocks, topics), 0) == resting(
            document_shown(title, blocks, topics),
        ),
{
    let none = Seq::<Event>::empty();
    let r = resting(none);
    let head = para_xml(seq![plain_run(title)], "Title"@, 0, None);
    let first = word::when(title.len() > 0, head);
    let last = word::when(topics.len() > 0, subjects_xml(topics));
    lemma_normal();
    lemma_styles();
    lemma_when(r, title.len() > 0, head);
    lemma_para(none, seq![plain_run(title)], "Title"@, 0, None);
    let e1 = if title.len() > 0 {
        paragraph("Title"@, 0, Seq::empty(), seq![plain_run(title)])
    } else {
        Seq::empty()
    };
    assert(none + e1 =~= e1);
    assert(read(r, first, 0) == resting(e1));
    lemma_then(r, first, blocks_xml(blocks));
    lemma_blocks(e1, blocks);
    let e2 = e1 + blocks_shown(blocks);
    lemma_then(r, first + blocks_xml(blocks), last);
    lemma_when(resting(e2), topics.len() > 0, subjects_xml(topics));
    if topics.len() > 0 {
        let one = para_xml(seq![plain_run("Subjects"@)], "Heading2"@, 0, None);
        let two = para_xml(seq![plain_run(joined(topics, ", "@))], "Normal"@, 0, None);
        lemma_para(e2, seq![plain_run("Subjects"@)], "Heading2"@, 0, None);
        let e3 = e2 + paragraph("Heading2"@, 0, Seq::empty(), seq![plain_run("Subjects"@)]);
        lemma_then(resting(e2), one, two);
        lemma_para(e3, seq![plain_run(joined(topics, ", "@))], "Normal"@, 0, None);
        assert(e3 + paragraph(
            "Normal"@,
            0,
            Seq::empty(),
            seq![plain_run(joined(topics, ", "@))],
        ) =~= document_shown(title, blocks, topics));
    } else {
        assert(e2 =~= document_shown(title, blocks, topics));
    }
}

// ---------------------------------------------------------------- characters

/// The characters among what is read.
pub open spec fn characters(events: Seq<Event>) -> Seq<char>
    decreases events.len(),
{
    if events.len() == 0 {
        Seq::empty()
    } else {
        match events.last() {
            Event::Letter { c, bold, italic, strike } => characters(events.drop_last()).push(c),
            _ => characters(events.drop_last()),
        }
    }
}

/// How many rows, and how many cells, are among what is read.
pub open spec fn rows_and_cells(events: Seq<Event>) -> (nat, nat)
    decreases events.len(),
{
    if events.len() == 0 {
        (0, 0)
    } else {
        let (rows, cells) = rows_and_cells(events.drop_last());
        match events.last() {
            Event::Row => (rows + 1, cells),
            Event::Cell => (rows, cells + 1),
            _ => (rows, cells),
        }
    }
}

proof fn lemma_characters_append(a: Seq<Event>, b: Seq<Event>)
    ensures
        characters(a + b) == characters(a) + characters(b),
        rows_and_cells(a + b).0 == rows_and_cells(a).0 + rows_and_cells(b).0,
        rows_and_cells(a + b).1 == rows_and_cells(a).1 + rows_and_cells(b).1,
    decreases b.len(),
{
    if b.len() == 0 {
        assert(a + b =~= a);
        assert(characters(a) + characters(b) =~= characters(a));
    } else {
        lemma_characters_append(a, b.drop_last());
        assert((a + b).drop_last() =~= a + b.drop_last());
        assert(characters(a + b) =~= characters(a) + characters(b));
    }
}

proof fn lemma_a_letter_more(events: Seq<Event>, c: char, like: Run)
    ensures
        ({
            let more = events.push(
                Event::Letter { c, bold: like.bold, italic: like.italic, strike: like.strike },
            );
            &&& characters(more) == characters(events).push(c)
            &&& rows_and_cells(more) == rows_and_cells(events)
        }),
{
    let more = events.push(
        Event::Letter { c, bold: like.bold, italic: like.italic, strike: like.strike },
    );
    assert(more.drop_last() =~= events);
}

proof fn lemma_letters_characters(text: Seq<char>, like: Run)
    ensures
        characters(letters(text, like)) == text,
        rows_and_cells(letters(text, like)) == (0nat, 0nat),
    decreases text.len(),
{
    let all = letters(text, like);
    if text.len() == 0 {
        assert(characters(all) =~= text);
    } else {
        lemma_letters_characters(text.drop_last(), like);
        lemma_a_letter_more(letters(text.drop_last(), like), text.last(), like);
        assert(characters(all) =~= text);
    }
}

proof fn lemma_runs_characters(list: Seq<Run>)
    ensures
        characters(runs_shown(list)) == plain_text(list),
        rows_and_cells(runs_shown(list)) == (0nat, 0nat),
    decreases list.len(),
{
    if list.len() > 0 {
        let run = list.last();
        lemma_runs_characters(list.drop_last());
        lemma_letters_characters(run.text, run);
        lemma_characters_append(runs_shown(list.drop_last()), run_shown(run));
    }
}

proof fn lemma_one_event(event: Event)
    requires
        event !is Letter,
    ensures
        characters(seq![event]) == Seq::<char>::empty(),
        rows_and_cells(seq![event]) == (
            if event is Row {
                1nat
            } else {
                0nat
            },
            if event is Cell {
                1nat
            } else {
                0nat
            },
        ),
{
    assert(seq![event].drop_last() =~= Seq::empty());
    assert(characters(Seq::<Event>::empty()) =~= Seq::empty());
    assert(rows_and_cells(Seq::<Event>::empty()) == (0nat, 0nat));
}

proof fn lemma_paragraph_characters(
    style: Seq<char>,
    left: nat,
    marker: Seq<char>,
    list: Seq<Run>,
)
    ensures
        characters(paragraph(style, left, marker, list)) == marker + plain_text(list),
        rows_and_cells(paragraph(style, left, marker, list)) == (0nat, 0nat),
{
    let a = seq![Event::Paragraph { style }];
    let b = if left > 0 {
        seq![Event::Indent { left: decimal(left) }]
    } else {
        Seq::empty()
    };
    let c = unmarked(marker);
    let d = runs_shown(list);
    lemma_one_event(Event::Paragraph { style });
    lemma_one_event(Event::Indent { left: decimal(left) });
    lemma_letters_characters(marker, plain_run(marker));
    lemma_runs_characters(list);
    lemma_characters_append(a, b);
    lemma_characters_append(a + b, c);
    lemma_characters_append(a + b + c, d);
    assert(characters(Seq::<Event>::empty()) =~= Seq::empty());
    assert(rows_and_cells(Seq::<Event>::empty()) == (0nat, 0nat));
    assert(characters(a + b) =~= Seq::empty());
    assert(characters(paragraph(style, left, marker, list)) =~= marker + plain_text(list));
}

/// The text of some cells, one after another.
pub open spec fn cells_text(row: Seq<Seq<Run>>) -> Seq<char>
    decreases row.len(),
{
    if row.len() == 0 {
        Seq::empty()
    } else {
        cells_text(row.drop_last()) + plain_text(row.last())
    }
}

/// The text of some rows, one after another.
pub open spec fn rows_text(rows: Seq<Seq<Seq<Run>>>) -> Seq<char>
    decreases rows.len(),
{
    if rows.len() == 0 {
        Seq::empty()
    } else {
        rows_text(rows.drop_last()) + cells_text(rows.last())
    }
}

proof fn lemma_bold_text(list: Seq<Run>)
    ensures
        plain_text(all_bold(list)) == plain_text(list),
    decreases list.len(),
{
    if list.len() > 0 {
        lemma_bold_text(list.drop_last());
        assert(all_bold(list).drop_last() =~= all_bold(list.drop_last()));
    } else {
        assert(all_bold(list) =~= list);
    }
}

proof fn lemma_row_characters(row: Seq<Seq<Run>>, header: bool, columns: nat)
    ensures
        columns <= row.len() ==> characters(row_shown(row, header, columns)) == cells_text(
            row.take(columns as int),
        ),
        columns >= row.len() ==> characters(row_shown(row, header, columns)) == cells_text(row),
        rows_and_cells(row_shown(row, header, columns)) == (1nat, columns),
    decreases columns,
{
    lemma_one_event(Event::Row);
    lemma_one_event(Event::Cell);
    if columns == 0 {
        assert(row.take(0) =~= Seq::empty());
        if row.len() == 0 {
            assert(row =~= Seq::empty());
        }
    } else {
        let at = columns - 1;
        lemma_row_characters(row, header, at as nat);
        let content = if at >= row.len() {
            Seq::empty()
        } else if header {
            all_bold(row[at])
        } else {
            row[at]
        };
        let before = row_shown(row, header, at as nat);
        let para = paragraph("Normal"@, 0, Seq::empty(), content);
        lemma_paragraph_characters("Normal"@, 0, Seq::empty(), content);
        lemma_characters_append(before, seq![Event::Cell]);
        lemma_characters_append(before + seq![Event::Cell], para);
        assert(Seq::<char>::empty() + plain_text(content) =~= plain_text(content));
        if at < row.len() {
            lemma_bold_text(row[at]);
            lemma_prefix_step(row, at);
            assert(characters(row_shown(row, header, columns)) =~= cells_text(row.take(at))
                + plain_text(row[at]));
            if columns == row.len() {
                assert(row.take(columns as int) =~= row);
            }
            if at == row.len() {
                assert(row.take(at) =~= row);
            }
        } else {
            assert(plain_text(content) =~= Seq::empty());
            assert(characters(row_shown(row, header, columns)) =~= cells_text(row));
        }
    }
}

proof fn lemma_rows_characters(rows: Seq<Seq<Seq<Run>>>, columns: nat)
    requires
        forall|i: int| 0 <= i < rows.len() ==> (#[trigger] rows[i]).len() <= columns,
    ensures
        characters(rows_shown(rows, columns)) == rows_text(rows),
        rows_and_cells(rows_shown(rows, columns)).0 == rows.len(),
        rows_and_cells(rows_shown(rows, columns)).1 == rows.len() * columns,
    decreases rows.len(),
{
    if rows.len() > 0 {
        let front = rows.drop_last();
        assert forall|i: int| 0 <= i < front.len() implies (#[trigger] front[i]).len()
            <= columns by {
            assert(front[i] == rows[i]);
        }
        lemma_rows_characters(front, columns);
        assert(rows[rows.len() - 1].len() <= columns);
        lemma_row_characters(rows.last(), false, columns);
        lemma_characters_append(rows_shown(front, columns), row_shown(rows.last(), false, columns));
        assert(rows.len() * columns == front.len() * columns + columns) by (nonlinear_arith)
            requires
                rows.len() == front.len() + 1,
        ;
    } else {
        assert(0 * columns == 0) by (nonlinear_arith);
    }
}

proof fn lemma_widest(rows: Seq<Seq<Seq<Run>>>)
    ensures
        forall|i: int| 0 <= i < rows.len() ==> (#[trigger] rows[i]).len() <= widest_row(rows),
        widest_row(rows) == 0 || exists|i: int|
            0 <= i < rows.len() && (#[trigger] rows[i]).len() == widest_row(rows),
    decreases rows.len(),
{
    if rows.len() > 0 {
        let front = rows.drop_last();
        lemma_widest(front);
        assert forall|i: int| 0 <= i < rows.len() implies (#[trigger] rows[i]).len() <= widest_row(
            rows,
        ) by {
            if i < front.len() {
                assert(front[i] == rows[i]);
            }
        }
        if widest_row(rows) == rows.last().len() {
            assert(rows[rows.len() - 1].len() == widest_row(rows));
        } else if widest_row(front) > 0 {
            let i = choose|i: int|
                0 <= i < front.len() && (#[trigger] front[i]).len() == widest_row(front);
            assert(rows[i] == front[i]);
        }
    }
}

/// A table has as many columns as its longest row has cells, its head among them.
pub proof fn law_no_row_is_longer_than_the_table(head: Seq<Seq<Run>>, rows: Seq<Seq<Seq<Run>>>)
    ensures
        head.len() <= column_count(head, rows),
        forall|i: int|
            0 <= i < rows.len() ==> (#[trigger] rows[i]).len() <= column_count(head, rows),
        column_count(head, rows) == head.len() || exists|i: int|
            0 <= i < rows.len() && (#[trigger] rows[i]).len() == column_count(head, rows),
{
    lemma_widest(rows);
}

/// A table in a Word file holds its head and every one of its rows, each as long
/// as the longest, and every character of every cell in order.
pub proof fn law_a_table_is_whole(head: Seq<Seq<Run>>, rows: Seq<Seq<Seq<Run>>>)
    requires
        head.len() > 0 || exists|i: int| 0 <= i < rows.len() && (#[trigger] rows[i]).len() > 0,
    ensures
        characters(events_in(table_xml(head, rows))) == cells_text(head) + rows_text(rows),
        rows_and_cells(events_in(table_xml(head, rows))).0 == rows.len() + (if head.len() > 0 {
            1nat
        } else {
            0nat
        }),
        rows_and_cells(events_in(table_xml(head, rows))).1 == (rows.len() + (if head.len() > 0 {
            1nat
        } else {
            0nat
        })) * column_count(head, rows),
{
    lemma_table(Seq::empty(), head, rows);
    assert(Seq::<Event>::empty() + table_shown(head, rows) =~= table_shown(head, rows));
    lemma_table_characters(head, rows);
}

proof fn lemma_table_characters(head: Seq<Seq<Run>>, rows: Seq<Seq<Seq<Run>>>)
    ensures
        characters(table_shown(head, rows)) == cells_text(head) + rows_text(rows),
        column_count(head, rows) > 0 ==> rows_and_cells(table_shown(head, rows)).0 == rows.len() + (
        if head.len() > 0 {
            1nat
        } else {
            0nat
        }),
        column_count(head, rows) > 0 ==> rows_and_cells(table_shown(head, rows)).1 == (rows.len()
            + (if head.len() > 0 {
            1nat
        } else {
            0nat
        })) * column_count(head, rows),
        head.len() > 0 || (exists|i: int| 0 <= i < rows.len() && (#[trigger] rows[i]).len() > 0)
            ==> column_count(head, rows) > 0,
{
    let columns = column_count(head, rows);
    law_no_row_is_longer_than_the_table(head, rows);
    lemma_rows_characters(rows, columns);
    lemma_row_characters(head, true, columns);
    let top = if head.len() > 0 {
        row_shown(head, true, columns)
    } else {
        Seq::empty()
    };
    lemma_characters_append(top, rows_shown(rows, columns));
    if head.len() == 0 {
        assert(characters(top) =~= Seq::empty());
        assert(rows_and_cells(top) == (0nat, 0nat));
        assert(cells_text(head) =~= Seq::empty());
    }
    if columns == 0 {
        lemma_nothing_in_empty_rows(rows);
        assert(characters(table_shown(head, rows)) =~= cells_text(head) + rows_text(rows));
    } else {
        let n = rows.len();
        assert((n + 1) * columns == n * columns + columns) by (nonlinear_arith);
    }
}

proof fn lemma_nothing_in_empty_rows(rows: Seq<Seq<Seq<Run>>>)
    requires
        forall|i: int| 0 <= i < rows.len() ==> (#[trigger] rows[i]).len() == 0,
    ensures
        rows_text(rows) == Seq::<char>::empty(),
    decreases rows.len(),
{
    if rows.len() > 0 {
        let front = rows.drop_last();
        assert forall|i: int| 0 <= i < front.len() implies (#[trigger] front[i]).len() == 0 by {
            assert(front[i] == rows[i]);
        }
        lemma_nothing_in_empty_rows(front);
        assert(rows[rows.len() - 1].len() == 0);
        assert(rows_text(rows) =~= Seq::empty());
    }
}

/// The text of a block, with the marker of an item before it.
pub open spec fn block_words(block: Piece) -> Seq<char> {
    match block {
        Piece::Heading { level, text } => plain_text(text),
        Piece::Paragraph(text) => plain_text(text),
        Piece::Bullet { depth, text } => (if depth == 0 {
            seq!['\u{2022}', '\u{a0}']
        } else {
            seq!['\u{25e6}', '\u{a0}']
        }) + plain_text(text),
        Piece::Numbered { depth, number, text } => decimal(number as nat) + seq!['.', '\u{a0}']
            + plain_text(text),
        Piece::Quote(text) => plain_text(text),
        Piece::Table { head, rows } => cells_text(head) + rows_text(rows),
        Piece::Rule => Seq::empty(),
    }
}

pub open spec fn blocks_words(blocks: Seq<Piece>) -> Seq<char>
    decreases blocks.len(),
{
    if blocks.len() == 0 {
        Seq::empty()
    } else {
        blocks_words(blocks.drop_last()) + block_words(blocks.last())
    }
}

proof fn lemma_block_characters(block: Piece)
    ensures
        characters(block_shown(block)) == block_words(block),
{
    match block {
        Piece::Heading { level, text } => {
            let style = if level >= 3 {
                "Heading3"@
            } else if level == 2 {
                "Heading2"@
            } else if level == 1 {
                "Heading1"@
            } else {
                "Heading0"@
            };
            lemma_paragraph_characters(style, 0, Seq::empty(), text);
            assert(Seq::<char>::empty() + plain_text(text) =~= plain_text(text));
        },
        Piece::Paragraph(text) => {
            lemma_paragraph_characters("Normal"@, 0, Seq::empty(), text);
            assert(Seq::<char>::empty() + plain_text(text) =~= plain_text(text));
        },
        Piece::Bullet { depth, text } => {
            let marker = if depth == 0 {
                seq!['\u{2022}', '\u{a0}']
            } else {
                seq!['\u{25e6}', '\u{a0}']
            };
            lemma_paragraph_characters("Normal"@, 360 * (depth as nat + 1), marker, text);
        },
        Piece::Numbered { depth, number, text } => {
            let marker = decimal(number as nat) + seq!['.', '\u{a0}'];
            lemma_paragraph_characters("Normal"@, 360 * (depth as nat + 1), marker, text);
        },
        Piece::Quote(text) => {
            lemma_paragraph_characters("Quote"@, 720, Seq::empty(), text);
            assert(Seq::<char>::empty() + plain_text(text) =~= plain_text(text));
        },
        Piece::Table { head, rows } => {
            lemma_table_characters(head, rows);
        },
        Piece::Rule => {
            assert(characters(Seq::<Event>::empty()) =~= Seq::empty());
        },
    }
}

proof fn lemma_blocks_characters(blocks: Seq<Piece>)
    ensures
        characters(blocks_shown(blocks)) == blocks_words(blocks),
    decreases blocks.len(),
{
    if blocks.len() > 0 {
        lemma_blocks_characters(blocks.drop_last());
        lemma_block_characters(blocks.last());
        lemma_characters_append(blocks_shown(blocks.drop_last()), block_shown(blocks.last()));
    }
}

/// A Word file loses no character: the text in its body is the title, then the text
/// of every block, of headings, paragraphs, items, quotations and of every cell of
/// a table's head and rows, then the subjects.
pub proof fn law_a_word_file_loses_no_character(
    title: Seq<char>,
    blocks: Seq<Piece>,
    topics: Seq<Seq<char>>,
)
    ensures
        characters(events_in(body_xml(title, blocks, topics))) == title + blocks_words(blocks) + (
        if topics.len() > 0 {
            "Subjects"@ + joined(topics, ", "@)
        } else {
            Seq::empty()
        }),
{
    law_a_word_file_shows_the_document(title, blocks, topics);
    lemma_blocks_characters(blocks);
    let a = if title.len() > 0 {
        paragraph("Title"@, 0, Seq::empty(), seq![plain_run(title)])
    } else {
        Seq::empty()
    };
    let b = blocks_shown(blocks);
    let d = paragraph("Heading2"@, 0, Seq::empty(), seq![plain_run("Subjects"@)]);
    let e = paragraph("Normal"@, 0, Seq::empty(), seq![plain_run(joined(topics, ", "@))]);
    let c = if topics.len() > 0 {
        d + e
    } else {
        Seq::empty()
    };
    lemma_paragraph_characters("Title"@, 0, Seq::empty(), seq![plain_run(title)]);
    lemma_paragraph_characters("Heading2"@, 0, Seq::empty(), seq![plain_run("Subjects"@)]);
    lemma_paragraph_characters(
        "Normal"@,
        0,
        Seq::empty(),
        seq![plain_run(joined(topics, ", "@))],
    );
    lemma_single_run(title);
    lemma_single_run("Subjects"@);
    lemma_single_run(joined(topics, ", "@));
    lemma_characters_append(d, e);
    lemma_characters_append(a, b);
    lemma_characters_append(a + b, c);
    assert(characters(a) =~= title);
    assert(characters(d) =~= "Subjects"@);
    assert(characters(e) =~= joined(topics, ", "@));
    assert(characters(document_shown(title, blocks, topics)) =~= title + blocks_words(blocks)
        + characters(c));
    assert(characters(Seq::<Event>::empty()) =~= Seq::empty());
}

proof fn lemma_single_run(text: Seq<char>)
    ensures
        plain_text(seq![plain_run(text)]) == text,
{
    assert(seq![plain_run(text)].drop_last() =~= Seq::empty());
    assert(plain_text(Seq::<Run>::empty()) =~= Seq::empty());
    assert(plain_text(seq![plain_run(text)]) =~= text);
}

/// The part of a Word file that holds the document shows it.
pub proof fn law_the_document_part_shows_the_document(
    title: Seq<char>,
    blocks: Seq<Piece>,
    topics: Seq<Seq<char>>,
)
    ensures
        exists|i: int|
            0 <= i < word_parts(title, blocks, topics).len() && (#[trigger] word_parts(
                title,
                blocks,
                topics,
            )[i]).0 == "word/document.xml"@ && events_in(word_parts(title, blocks, topics)[i].1)
                == document_shown(title, blocks, topics),
{
    let r = resting(Seq::empty());
    let body = body_xml(title, blocks, topics);
    lemma_document_open(Seq::empty());
    lemma_body(title, blocks, topics);
    lemma_then(r, DOCUMENT_OPEN@, body);
    lemma_then(r, DOCUMENT_OPEN@ + body, DOCUMENT_CLOSE@);
    lemma_document_close(document_shown(title, blocks, topics));
    assert(word_parts(title, blocks, topics)[4].0 == "word/document.xml"@);
}

} // verus!
