//! What reading a document keeps: every character that is not white space.

use crate::exports::markdown::{
    blocks_of, broken, broken_line, closed, drafted, empty_draft, first_heading, saying, step,
    with_item, with_text, Draft, Element, Mark, TableDraft,
};
use crate::exports::model::{plain_run, Piece, Run};
use crate::text::{
    is_char, is_space, joined, lines_of, split_on, trim_back, trim_front, trimmed, whitespace,
    without_return,
};
use vstd::multiset::Multiset;
use vstd::prelude::*;

verus! {

/// The characters of a text that are not white space, each as often as it
/// occurs.
pub open spec fn solid(s: Seq<char>) -> Multiset<char>
    decreases s.len(),
{
    if s.len() == 0 {
        Multiset::empty()
    } else if whitespace(s.last()) {
        solid(s.drop_last())
    } else {
        solid(s.drop_last()).insert(s.last())
    }
}

pub open spec fn solid_runs(list: Seq<Run>) -> Multiset<char>
    decreases list.len(),
{
    if list.len() == 0 {
        Multiset::empty()
    } else {
        solid_runs(list.drop_last()).add(solid(list.last().text))
    }
}

pub open spec fn solid_cells(list: Seq<Seq<Run>>) -> Multiset<char>
    decreases list.len(),
{
    if list.len() == 0 {
        Multiset::empty()
    } else {
        solid_cells(list.drop_last()).add(solid_runs(list.last()))
    }
}

pub open spec fn solid_rows(list: Seq<Seq<Seq<Run>>>) -> Multiset<char>
    decreases list.len(),
{
    if list.len() == 0 {
        Multiset::empty()
    } else {
        solid_rows(list.drop_last()).add(solid_cells(list.last()))
    }
}

pub open spec fn solid_piece(piece: Piece) -> Multiset<char> {
    match piece {
        Piece::Heading { level, text } => solid_runs(text),
        Piece::Paragraph(text) => solid_runs(text),
        Piece::Bullet { depth, text } => solid_runs(text),
        Piece::Numbered { depth, number, text } => solid_runs(text),
        Piece::Quote(text) => solid_runs(text),
        Piece::Table { head, rows } => solid_cells(head).add(solid_rows(rows)),
        Piece::Rule => Multiset::empty(),
    }
}

/// What a list of blocks says.
pub open spec fn solid_pieces(list: Seq<Piece>) -> Multiset<char>
    decreases list.len(),
{
    if list.len() == 0 {
        Multiset::empty()
    } else {
        solid_pieces(list.drop_last()).add(solid_piece(list.last()))
    }
}

pub open spec fn solid_table(table: Option<TableDraft>) -> Multiset<char> {
    match table {
        Some(t) => solid_cells(t.head).add(solid_rows(t.rows)).add(solid_cells(t.cells)),
        None => Multiset::empty(),
    }
}

pub open spec fn solid_code(code: Option<Seq<char>>) -> Multiset<char> {
    match code {
        Some(code) => solid(code),
        None => Multiset::empty(),
    }
}

/// What has been read so far, whether or not its block is complete.
pub open spec fn solid_draft(d: Draft) -> Multiset<char> {
    solid_pieces(d.blocks).add(solid_runs(d.runs)).add(solid_code(d.code)).add(
        solid_table(d.table),
    )
}

/// What one event says.
pub open spec fn said_by(mark: Mark) -> Multiset<char> {
    match mark {
        Mark::Text(text) => solid(text),
        Mark::Code(text) => solid(text),
        Mark::Html(text) => solid(text),
        Mark::Task(done) => solid(
            if done {
                "\u{2611} "@
            } else {
                "\u{2610} "@
            },
        ),
        _ => Multiset::empty(),
    }
}

/// What a run of events says.
pub open spec fn said(events: Seq<Mark>) -> Multiset<char>
    decreases events.len(),
{
    if events.len() == 0 {
        Multiset::empty()
    } else {
        said(events.drop_last()).add(said_by(events.last()))
    }
}

/// An event that does not open a table within a table or a code block within a
/// code block, and does not close a table in the middle of a row.
pub open spec fn in_place(d: Draft, mark: Mark) -> bool {
    match mark {
        Mark::Open(Element::Table) => d.table is None,
        Mark::Open(Element::CodeBlock) => d.code is None,
        Mark::Close(Element::TableHead) => d.table matches Some(t) ==> t.head.len() == 0,
        Mark::Close(Element::Table) => d.table matches Some(t) ==> t.cells.len() == 0,
        _ => true,
    }
}

/// Events in which tables and code blocks nest as they do in a document.
pub open spec fn nested(events: Seq<Mark>) -> bool
    decreases events.len(),
{
    if events.len() == 0 {
        true
    } else {
        nested(events.drop_last()) && in_place(drafted(events.drop_last()), events.last())
    }
}

pub proof fn lemma_solid_add(a: Seq<char>, b: Seq<char>)
    ensures
        solid(a + b) == solid(a).add(solid(b)),
    decreases b.len(),
{
    if b.len() == 0 {
        assert(a + b =~= a);
        assert(solid(a) =~= solid(a).add(Multiset::empty()));
    } else {
        lemma_solid_add(a, b.drop_last());
        assert((a + b).drop_last() =~= a + b.drop_last());
        assert((a + b).last() == b.last());
        if !whitespace(b.last()) {
            assert(solid(a).add(solid(b.drop_last())).insert(b.last()) =~= solid(a).add(
                solid(b.drop_last()).insert(b.last()),
            ));
        }
    }
}

proof fn lemma_solid_blank(s: Seq<char>)
    requires
        forall|i: int| 0 <= i < s.len() ==> whitespace(#[trigger] s[i]),
    ensures
        solid(s) == Multiset::<char>::empty(),
    decreases s.len(),
{
    if s.len() > 0 {
        assert(whitespace(s[s.len() - 1]));
        assert forall|i: int| 0 <= i < s.drop_last().len() implies whitespace(
            #[trigger] s.drop_last()[i],
        ) by {
            assert(s.drop_last()[i] == s[i]);
        }
        lemma_solid_blank(s.drop_last());
    }
}

proof fn lemma_solid_trim_front(s: Seq<char>)
    ensures
        solid(trim_front(s, is_space())) == solid(s),
    decreases s.len(),
{
    if s.len() > 0 && is_space()(s[0]) {
        lemma_solid_trim_front(s.skip(1));
        let first = s.take(1);
        assert(s =~= first + s.skip(1));
        lemma_solid_add(first, s.skip(1));
        lemma_solid_blank(first);
        assert(Multiset::<char>::empty().add(solid(s.skip(1))) =~= solid(s.skip(1)));
    }
}

proof fn lemma_solid_trim_back(s: Seq<char>, drop: spec_fn(char) -> bool)
    requires
        forall|c: char| #[trigger] drop(c) ==> whitespace(c),
    ensures
        solid(trim_back(s, drop)) == solid(s),
    decreases s.len(),
{
    if s.len() > 0 && drop(s.last()) {
        lemma_solid_trim_back(s.drop_last(), drop);
    }
}

proof fn lemma_solid_trimmed(s: Seq<char>)
    ensures
        solid(trimmed(s)) == solid(s),
{
    lemma_solid_trim_front(s);
    lemma_solid_trim_back(trim_front(s, is_space()), is_space());
}

proof fn lemma_solid_with_text(list: Seq<Run>, style: Run, text: Seq<char>)
    ensures
        solid_runs(with_text(list, style, text)) == solid_runs(list).add(solid(text)),
{
    if text.len() == 0 {
        assert(solid_runs(list) =~= solid_runs(list).add(Multiset::empty()));
    } else if list.len() > 0 && list.last().bold == style.bold && list.last().italic
        == style.italic && list.last().strike == style.strike {
        let joint = Run { text: list.last().text + text, ..list.last() };
        let after = list.drop_last().push(joint);
        assert(after.drop_last() =~= list.drop_last());
        lemma_solid_add(list.last().text, text);
        assert(solid_runs(after) =~= solid_runs(list).add(solid(text)));
    } else {
        let after = list.push(Run { text, ..style });
        assert(after.drop_last() =~= list);
    }
}

proof fn lemma_solid_block(blocks: Seq<Piece>, block: Piece)
    ensures
        solid_pieces(blocks.push(block)) == solid_pieces(blocks).add(solid_piece(block)),
{
    assert(blocks.push(block).drop_last() =~= blocks);
}

proof fn lemma_solid_item(d: Draft)
    ensures
        solid_draft(with_item(d)) == solid_draft(d),
{
    let after = with_item(d);
    let block = after.blocks.last();
    lemma_solid_block(d.blocks, block);
    assert(after.blocks =~= d.blocks.push(block));
    assert(solid_piece(block) == solid_runs(d.runs));
    assert(solid_draft(after) =~= solid_draft(d));
}

proof fn lemma_solid_closed(d: Draft, element: Element)
    requires
        in_place(d, Mark::Close(element)),
    ensures
        solid_draft(closed(d, element)) == solid_draft(d),
{
    let after = closed(d, element);
    match element {
        Element::Item => {
            if d.runs.len() > 0 {
                lemma_solid_item(d);
            }
        },
        Element::CodeBlock => {
            if let Some(code) = d.code {
                lemma_solid_trimmed(code);
                let text = trimmed(code);
                let only = seq![plain_run(text)];
                assert(only.drop_last() =~= Seq::empty());
                assert(solid_runs(only) =~= solid(text)) by {
                    assert(solid_runs(Seq::<Run>::empty()) == Multiset::<char>::empty());
                }
                lemma_solid_block(d.blocks, Piece::Paragraph(only));
                assert(solid_draft(after) =~= solid_draft(d));
            }
        },
        Element::TableCell => {
            if let Some(t) = d.table {
                assert(t.cells.push(d.runs).drop_last() =~= t.cells);
                assert(solid_draft(after) =~= solid_draft(d));
            }
        },
        Element::TableRow => {
            if let Some(t) = d.table {
                assert(t.rows.push(t.cells).drop_last() =~= t.rows);
                assert(solid_draft(after) =~= solid_draft(d));
            }
        },
        Element::TableHead => {
            if let Some(t) = d.table {
                assert(solid_draft(after) =~= solid_draft(d));
            }
        },
        Element::Table => {
            if let Some(t) = d.table {
                lemma_solid_block(d.blocks, Piece::Table { head: t.head, rows: t.rows });
                assert(solid_draft(after) =~= solid_draft(d));
            }
        },
        Element::Heading(_) => {
            if let Some(level) = d.heading {
                lemma_solid_block(d.blocks, Piece::Heading { level, text: d.runs });
            }
            assert(solid_draft(after) =~= solid_draft(d));
        },
        Element::Quote => {
            lemma_solid_block(d.blocks, Piece::Quote(d.runs));
            assert(solid_draft(after) =~= solid_draft(d));
        },
        Element::Paragraph => {
            lemma_solid_item(d);
            lemma_solid_block(d.blocks, Piece::Paragraph(d.runs));
            assert(solid_draft(after) =~= solid_draft(d));
        },
        _ => {},
    }
}

proof fn lemma_solid_said(d: Draft, text: Seq<char>)
    ensures
        solid_draft(saying(d, text)) == solid_draft(d).add(solid(text)),
{
    lemma_solid_with_text(d.runs, d.style, text);
    assert(solid_draft(saying(d, text)) =~= solid_draft(d).add(solid(text)));
}

/// Taking in an event adds what the event says and loses nothing.
proof fn lemma_solid_step(d: Draft, mark: Mark)
    requires
        in_place(d, mark),
    ensures
        solid_draft(step(d, mark)) == solid_draft(d).add(said_by(mark)),
{
    let after = step(d, mark);
    assert(solid_draft(d).add(Multiset::empty()) =~= solid_draft(d));
    match mark {
        Mark::Open(element) => {
            assert(solid_draft(after) =~= solid_draft(d));
        },
        Mark::OpenList(first) => {
            if d.lists.len() > 0 && d.runs.len() > 0 {
                lemma_solid_item(d);
            }
        },
        Mark::Close(element) => {
            lemma_solid_closed(d, element);
        },
        Mark::Text(text) => {
            match d.code {
                Some(code) => {
                    lemma_solid_add(code, text);
                    assert(solid_draft(after) =~= solid_draft(d).add(solid(text)));
                },
                None => {
                    lemma_solid_said(d, text);
                },
            }
        },
        Mark::Code(text) => {
            lemma_solid_said(d, text);
        },
        Mark::Html(text) => {
            lemma_solid_said(d, text);
        },
        Mark::SoftBreak => {
            lemma_solid_said(d, " "@);
            reveal_strlit(" ");
            lemma_solid_blank(" "@);
        },
        Mark::HardBreak => {
            lemma_solid_said(d, " "@);
            reveal_strlit(" ");
            lemma_solid_blank(" "@);
        },
        Mark::Task(done) => {
            lemma_solid_said(
                d,
                if done {
                    "\u{2611} "@
                } else {
                    "\u{2610} "@
                },
            );
        },
        Mark::Rule => {
            lemma_solid_block(d.blocks, Piece::Rule);
            assert(solid_draft(after) =~= solid_draft(d));
        },
        Mark::Other => {},
    }
}

proof fn lemma_solid_drafted(events: Seq<Mark>)
    requires
        nested(events),
    ensures
        solid_draft(drafted(events)) == said(events),
    decreases events.len(),
{
    if events.len() == 0 {
        assert(solid_draft(empty_draft()) =~= Multiset::<char>::empty());
    } else {
        lemma_solid_drafted(events.drop_last());
        lemma_solid_step(drafted(events.drop_last()), events.last());
    }
}

/// What was said is never dropped: the blocks of a document hold every
/// character its events hold, but for white space, and no other.
pub proof fn law_no_word_is_lost(events: Seq<Mark>)
    requires
        nested(events),
        drafted(events).code is None,
        drafted(events).table is None,
    ensures
        solid_pieces(blocks_of(events)) == said(events),
{
    lemma_solid_drafted(events);
    let d = drafted(events);
    lemma_solid_block(d.blocks, Piece::Paragraph(d.runs));
    assert(solid_pieces(blocks_of(events)) =~= solid_draft(d));
}

// ------------------------------------------------------------------ headings

spec fn solid_texts(list: Seq<Seq<char>>) -> Multiset<char>
    decreases list.len(),
{
    if list.len() == 0 {
        Multiset::empty()
    } else {
        solid_texts(list.drop_last()).add(solid(list.last()))
    }
}

proof fn lemma_solid_split(s: Seq<char>)
    ensures
        solid_texts(split_on(s, '\n')) == solid(s),
        split_on(s, '\n').len() > 0,
    decreases s.len(),
{
    if s.len() == 0 {
        let none = split_on(s, '\n');
        assert(none.drop_last() =~= Seq::empty());
        assert(solid_texts(Seq::<Seq<char>>::empty()) == Multiset::<char>::empty());
        assert(solid(none.last()) == Multiset::<char>::empty());
        assert(solid_texts(none) =~= Multiset::<char>::empty());
    } else {
        lemma_solid_split(s.drop_last());
        let before = split_on(s.drop_last(), '\n');
        if s.last() == '\n' {
            let after = before.push(Seq::empty());
            assert(after.drop_last() =~= before);
            assert(solid_texts(after) =~= solid_texts(before));
        } else {
            let longer = before.last().push(s.last());
            let after = before.drop_last().push(longer);
            assert(after.drop_last() =~= before.drop_last());
            assert(longer.drop_last() =~= before.last());
            assert(solid_texts(after) =~= solid(s));
        }
    }
}

proof fn lemma_solid_mapped(list: Seq<Seq<char>>, f: spec_fn(Seq<char>) -> Seq<char>)
    requires
        forall|t: Seq<char>| solid(#[trigger] f(t)) == solid(t),
    ensures
        solid_texts(list.map_values(f)) == solid_texts(list),
    decreases list.len(),
{
    if list.len() > 0 {
        lemma_solid_mapped(list.drop_last(), f);
        assert(list.map_values(f).drop_last() =~= list.drop_last().map_values(f));
    }
}

proof fn lemma_solid_joined(list: Seq<Seq<char>>)
    ensures
        solid(joined(list, "\n"@)) == solid_texts(list),
    decreases list.len(),
{
    reveal_strlit("\n");
    lemma_solid_blank("\n"@);
    if list.len() == 0 {
    } else if list.len() == 1 {
        assert(list.drop_last() =~= Seq::empty());
        assert(solid_texts(Seq::<Seq<char>>::empty()) == Multiset::<char>::empty());
        assert(solid_texts(list) =~= solid(list[0]));
    } else {
        lemma_solid_joined(list.drop_last());
        let front = joined(list.drop_last(), "\n"@);
        lemma_solid_add(front + "\n"@, list.last());
        lemma_solid_add(front, "\n"@);
        assert(solid(joined(list, "\n"@)) =~= solid_texts(list));
    }
}

proof fn lemma_solid_broken_line(line: Seq<char>)
    ensures
        solid(broken_line(line)) == solid(line),
{
    if let Some(at) = first_heading(line, 0) {
        lemma_first_heading_within(line, 0);
        reveal_strlit("\n\n");
        lemma_solid_blank("\n\n"@);
        let front = line.take(at);
        lemma_solid_trim_back(front, is_char(' '));
        let kept = trim_back(front, is_char(' '));
        lemma_solid_add(kept + "\n\n"@, line.skip(at));
        lemma_solid_add(kept, "\n\n"@);
        assert(line =~= front + line.skip(at));
        lemma_solid_add(front, line.skip(at));
        assert(solid(broken_line(line)) =~= solid(line));
    }
}

proof fn lemma_first_heading_within(line: Seq<char>, at: int)
    ensures
        first_heading(line, at) matches Some(found) ==> at <= found < line.len() && 0 <= found,
    decreases line.len() - at,
{
    if 0 <= at < line.len() {
        lemma_first_heading_within(line, at + 1);
    }
}

/// Putting headings on lines of their own moves white space about and touches
/// nothing else.
pub proof fn law_breaking_keeps_every_word(markdown: Seq<char>)
    ensures
        solid(broken(markdown)) == solid(markdown),
{
    let parts = split_on(markdown, '\n');
    lemma_solid_split(markdown);
    let strip = |p: Seq<char>| without_return(p);
    assert forall|t: Seq<char>| solid(#[trigger] strip(t)) == solid(t) by {
        if t.len() > 0 && t.last() == '\r' {
            assert(whitespace(t.last()));
        }
    }
    let front = parts.drop_last();
    let ended = front.map_values(strip);
    lemma_solid_mapped(front, strip);
    let all = lines_of(markdown);
    assert(ended =~= front.map_values(|p: Seq<char>| without_return(p)));
    if parts.last().len() == 0 {
        assert(all =~= ended);
        assert(solid_texts(all) =~= solid(markdown));
    } else {
        assert(all =~= ended.push(parts.last()));
        assert(all.drop_last() =~= ended);
        assert(solid_texts(all) =~= solid(markdown));
    }
    let split = |line: Seq<char>| broken_line(line);
    assert forall|t: Seq<char>| solid(#[trigger] split(t)) == solid(t) by {
        lemma_solid_broken_line(t);
    }
    lemma_solid_mapped(all, split);
    assert(all.map_values(split) =~= all.map_values(|line: Seq<char>| broken_line(line)));
    lemma_solid_joined(all.map_values(split));
}

} // verus!
