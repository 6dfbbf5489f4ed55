//! What the plain text of a document says: that every character which is not white
//! space is in it, in order, and how its lines are laid out.

use crate::exports::model::{plain_text, Piece, Run};
use crate::exports::plain_text::{
    block_text, blocks_text, cell_text, column_count, column_widths, law_wrapping_keeps_every_word,
    quoted_lines, readable_run, readable_text, row_cells, row_line, row_lines, table_text,
    text_document, title_text, topics_text, widest_cell, wrapped,
};
use crate::exports::shown::law_no_row_is_longer_than_the_table;
use crate::text::{
    decimal, fields, is_digit, joined, lemma_decimal, lemma_joined_push, lemma_prefix_step,
    lemma_split_on_nonempty, occurs_at, repeated, split_on, split_whitespace, whitespace,
};
use vstd::prelude::*;

verus! {

/// A text without its white space.
pub open spec fn ink(s: Seq<char>) -> Seq<char>
    decreases s.len(),
{
    if s.len() == 0 {
        Seq::empty()
    } else if whitespace(s.last()) {
        ink(s.drop_last())
    } else {
        ink(s.drop_last()).push(s.last())
    }
}

pub proof fn lemma_ink_append(a: Seq<char>, b: Seq<char>)
    ensures
        ink(a + b) == ink(a) + ink(b),
    decreases b.len(),
{
    if b.len() == 0 {
        assert(a + b =~= a);
        assert(ink(a) + ink(b) =~= ink(a));
    } else {
        lemma_ink_append(a, b.drop_last());
        assert((a + b).drop_last() =~= a + b.drop_last());
        assert(ink(a + b) =~= ink(a) + ink(b));
    }
}

proof fn lemma_ink_blank(s: Seq<char>)
    requires
        forall|i: int| 0 <= i < s.len() ==> whitespace(#[trigger] s[i]),
    ensures
        ink(s) == Seq::<char>::empty(),
    decreases s.len(),
{
    if s.len() > 0 {
        assert(whitespace(s[s.len() - 1]));
        assert forall|i: int| 0 <= i < s.drop_last().len() implies whitespace(
            #[trigger] s.drop_last()[i],
        ) by {
            assert(s.drop_last()[i] == s[i]);
        }
        lemma_ink_blank(s.drop_last());
    }
}

proof fn lemma_ink_solid(s: Seq<char>)
    requires
        forall|i: int| 0 <= i < s.len() ==> !whitespace(#[trigger] s[i]),
    ensures
        ink(s) == s,
    decreases s.len(),
{
    if s.len() > 0 {
        assert(!whitespace(s[s.len() - 1]));
        assert forall|i: int| 0 <= i < s.drop_last().len() implies !whitespace(
            #[trigger] s.drop_last()[i],
        ) by {
            assert(s.drop_last()[i] == s[i]);
        }
        lemma_ink_solid(s.drop_last());
        assert(s.drop_last().push(s.last()) =~= s);
    } else {
        assert(ink(s) =~= s);
    }
}

proof fn lemma_marks()
    ensures
        ink("\n"@) == Seq::<char>::empty(),
        ink("\n\n"@) == Seq::<char>::empty(),
        ink("  "@) == Seq::<char>::empty(),
        ink(" "@) == Seq::<char>::empty(),
        ink("  > "@) == seq!['>'],
        ink(". "@) == seq!['.'],
        ink("  \u{2022} "@) == seq!['\u{2022}'],
        ink("  \u{2013} "@) == seq!['\u{2013}'],
        ink("Subjects: "@) == "Subjects:"@,
{
    reveal_strlit("\n");
    reveal_strlit("\n\n");
    reveal_strlit("  ");
    reveal_strlit(" ");
    lemma_ink_blank("\n"@);
    lemma_ink_blank("\n\n"@);
    lemma_ink_blank("  "@);
    lemma_ink_blank(" "@);
    reveal_strlit("  > ");
    reveal_strlit(". ");
    reveal_strlit("  \u{2022} ");
    reveal_strlit("  \u{2013} ");
    reveal_strlit("Subjects: ");
    reveal_strlit("Subjects:");
    assert("  > "@ =~= "  "@ + seq!['>'] + " "@);
    assert(". "@ =~= seq!['.'] + " "@);
    assert("  \u{2022} "@ =~= "  "@ + seq!['\u{2022}'] + " "@);
    assert("  \u{2013} "@ =~= "  "@ + seq!['\u{2013}'] + " "@);
    assert("Subjects: "@ =~= "Subjects:"@ + " "@);
    lemma_ink_one('>');
    lemma_ink_one('.');
    lemma_ink_one('\u{2022}');
    lemma_ink_one('\u{2013}');
    lemma_ink_solid("Subjects:"@);
    lemma_ink_append("Subjects:"@, " "@);
    lemma_ink_append("  "@, seq!['>']);
    lemma_ink_append("  "@ + seq!['>'], " "@);
    lemma_ink_append(seq!['.'], " "@);
    lemma_ink_append("  "@, seq!['\u{2022}']);
    lemma_ink_append("  "@ + seq!['\u{2022}'], " "@);
    lemma_ink_append("  "@, seq!['\u{2013}']);
    lemma_ink_append("  "@ + seq!['\u{2013}'], " "@);
    let none = Seq::<char>::empty();
    assert(none + seq!['>'] + none =~= seq!['>']);
    assert(seq!['.'] + none =~= seq!['.']);
    assert(none + seq!['\u{2022}'] + none =~= seq!['\u{2022}']);
    assert(none + seq!['\u{2013}'] + none =~= seq!['\u{2013}']);
    assert("Subjects:"@ + none =~= "Subjects:"@);
}

proof fn lemma_ink_one(c: char)
    requires
        !whitespace(c),
    ensures
        ink(seq![c]) == seq![c],
{
    lemma_ink_solid(seq![c]);
}

proof fn lemma_ink_repeated(c: char, n: nat)
    ensures
        whitespace(c) ==> ink(repeated(c, n)) == Seq::<char>::empty(),
        !whitespace(c) ==> ink(repeated(c, n)) == repeated(c, n),
{
    if whitespace(c) {
        lemma_ink_blank(repeated(c, n));
    } else {
        lemma_ink_solid(repeated(c, n));
    }
}

proof fn lemma_ink_decimal(n: nat)
    ensures
        ink(decimal(n)) == decimal(n),
{
    lemma_decimal(n);
    assert forall|i: int| 0 <= i < decimal(n).len() implies !whitespace(
        #[trigger] decimal(n)[i],
    ) by {
        assert(is_digit(decimal(n)[i]));
    }
    lemma_ink_solid(decimal(n));
}

// ------------------------------------------------------------------ emphasis

/// Text is written run by run. Only what is struck out leaves marks, two tildes
/// before it and two behind, unless there is nothing but white space to strike.
pub proof fn law_only_what_is_struck_out_is_marked(a: Seq<Run>, run: Run, b: Seq<Run>)
    ensures
        readable_text(a.push(run) + b) == readable_text(a) + (if run.strike && exists|i: int|
            0 <= i < run.text.len() && !whitespace(#[trigger] run.text[i]) {
            seq!['~', '~'] + run.text + seq!['~', '~']
        } else {
            run.text
        }) + readable_text(b),
    decreases b.len(),
{
    if b.len() == 0 {
        assert(a.push(run) + b =~= a.push(run));
        assert(a.push(run).drop_last() =~= a);
        reveal_strlit("~~");
        assert("~~"@ =~= seq!['~', '~']);
        crate::text::lemma_blank(run.text);
        assert(readable_text(a.push(run) + b) =~= readable_text(a) + readable_run(run)
            + readable_text(b));
    } else {
        law_only_what_is_struck_out_is_marked(a, run, b.drop_last());
        assert((a.push(run) + b).drop_last() =~= a.push(run) + b.drop_last());
        assert(readable_text(b) == readable_text(b.drop_last()) + readable_run(b.last()));
        let marked = if run.strike && exists|i: int|
            0 <= i < run.text.len() && !whitespace(#[trigger] run.text[i]) {
            seq!['~', '~'] + run.text + seq!['~', '~']
        } else {
            run.text
        };
        assert(readable_text(a) + marked + readable_text(b.drop_last()) + readable_run(b.last())
            =~= readable_text(a) + marked + readable_text(b));
    }
}

// -------------------------------------------------------------------- quotes

/// Quoted lines without their white space: each behind its mark.
pub open spec fn quoted_ink(lines: Seq<Seq<char>>) -> Seq<char>
    decreases lines.len(),
{
    if lines.len() == 0 {
        Seq::empty()
    } else {
        quoted_ink(lines.drop_last()) + seq!['>'] + ink(lines.last())
    }
}

/// Lines without their white space, one after another.
pub open spec fn lines_ink(lines: Seq<Seq<char>>) -> Seq<char>
    decreases lines.len(),
{
    if lines.len() == 0 {
        Seq::empty()
    } else {
        lines_ink(lines.drop_last()) + ink(lines.last())
    }
}

proof fn lemma_quoted(lines: Seq<Seq<char>>)
    ensures
        ink(quoted_lines(lines)) == quoted_ink(lines),
    decreases lines.len(),
{
    if lines.len() > 0 {
        let front = quoted_lines(lines.drop_last());
        lemma_quoted(lines.drop_last());
        lemma_marks();
        lemma_ink_append(front, "  > "@);
        lemma_ink_append(front + "  > "@, lines.last());
        lemma_ink_append(front + "  > "@ + lines.last(), "\n"@);
        assert(ink(quoted_lines(lines)) =~= quoted_ink(lines));
    }
}

proof fn lemma_joined_ink(parts: Seq<Seq<char>>, separator: Seq<char>)
    requires
        ink(separator) == Seq::<char>::empty(),
    ensures
        ink(joined(parts, separator)) == lines_ink(parts),
    decreases parts.len(),
{
    if parts.len() > 0 {
        let front = parts.drop_last();
        lemma_joined_ink(front, separator);
        lemma_joined_push(front, parts.last(), separator);
        assert(front.push(parts.last()) =~= parts);
        if front.len() > 0 {
            lemma_ink_append(joined(front, separator), separator);
            lemma_ink_append(joined(front, separator) + separator, parts.last());
            assert(ink(joined(parts, separator)) =~= lines_ink(parts));
        } else {
            assert(lines_ink(front) =~= Seq::empty());
            assert(lines_ink(parts) =~= ink(parts.last()));
        }
    }
}

proof fn lemma_fields_ink(s: Seq<char>)
    ensures
        lines_ink(fields(s).0) + ink(fields(s).1) == ink(s),
    decreases s.len(),
{
    if s.len() == 0 {
        assert(lines_ink(fields(s).0) + ink(fields(s).1) =~= ink(s));
    } else {
        lemma_fields_ink(s.drop_last());
        let (done, open) = fields(s.drop_last());
        if !whitespace(s.last()) {
            assert(open.push(s.last()).drop_last() =~= open);
            assert(lines_ink(done) + ink(open.push(s.last())) =~= ink(s));
        } else if open.len() > 0 {
            assert(done.push(open).drop_last() =~= done);
            assert(ink(Seq::<char>::empty()) =~= Seq::empty());
            assert(lines_ink(done.push(open)) + ink(Seq::<char>::empty()) =~= ink(s));
        }
    }
}

/// Wrapping a text loses no character and adds none: the lines hold, one after
/// another, what the text holds.
pub proof fn law_wrapping_loses_no_character(text: Seq<char>, columns: nat)
    ensures
        lines_ink(wrapped(text, columns)) == ink(text),
{
    lemma_marks();
    law_wrapping_keeps_every_word(text, columns);
    lemma_joined_ink(wrapped(text, columns), " "@);
    lemma_joined_ink(split_whitespace(text), " "@);
    lemma_fields_ink(text);
    let (done, open) = fields(text);
    if open.len() > 0 {
        assert(done.push(open).drop_last() =~= done);
    } else {
        assert(ink(open) =~= Seq::empty());
        assert(lines_ink(done) + ink(open) =~= lines_ink(done));
    }
}

// -------------------------------------------------------------------- tables

/// The cells of a row without white space, one after another.
pub open spec fn cells_ink(row: Seq<Seq<Run>>) -> Seq<char>
    decreases row.len(),
{
    if row.len() == 0 {
        Seq::empty()
    } else {
        cells_ink(row.drop_last()) + ink(readable_text(row.last()))
    }
}

/// The rows of a table without white space, one after another.
pub open spec fn rows_ink(rows: Seq<Seq<Seq<Run>>>) -> Seq<char>
    decreases rows.len(),
{
    if rows.len() == 0 {
        Seq::empty()
    } else {
        rows_ink(rows.drop_last()) + cells_ink(rows.last())
    }
}

proof fn lemma_row_cells(row: Seq<Seq<Run>>, widths: Seq<nat>, upto: nat)
    requires
        upto <= widths.len(),
    ensures
        upto <= row.len() ==> ink(row_cells(row, widths, upto)) == cells_ink(
            row.take(upto as int),
        ),
        upto >= row.len() ==> ink(row_cells(row, widths, upto)) == cells_ink(row),
    decreases upto,
{
    if upto == 0 {
        assert(row.take(0) =~= Seq::empty());
        if row.len() == 0 {
            assert(row =~= Seq::empty());
        }
    } else {
        let at = upto - 1;
        lemma_row_cells(row, widths, at as nat);
        let text = cell_text(row, at);
        let front = row_cells(row, widths, at as nat);
        lemma_ink_append(front, text);
        let pad: nat = if widths[at] >= text.len() {
            (widths[at] - text.len()) as nat
        } else {
            0
        };
        lemma_marks();
        lemma_ink_repeated(' ', pad);
        lemma_ink_append(front + text, repeated(' ', pad));
        lemma_ink_append(front + text + repeated(' ', pad), "  "@);
        assert(ink(row_cells(row, widths, upto)) =~= ink(front) + ink(text));
        if at < row.len() {
            lemma_prefix_step(row, at);
            if upto == row.len() {
                assert(row.take(upto as int) =~= row);
            }
        } else {
            assert(ink(text) =~= Seq::empty());
            assert(ink(front) + ink(text) =~= ink(front));
            if at == row.len() {
                assert(row.take(at) =~= row);
            }
        }
    }
}

proof fn lemma_row_line(row: Seq<Seq<Run>>, widths: Seq<nat>)
    requires
        row.len() <= widths.len(),
    ensures
        ink(row_line(row, widths)) == cells_ink(row),
{
    let inner = row_cells(row, widths, widths.len());
    lemma_marks();
    lemma_row_cells(row, widths, widths.len());
    if row.len() == widths.len() {
        assert(row.take(row.len() as int) =~= row);
    }
    lemma_ink_append("  "@, inner);
    lemma_ink_append("  "@ + inner, "\n"@);
    assert(ink(row_line(row, widths)) =~= cells_ink(row));
}

proof fn lemma_row_lines(rows: Seq<Seq<Seq<Run>>>, widths: Seq<nat>)
    requires
        forall|i: int| 0 <= i < rows.len() ==> (#[trigger] rows[i]).len() <= widths.len(),
    ensures
        ink(row_lines(rows, widths)) == rows_ink(rows),
    decreases rows.len(),
{
    if rows.len() > 0 {
        let front = rows.drop_last();
        assert forall|i: int| 0 <= i < front.len() implies (#[trigger] front[i]).len()
            <= widths.len() by {
            assert(front[i] == rows[i]);
        }
        lemma_row_lines(front, widths);
        assert(rows[rows.len() - 1].len() <= widths.len());
        lemma_row_line(rows.last(), widths);
        lemma_ink_append(row_lines(front, widths), row_line(rows.last(), widths));
    }
}

/// All of some numbers together.
pub open spec fn total(widths: Seq<nat>) -> nat
    decreases widths.len(),
{
    if widths.len() == 0 {
        0
    } else {
        total(widths.drop_last()) + widths.last()
    }
}

proof fn lemma_dashes(widths: Seq<nat>)
    ensures
        lines_ink(widths.map_values(|w: nat| repeated('-', w))) == repeated('-', total(widths)),
    decreases widths.len(),
{
    let dashes = widths.map_values(|w: nat| repeated('-', w));
    if widths.len() == 0 {
        assert(lines_ink(dashes) =~= repeated('-', total(widths)));
    } else {
        lemma_dashes(widths.drop_last());
        assert(dashes.drop_last() =~= widths.drop_last().map_values(|w: nat| repeated('-', w)));
        lemma_ink_repeated('-', widths.last());
        assert(lines_ink(dashes) =~= repeated('-', total(widths)));
    }
}

/// A table in plain text loses no character: the head, underlined for the whole of
/// its columns, and then every row, cell by cell.
pub proof fn law_a_table_in_plain_text_is_whole(head: Seq<Seq<Run>>, rows: Seq<Seq<Seq<Run>>>)
    ensures
        ink(table_text(head, rows)) == cells_ink(head) + (if head.len() > 0 {
            repeated('-', total(column_widths(head, rows)))
        } else {
            Seq::empty()
        }) + rows_ink(rows),
{
    let widths = column_widths(head, rows);
    law_no_row_is_longer_than_the_table(head, rows);
    assert(widths.len() == column_count(head, rows));
    if widths.len() == 0 {
        lemma_no_cells(rows);
        assert(ink(table_text(head, rows)) =~= cells_ink(head) + Seq::<char>::empty() + rows_ink(
            rows,
        ));
    } else {
        lemma_row_lines(rows, widths);
        if head.len() == 0 {
            assert(cells_ink(head) =~= Seq::empty());
            assert(cells_ink(head) + Seq::<char>::empty() + rows_ink(rows) =~= rows_ink(rows));
        } else {
            let dashes = widths.map_values(|w: nat| repeated('-', w));
            let underline = joined(dashes, "  "@);
            lemma_marks();
            lemma_row_line(head, widths);
            lemma_joined_ink(dashes, "  "@);
            lemma_dashes(widths);
            let top = row_line(head, widths);
            lemma_ink_append(top, "  "@);
            lemma_ink_append(top + "  "@, underline);
            lemma_ink_append(top + "  "@ + underline, "\n"@);
            lemma_ink_append(top + "  "@ + underline + "\n"@, row_lines(rows, widths));
            assert(ink(table_text(head, rows)) =~= cells_ink(head) + repeated('-', total(widths))
                + rows_ink(rows));
        }
    }
}

proof fn lemma_no_cells(rows: Seq<Seq<Seq<Run>>>)
    requires
        forall|i: int| 0 <= i < rows.len() ==> (#[trigger] rows[i]).len() == 0,
    ensures
        rows_ink(rows) == Seq::<char>::empty(),
    decreases rows.len(),
{
    if rows.len() > 0 {
        let front = rows.drop_last();
        assert forall|i: int| 0 <= i < front.len() implies (#[trigger] front[i]).len() == 0 by {
            assert(front[i] == rows[i]);
        }
        lemma_no_cells(front);
        assert(rows[rows.len() - 1].len() == 0);
        assert(rows_ink(rows) =~= Seq::empty());
    }
}

/// Where a column begins: behind the two spaces of the margin, and the columns
/// before it with two spaces behind each.
pub open spec fn column_start(widths: Seq<nat>, at: int) -> nat
    decreases at,
{
    if at <= 0 {
        2
    } else {
        column_start(widths, at - 1) + widths[at - 1] + 2
    }
}

proof fn lemma_cell_place(row: Seq<Seq<Run>>, widths: Seq<nat>, upto: nat)
    requires
        upto < widths.len(),
        forall|k: int| 0 <= k < widths.len() ==> cell_text(row, k).len() <= #[trigger] widths[k],
    ensures
        row_cells(row, widths, upto).len() + 2 == column_start(widths, upto as int),
    decreases upto,
{
    if upto > 0 {
        reveal_strlit("  ");
        lemma_cell_place(row, widths, (upto - 1) as nat);
        assert(cell_text(row, upto - 1).len() <= widths[upto - 1]);
    }
}

proof fn lemma_cell_stays(row: Seq<Seq<Run>>, widths: Seq<nat>, at: nat, upto: nat)
    requires
        at < upto <= widths.len(),
    ensures
        row_cells(row, widths, at).len() + cell_text(row, at as int).len() <= row_cells(
            row,
            widths,
            upto,
        ).len(),
        row_cells(row, widths, upto).subrange(
            row_cells(row, widths, at).len() as int,
            (row_cells(row, widths, at).len() + cell_text(row, at as int).len()) as int,
        ) == cell_text(row, at as int),
    decreases upto,
{
    let from = row_cells(row, widths, at).len() as int;
    let to = from + cell_text(row, at as int).len();
    let all = row_cells(row, widths, upto);
    if upto == at + 1 {
        assert(all.subrange(from, to) =~= cell_text(row, at as int));
    } else {
        lemma_cell_stays(row, widths, at, (upto - 1) as nat);
        let part = row_cells(row, widths, (upto - 1) as nat);
        assert(all.subrange(from, to) =~= part.subrange(from, to));
    }
}

proof fn lemma_widest_cell(rows: Seq<Seq<Seq<Run>>>, i: int, at: int)
    requires
        0 <= i < rows.len(),
    ensures
        cell_text(rows[i], at).len() <= widest_cell(rows, at),
    decreases rows.len(),
{
    if i < rows.len() - 1 {
        lemma_widest_cell(rows.drop_last(), i, at);
    }
}

proof fn lemma_lined_up(row: Seq<Seq<Run>>, widths: Seq<nat>, at: int)
    requires
        0 <= at < widths.len(),
        forall|k: int| 0 <= k < widths.len() ==> cell_text(row, k).len() <= #[trigger] widths[k],
    ensures
        occurs_at(row_line(row, widths), cell_text(row, at), column_start(widths, at) as int),
{
    reveal_strlit("  ");
    lemma_cell_place(row, widths, at as nat);
    lemma_cell_stays(row, widths, at as nat, widths.len());
    let inner = row_cells(row, widths, widths.len());
    let from = row_cells(row, widths, at as nat).len() as int;
    let line = row_line(row, widths);
    let start = column_start(widths, at) as int;
    assert(line.subrange(start, start + cell_text(row, at).len()) =~= inner.subrange(
        from,
        from + cell_text(row, at).len(),
    ));
}

/// The columns of a table line up: a cell begins in every row, and in the head,
/// where its column begins, and none is wider than its column.
pub proof fn law_columns_line_up(head: Seq<Seq<Run>>, rows: Seq<Seq<Seq<Run>>>, i: int, at: int)
    requires
        0 <= at < column_count(head, rows),
        0 <= i < rows.len(),
    ensures
        occurs_at(
            row_line(rows[i], column_widths(head, rows)),
            cell_text(rows[i], at),
            column_start(column_widths(head, rows), at) as int,
        ),
        occurs_at(
            row_line(head, column_widths(head, rows)),
            cell_text(head, at),
            column_start(column_widths(head, rows), at) as int,
        ),
        cell_text(rows[i], at).len() <= column_widths(head, rows)[at],
        cell_text(head, at).len() <= column_widths(head, rows)[at],
{
    let widths = column_widths(head, rows);
    assert forall|k: int| 0 <= k < widths.len() implies cell_text(rows[i], k).len()
        <= #[trigger] widths[k] by {
        lemma_widest_cell(rows, i, k);
    }
    assert forall|k: int| 0 <= k < widths.len() implies cell_text(head, k).len()
        <= #[trigger] widths[k] by {}
    assert(cell_text(rows[i], at).len() <= widths[at]);
    assert(cell_text(head, at).len() <= widths[at]);
    lemma_lined_up(rows[i], widths, at);
    lemma_lined_up(head, widths, at);
}

// ------------------------------------------------------------------ document

/// A block without white space: its words, behind the mark of an item or of each
/// line of a quotation, over the underline of a heading.
pub open spec fn block_ink(block: Piece) -> Seq<char> {
    match block {
        Piece::Heading { level, text } => ink(readable_text(text)) + repeated(
            if level <= 2 {
                '-'
            } else {
                '.'
            },
            readable_text(text).len(),
        ),
        Piece::Paragraph(text) => ink(readable_text(text)),
        Piece::Bullet { depth, text } => seq![
            if depth == 0 {
                '\u{2022}'
            } else {
                '\u{2013}'
            },
        ] + ink(readable_text(text)),
        Piece::Numbered { depth, number, text } => decimal(number as nat) + seq!['.'] + ink(
            readable_text(text),
        ),
        Piece::Quote(text) => quoted_ink(wrapped(readable_text(text), 70)),
        Piece::Table { head, rows } => cells_ink(head) + (if head.len() > 0 {
            repeated('-', total(column_widths(head, rows)))
        } else {
            Seq::empty()
        }) + rows_ink(rows),
        Piece::Rule => repeated('-', 40),
    }
}

proof fn lemma_rule_ink()
    ensures
        ink("  ----------------------------------------\n\n"@) == repeated('-', 40),
{
    reveal_strlit("  ----------------------------------------\n\n");
    reveal_strlit("  ");
    reveal_strlit("\n\n");
    lemma_marks();
    let s = "  ----------------------------------------\n\n"@;
    assert(s =~= "  "@ + repeated('-', 40) + "\n\n"@);
    lemma_ink_repeated('-', 40);
    lemma_ink_append("  "@, repeated('-', 40));
    lemma_ink_append("  "@ + repeated('-', 40), "\n\n"@);
    assert(ink(s) =~= repeated('-', 40));
}

proof fn lemma_block_ink(block: Piece)
    ensures
        ink(block_text(block)) == block_ink(block),
{
    lemma_marks();
    match block {
        Piece::Heading { level, text } => {
            let words = readable_text(text);
            let rule = if level <= 2 {
                '-'
            } else {
                '.'
            };
            lemma_ink_repeated(rule, words.len());
            lemma_ink_append(words, "\n"@);
            lemma_ink_append(words + "\n"@, repeated(rule, words.len()));
            lemma_ink_append(words + "\n"@ + repeated(rule, words.len()), "\n\n"@);
            assert(ink(block_text(block)) =~= block_ink(block));
        },
        Piece::Paragraph(text) => {
            lemma_ink_append(readable_text(text), "\n\n"@);
            assert(ink(block_text(block)) =~= block_ink(block));
        },
        Piece::Bullet { depth, text } => {
            let pad = repeated(' ', 4 * depth as nat);
            let mark = if depth == 0 {
                "  \u{2022} "@
            } else {
                "  \u{2013} "@
            };
            lemma_ink_repeated(' ', 4 * depth as nat);
            lemma_ink_append(pad, mark);
            lemma_ink_append(pad + mark, readable_text(text));
            lemma_ink_append(pad + mark + readable_text(text), "\n"@);
            assert(ink(block_text(block)) =~= block_ink(block));
        },
        Piece::Numbered { depth, number, text } => {
            let pad = repeated(' ', 4 * depth as nat);
            let digits = decimal(number as nat);
            lemma_ink_repeated(' ', 4 * depth as nat);
            lemma_ink_decimal(number as nat);
            lemma_ink_append(pad, "  "@);
            lemma_ink_append(pad + "  "@, digits);
            lemma_ink_append(pad + "  "@ + digits, ". "@);
            lemma_ink_append(pad + "  "@ + digits + ". "@, readable_text(text));
            lemma_ink_append(pad + "  "@ + digits + ". "@ + readable_text(text), "\n"@);
            assert(ink(block_text(block)) =~= block_ink(block));
        },
        Piece::Quote(text) => {
            let lines = wrapped(readable_text(text), 70);
            lemma_quoted(lines);
            lemma_ink_append(quoted_lines(lines), "\n"@);
            assert(ink(block_text(block)) =~= block_ink(block));
        },
        Piece::Table { head, rows } => {
            law_a_table_in_plain_text_is_whole(head, rows);
            lemma_ink_append(table_text(head, rows), "\n"@);
            assert(ink(block_text(block)) =~= block_ink(block));
        },
        Piece::Rule => {
            lemma_rule_ink();
        },
    }
}

pub open spec fn blocks_ink(blocks: Seq<Piece>) -> Seq<char>
    decreases blocks.len(),
{
    if blocks.len() == 0 {
        Seq::empty()
    } else {
        blocks_ink(blocks.drop_last()) + block_ink(blocks.last())
    }
}

proof fn lemma_blocks_ink(blocks: Seq<Piece>)
    ensures
        ink(blocks_text(blocks)) == blocks_ink(blocks),
    decreases blocks.len(),
{
    if blocks.len() > 0 {
        let front = blocks.drop_last();
        lemma_blocks_ink(front);
        lemma_block_ink(blocks.last());
        lemma_marks();
        lemma_ink_append(blocks_text(front), "\n"@);
        lemma_ink_append(blocks_text(front) + "\n"@, block_text(blocks.last()));
        lemma_ink_append(blocks_text(front), block_text(blocks.last()));
        assert(ink(blocks_text(front)) + Seq::<char>::empty() =~= ink(blocks_text(front)));
        assert(blocks_text(front) + Seq::<char>::empty() =~= blocks_text(front));
    }
}

/// Plain text loses no character: but for white space it is the title over its
/// underline, every block in order, headings, paragraphs, items, quotations and the
/// cells of tables, and the subjects.
pub proof fn law_plain_text_loses_no_character(
    title: Seq<char>,
    blocks: Seq<Piece>,
    topics: Seq<Seq<char>>,
)
    ensures
        ink(text_document(title, blocks, topics)) == ink(title) + repeated('=', title.len())
            + blocks_ink(blocks) + (if topics.len() > 0 {
            "Subjects:"@ + ink(joined(topics, ", "@))
        } else {
            Seq::empty()
        }),
{
    lemma_marks();
    lemma_blocks_ink(blocks);
    let a = title_text(title);
    let b = blocks_text(blocks);
    let c = if crate::exports::plain_text::ends_in_list(blocks) {
        "\n"@
    } else {
        Seq::empty()
    };
    let d = topics_text(topics);
    lemma_ink_append(a, b);
    lemma_ink_append(a + b, c);
    lemma_ink_append(a + b + c, d);
    lemma_ink_repeated('=', title.len());
    lemma_ink_append(title, "\n"@);
    lemma_ink_append(title + "\n"@, repeated('=', title.len()));
    lemma_ink_append(title + "\n"@ + repeated('=', title.len()), "\n\n"@);
    assert(ink(a) =~= ink(title) + repeated('=', title.len())) by {
        if title.len() == 0 {
            assert(repeated('=', 0) =~= Seq::empty());
        }
    }
    assert(ink(c) =~= Seq::empty());
    lemma_ink_append("Subjects: "@, joined(topics, ", "@));
    lemma_ink_append("Subjects: "@ + joined(topics, ", "@), "\n"@);
    assert(ink(d) =~= if topics.len() > 0 {
        "Subjects:"@ + ink(joined(topics, ", "@))
    } else {
        Seq::empty()
    });
    assert(ink(text_document(title, blocks, topics)) =~= ink(title) + repeated('=', title.len())
        + blocks_ink(blocks) + ink(d));
}

// --------------------------------------------------------------------- lines

/// Whether a text is one line.
pub open spec fn is_one_line(s: Seq<char>) -> bool {
    !s.contains('\n')
}

proof fn lemma_lines(a: Seq<char>, b: Seq<char>)
    requires
        is_one_line(b),
    ensures
        split_on(a + b, '\n') == split_on(a, '\n').drop_last().push(
            split_on(a, '\n').last() + b,
        ),
    decreases b.len(),
{
    lemma_split_on_nonempty(a, '\n');
    if b.len() == 0 {
        assert(a + b =~= a);
        assert(split_on(a, '\n').last() + b =~= split_on(a, '\n').last());
        assert(split_on(a, '\n').drop_last().push(split_on(a, '\n').last()) =~= split_on(a, '\n'));
    } else {
        let front = b.drop_last();
        assert(!front.contains('\n')) by {
            if front.contains('\n') {
                let i = front.index_of('\n');
                assert(b[i] == '\n');
            }
        }
        lemma_lines(a, front);
        assert(b.last() != '\n') by {
            assert(b.contains(b[b.len() - 1]));
        }
        assert((a + b).drop_last() =~= a + front);
        let parts = split_on(a, '\n').drop_last();
        let open = split_on(a, '\n').last();
        assert(parts.push(open + front).drop_last() =~= parts);
        assert((open + front).push(b.last()) =~= open + b);
    }
}

proof fn lemma_line_end(a: Seq<char>)
    ensures
        split_on(a + "\n"@, '\n') == split_on(a, '\n').push(Seq::empty()),
{
    reveal_strlit("\n");
    assert((a + "\n"@).drop_last() =~= a);
}

proof fn lemma_single_line(a: Seq<char>)
    requires
        is_one_line(a),
    ensures
        split_on(a, '\n') == seq![a],
{
    let none = Seq::<char>::empty();
    lemma_lines(none, a);
    assert(none + a =~= a);
    assert(split_on(none, '\n') =~= seq![none]);
    assert(split_on(a, '\n') =~= seq![a]);
}

/// The words of a heading stand on a line of their own, right above an underline as
/// long as they are, of dashes for the upper two levels and of dots below, and an
/// empty line follows.
pub proof fn law_a_heading_is_underlined(level: u8, text: Seq<Run>)
    requires
        is_one_line(readable_text(text)),
    ensures
        split_on(block_text(Piece::Heading { level, text }), '\n') == seq![
            readable_text(text),
            repeated(
                if level <= 2 {
                    '-'
                } else {
                    '.'
                },
                readable_text(text).len(),
            ),
            Seq::empty(),
            Seq::empty(),
        ],
{
    let words = readable_text(text);
    let rule = if level <= 2 {
        '-'
    } else {
        '.'
    };
    let under = repeated(rule, words.len());
    lemma_underlined(words, under);
}

proof fn lemma_underlined(words: Seq<char>, under: Seq<char>)
    requires
        is_one_line(words),
        is_one_line(under),
    ensures
        split_on(words + "\n"@ + under + "\n\n"@, '\n') == seq![
            words,
            under,
            Seq::empty(),
            Seq::empty(),
        ],
{
    let none = Seq::<char>::empty();
    lemma_single_line(words);
    lemma_line_end(words);
    lemma_lines(words + "\n"@, under);
    assert(seq![words].push(none).drop_last() =~= seq![words]);
    assert(none + under =~= under);
    assert(split_on(words + "\n"@ + under, '\n') =~= seq![words, under]);
    lemma_line_end(words + "\n"@ + under);
    lemma_line_end(words + "\n"@ + under + "\n"@);
    reveal_strlit("\n");
    reveal_strlit("\n\n");
    assert(words + "\n"@ + under + "\n"@ + "\n"@ =~= words + "\n"@ + under + "\n\n"@);
    assert(split_on(words + "\n"@ + under + "\n\n"@, '\n') =~= seq![words, under, none, none]);
}

/// The title stands above an underline as long as it is, before everything else.
pub proof fn law_the_title_is_underlined(
    title: Seq<char>,
    blocks: Seq<Piece>,
    topics: Seq<Seq<char>>,
)
    requires
        title.len() > 0,
        is_one_line(title),
    ensures
        split_on(title_text(title), '\n') == seq![
            title,
            repeated('=', title.len()),
            Seq::empty(),
            Seq::empty(),
        ],
        occurs_at(text_document(title, blocks, topics), title_text(title), 0),
{
    lemma_underlined(title, repeated('=', title.len()));
    let all = text_document(title, blocks, topics);
    assert(all.subrange(0, title_text(title).len() as int) =~= title_text(title));
}

/// A paragraph is a line with an empty one behind it; an item is a line, set in by
/// two spaces and four more for each level, behind its mark.
#[verifier::spinoff_prover]
pub proof fn law_paragraphs_and_items_are_lines(text: Seq<Run>, depth: u8, number: usize)
    requires
        is_one_line(readable_text(text)),
    ensures
        split_on(block_text(Piece::Paragraph(text)), '\n') == seq![
            readable_text(text),
            Seq::empty(),
            Seq::empty(),
        ],
        split_on(block_text(Piece::Bullet { depth, text }), '\n') == seq![
            repeated(' ', 4 * depth as nat + 2) + seq![
                if depth == 0 {
                    '\u{2022}'
                } else {
                    '\u{2013}'
                },
                ' ',
            ] + readable_text(text),
            Seq::empty(),
        ],
        split_on(block_text(Piece::Numbered { depth, number, text }), '\n') == seq![
            repeated(' ', 4 * depth as nat + 2) + decimal(number as nat) + seq!['.', ' ']
                + readable_text(text),
            Seq::empty(),
        ],
{
    let words = readable_text(text);
    let none = Seq::<char>::empty();
    reveal_strlit("\n");
    reveal_strlit("\n\n");
    lemma_single_line(words);
    lemma_line_end(words);
    lemma_line_end(words + "\n"@);
    assert(words + "\n"@ + "\n"@ =~= words + "\n\n"@);
    assert(split_on(words + "\n\n"@, '\n') =~= seq![words, none, none]);
    reveal_strlit("  \u{2022} ");
    reveal_strlit("  \u{2013} ");
    reveal_strlit("  ");
    reveal_strlit(". ");
    let mark = if depth == 0 {
        '\u{2022}'
    } else {
        '\u{2013}'
    };
    let item = repeated(' ', 4 * depth as nat + 2) + seq![mark, ' '] + words;
    assert(block_text(Piece::Bullet { depth, text }) =~= item + "\n"@);
    lemma_no_newline(repeated(' ', 4 * depth as nat + 2) + seq![mark, ' '], words);
    lemma_single_line(item);
    lemma_line_end(item);
    assert(seq![item].push(none) =~= seq![item, none]);
    let digits = decimal(number as nat);
    let counted = repeated(' ', 4 * depth as nat + 2) + digits + seq!['.', ' '] + words;
    assert(block_text(Piece::Numbered { depth, number, text }) =~= counted + "\n"@);
    lemma_decimal(number as nat);
    lemma_no_newline(repeated(' ', 4 * depth as nat + 2) + digits + seq!['.', ' '], words);
    lemma_single_line(counted);
    lemma_line_end(counted);
    assert(seq![counted].push(none) =~= seq![counted, none]);
}

proof fn lemma_no_newline(a: Seq<char>, b: Seq<char>)
    requires
        forall|i: int| 0 <= i < a.len() ==> #[trigger] a[i] != '\n',
        is_one_line(b),
    ensures
        is_one_line(a + b),
{
    if (a + b).contains('\n') {
        let i = (a + b).index_of('\n');
        if i >= a.len() {
            assert(b[i - a.len()] == '\n');
        }
    }
}

/// A list is closed by an empty line when something else follows it or nothing
/// does, and its items follow one another without one.
pub proof fn law_a_list_is_closed(front: Seq<Piece>, item: Piece, next: Piece)
    requires
        item is Bullet || item is Numbered,
    ensures
        blocks_text(front.push(item).push(next)) == blocks_text(front.push(item)) + (if next
            is Bullet || next is Numbered {
            Seq::empty()
        } else {
            seq!['\n']
        }) + block_text(next),
        text_document(Seq::empty(), front.push(item), Seq::empty()) == blocks_text(
            front.push(item),
        ) + seq!['\n'],
{
    reveal_strlit("\n");
    assert("\n"@ =~= seq!['\n']);
    assert(front.push(item).push(next).drop_last() =~= front.push(item));
    assert(front.push(item).drop_last() =~= front);
    assert(blocks_text(front.push(item)) + Seq::<char>::empty() =~= blocks_text(front.push(item)));
    assert(text_document(Seq::empty(), front.push(item), Seq::empty()) =~= blocks_text(
        front.push(item),
    ) + seq!['\n']);
}

/// Lines, each behind the mark of a quotation and ended.
pub open spec fn marked_lines(lines: Seq<Seq<char>>) -> Seq<char>
    decreases lines.len(),
{
    if lines.len() == 0 {
        Seq::empty()
    } else {
        seq![' ', ' ', '>', ' '] + lines[0] + seq!['\n'] + marked_lines(lines.skip(1))
    }
}

proof fn lemma_marked_lines(lines: Seq<Seq<char>>, last: Seq<char>)
    ensures
        marked_lines(lines.push(last)) == marked_lines(lines) + seq![' ', ' ', '>', ' '] + last
            + seq!['\n'],
    decreases lines.len(),
{
    let all = lines.push(last);
    if lines.len() > 0 {
        lemma_marked_lines(lines.skip(1), last);
        assert(all.skip(1) =~= lines.skip(1).push(last));
        assert(all[0] == lines[0]);
    } else {
        assert(all.skip(1) =~= Seq::empty());
        assert(marked_lines(all.skip(1)).len() == 0);
    }
    assert(marked_lines(all) =~= marked_lines(lines) + seq![' ', ' ', '>', ' '] + last + seq![
        '\n',
    ]);
}

proof fn lemma_quoted_lines(lines: Seq<Seq<char>>)
    ensures
        quoted_lines(lines) == marked_lines(lines),
    decreases lines.len(),
{
    reveal_strlit("  > ");
    reveal_strlit("\n");
    assert("  > "@ =~= seq![' ', ' ', '>', ' ']);
    assert("\n"@ =~= seq!['\n']);
    if lines.len() > 0 {
        lemma_quoted_lines(lines.drop_last());
        lemma_marked_lines(lines.drop_last(), lines.last());
        assert(lines.drop_last().push(lines.last()) =~= lines);
    }
}

/// A quotation is wrapped at seventy columns, and each of its lines is marked.
pub proof fn law_each_line_of_a_quotation_is_marked(text: Seq<Run>)
    ensures
        block_text(Piece::Quote(text)) == marked_lines(wrapped(readable_text(text), 70)) + seq![
            '\n',
        ],
{
    reveal_strlit("\n");
    assert("\n"@ =~= seq!['\n']);
    lemma_quoted_lines(wrapped(readable_text(text), 70));
}

} // verus!
