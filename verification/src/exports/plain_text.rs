//! The export as plain text.

use crate::exports::markdown::{blocks_of, broken, markdown_events, parse};
use crate::exports::model::{cells, grid, pieces, runs, Block, Piece, Run, Span};
use crate::text::{
    blank, chars_list, chars_of, decimal, is_blank, is_word, join_texts, joined, lemma_joined_push,
    lemma_prefix_step, lemma_split_push, lemma_split_whitespace, push_all, push_decimal, push_repeated, push_text, repeated,
    split_whitespace, text_of, texts, words_of,
};
use vstd::prelude::*;

verus! {

// ------------------------------------------------------------------ wrapping

/// The lines filled so far, and the one being filled.
pub open spec fn filled(words: Seq<Seq<char>>, columns: nat) -> (Seq<Seq<char>>, Seq<char>)
    decreases words.len(),
{
    if words.len() == 0 {
        (Seq::empty(), Seq::empty())
    } else {
        let (lines, line) = filled(words.drop_last(), columns);
        let word = words.last();
        if line.len() == 0 {
            (lines, word)
        } else if line.len() + 1 + word.len() <= columns {
            (lines, line + " "@ + word)
        } else {
            (lines.push(line), word)
        }
    }
}

/// Words as lines of at most `columns` characters, but for a word longer than
/// that, which has a line of its own. No words at all are one empty line.
pub open spec fn wrapped_words(words: Seq<Seq<char>>, columns: nat) -> Seq<Seq<char>> {
    let (lines, line) = filled(words, columns);
    if line.len() > 0 {
        lines.push(line)
    } else if lines.len() > 0 {
        lines
    } else {
        seq![Seq::empty()]
    }
}

/// A text as lines of at most `columns` characters, broken between words.
pub open spec fn wrapped(text: Seq<char>, columns: nat) -> Seq<Seq<char>> {
    wrapped_words(split_whitespace(text), columns)
}

/// Breaks text into lines of at most `columns` characters, on word boundaries.
pub fn wrap(text: &str, columns: usize) -> (r: Vec<String>)
    ensures
        texts(r@) == wrapped(text@, columns as nat),
{
    let words: Vec<Vec<char>> = words_of(chars_of(text).as_slice());
    let ghost all = chars_list(words@);
    let mut lines: Vec<String> = Vec::new();
    let mut line: Vec<char> = Vec::new();
    let mut i: usize = 0;
    proof {
        reveal_strlit(" ");
    }
    while i < words.len()
        invariant
            i <= words.len(),
            all == chars_list(words@),
            texts(lines@) == filled(all.take(i as int), columns as nat).0,
            line@ == filled(all.take(i as int), columns as nat).1,
            " "@ == seq![' '],
        decreases words.len() - i,
    {
        let word: &Vec<char> = &words[i];
        proof {
            lemma_prefix_step(all, i as int);
        }
        if line.len() == 0 {
            push_all(&mut line, word.as_slice());
            assert(line@ =~= word@);
        } else if word.len() < columns && line.len() <= columns - 1 - word.len() {
            let ghost before = line@;
            line.push(' ');
            push_all(&mut line, word.as_slice());
            assert(line@ =~= before + " "@ + word@);
        } else {
            push_text(&mut lines, text_of(line.as_slice()));
            line = Vec::new();
            push_all(&mut line, word.as_slice());
            assert(line@ =~= word@);
        }
        i += 1;
    }
    assert(all.take(i as int) =~= all);
    assert(texts(lines@).len() == lines@.len());
    if line.len() > 0 {
        push_text(&mut lines, text_of(line.as_slice()));
    } else if lines.len() == 0 {
        let empty: String = String::new();
        assert(empty@ =~= Seq::empty());
        push_text(&mut lines, empty);
        assert(texts(lines@) =~= seq![Seq::empty()]);
    }
    lines
}

proof fn lemma_filled(words: Seq<Seq<char>>, columns: nat)
    requires
        forall|i: int| 0 <= i < words.len() ==> (#[trigger] words[i]).len() > 0,
    ensures
        ({
            let (lines, line) = filled(words, columns);
            &&& words.len() > 0 ==> line.len() > 0
            &&& words.len() == 0 ==> lines.len() == 0 && line.len() == 0
            &&& words.len() > 0 ==> joined(lines.push(line), " "@) == joined(words, " "@)
            &&& line.len() <= columns || words.contains(line)
            &&& forall|i: int|
                0 <= i < lines.len() ==> (#[trigger] lines[i]).len() <= columns || words.contains(
                    lines[i],
                )
        }),
    decreases words.len(),
{
    if words.len() > 0 {
        let front = words.drop_last();
        assert forall|i: int| 0 <= i < front.len() implies (#[trigger] front[i]).len() > 0 by {
            assert(front[i] == words[i]);
        }
        lemma_filled(front, columns);
        let word = words.last();
        let (lines, line) = filled(front, columns);
        assert(words =~= front.push(word));
        assert(words[words.len() - 1] == word);
        assert forall|w: Seq<char>| front.contains(w) implies words.contains(w) by {
            let k = choose|k: int| 0 <= k < front.len() && front[k] == w;
            assert(words[k] == w);
        }
        lemma_joined_push(front, word, " "@);
        lemma_joined_push(lines, line, " "@);
        if front.len() == 0 {
            lemma_joined_push(Seq::empty(), word, " "@);
            assert(lines =~= Seq::empty());
        } else if line.len() + 1 + word.len() <= columns {
            reveal_strlit(" ");
            let longer = line + " "@ + word;
            lemma_joined_push(lines, longer, " "@);
            if lines.len() > 0 {
                assert(joined(lines, " "@) + " "@ + longer =~= joined(lines, " "@) + " "@ + line
                    + " "@ + word);
            }
        } else {
            lemma_joined_push(lines.push(line), word, " "@);
        }
    }
}

/// Wrapping keeps every word, in order: the lines with a space between them are
/// the words with a space between them.
pub proof fn law_wrapping_keeps_every_word(text: Seq<char>, columns: nat)
    ensures
        joined(wrapped(text, columns), " "@) == joined(split_whitespace(text), " "@),
{
    let words = split_whitespace(text);
    lemma_split_whitespace(text);
    assert forall|i: int| 0 <= i < words.len() implies (#[trigger] words[i]).len() > 0 by {
        assert(is_word(words[i]));
    }
    lemma_filled(words, columns);
}

/// A line is never longer than asked for, unless it is a single word that is.
pub proof fn law_only_a_long_word_overruns(text: Seq<char>, columns: nat, i: int)
    requires
        0 <= i < wrapped(text, columns).len(),
    ensures
        wrapped(text, columns)[i].len() <= columns || split_whitespace(text).contains(
            wrapped(text, columns)[i],
        ),
{
    let words = split_whitespace(text);
    lemma_split_whitespace(text);
    assert forall|k: int| 0 <= k < words.len() implies (#[trigger] words[k]).len() > 0 by {
        assert(is_word(words[k]));
    }
    lemma_filled(words, columns);
}

/// Whether a line could not have taken the first word of the next as well.
pub open spec fn is_full(line: Seq<char>, next: Seq<char>, columns: nat) -> bool {
    &&& split_whitespace(next).len() > 0
    &&& line.len() + 1 + split_whitespace(next)[0].len() > columns
}

proof fn lemma_full(words: Seq<Seq<char>>, columns: nat)
    requires
        forall|i: int| 0 <= i < words.len() ==> is_word(#[trigger] words[i]),
    ensures
        ({
            let (lines, line) = filled(words, columns);
            &&& words.len() > 0 ==> line.len() > 0 && split_whitespace(line).len() > 0
            &&& words.len() == 0 ==> lines.len() == 0 && line.len() == 0
            &&& forall|i: int|
                0 <= i < lines.len() ==> is_full(
                    #[trigger] lines[i],
                    lines.push(line)[i + 1],
                    columns,
                )
        }),
    decreases words.len(),
{
    if words.len() > 0 {
        let front = words.drop_last();
        assert forall|i: int| 0 <= i < front.len() implies is_word(#[trigger] front[i]) by {
            assert(front[i] == words[i]);
        }
        lemma_full(front, columns);
        let word = words.last();
        assert(is_word(words[words.len() - 1]));
        let (lines, line) = filled(front, columns);
        let (after, last) = filled(words, columns);
        lemma_split_push(line, word);
        assert forall|i: int| 0 <= i < after.len() implies is_full(
            #[trigger] after[i],
            after.push(last)[i + 1],
            columns,
        ) by {
            if i < lines.len() {
                assert(is_full(lines[i], lines.push(line)[i + 1], columns));
            }
        }
    }
}

/// Each line break is needed: no line has room for the first word of the next.
pub proof fn law_each_line_break_is_needed(text: Seq<char>, columns: nat, i: int)
    requires
        0 <= i < wrapped(text, columns).len() - 1,
    ensures
        is_full(wrapped(text, columns)[i], wrapped(text, columns)[i + 1], columns),
{
    let words = split_whitespace(text);
    lemma_split_whitespace(text);
    lemma_full(words, columns);
    let (lines, line) = filled(words, columns);
    assert(wrapped(text, columns)[i] == lines[i]);
}

// ------------------------------------------------------------------ emphasis

/// A run as text. A strikethrough keeps its marks, because without them it
/// would say the opposite.
pub open spec fn readable_run(run: Run) -> Seq<char> {
    if run.strike && !blank(run.text) {
        "~~"@ + run.text + "~~"@
    } else {
        run.text
    }
}

pub open spec fn readable_text(list: Seq<Run>) -> Seq<char>
    decreases list.len(),
{
    if list.len() == 0 {
        Seq::empty()
    } else {
        readable_text(list.drop_last()) + readable_run(list.last())
    }
}

/// Spans as text, keeping the one mark whose absence would change the meaning.
pub fn readable(list: &[Span]) -> (r: String)
    ensures
        r@ == readable_text(runs(list@)),
{
    let mut out: String = String::new();
    let ghost all = runs(list@);
    let mut i: usize = 0;
    while i < list.len()
        invariant
            i <= list.len(),
            all == runs(list@),
            out@ == readable_text(all.take(i as int)),
        decreases list.len() - i,
    {
        let span: &Span = &list[i];
        let ghost before = out@;
        if span.strike && !is_blank(span.text.as_str()) {
            out.push_str("~~");
            out.push_str(span.text.as_str());
            out.push_str("~~");
        } else {
            out.push_str(span.text.as_str());
        }
        assert(out@ =~= before + readable_run(span@));
        i += 1;
        proof {
            lemma_prefix_step(all, i - 1);
        }
    }
    assert(all.take(i as int) =~= all);
    out
}

// -------------------------------------------------------------------- tables

pub open spec fn longer(a: nat, b: nat) -> nat {
    if a >= b {
        a
    } else {
        b
    }
}

/// The most cells any of the rows has.
pub open spec fn widest_row(rows: Seq<Seq<Seq<Run>>>) -> nat
    decreases rows.len(),
{
    if rows.len() == 0 {
        0
    } else {
        longer(widest_row(rows.drop_last()), rows.last().len())
    }
}

/// How many columns a table has.
pub open spec fn column_count(head: Seq<Seq<Run>>, rows: Seq<Seq<Seq<Run>>>) -> nat {
    longer(head.len(), widest_row(rows))
}

/// The text of a cell, with the marks that keep its meaning; a row may end before
/// its last column.
pub open spec fn cell_text(row: Seq<Seq<Run>>, at: int) -> Seq<char> {
    if 0 <= at < row.len() {
        readable_text(row[at])
    } else {
        Seq::empty()
    }
}

/// The longest text any of the rows has in a column.
pub open spec fn widest_cell(rows: Seq<Seq<Seq<Run>>>, at: int) -> nat
    decreases rows.len(),
{
    if rows.len() == 0 {
        0
    } else {
        longer(widest_cell(rows.drop_last(), at), cell_text(rows.last(), at).len())
    }
}

/// How wide each column is: as wide as its widest cell.
pub open spec fn column_widths(head: Seq<Seq<Run>>, rows: Seq<Seq<Seq<Run>>>) -> Seq<nat> {
    Seq::new(
        column_count(head, rows),
        |at: int| longer(cell_text(head, at).len(), widest_cell(rows, at)),
    )
}

/// The first columns of a row, each padded to its width but for the last one of
/// the table.
pub open spec fn row_cells(row: Seq<Seq<Run>>, widths: Seq<nat>, upto: nat) -> Seq<char>
    decreases upto,
{
    if upto == 0 {
        Seq::empty()
    } else {
        let at = upto - 1;
        let text = cell_text(row, at);
        let before = row_cells(row, widths, at as nat) + text;
        if upto < widths.len() {
            let pad = if widths[at] >= text.len() {
                (widths[at] - text.len()) as nat
            } else {
                0
            };
            before + repeated(' ', pad) + "  "@
        } else {
            before
        }
    }
}

pub open spec fn row_line(row: Seq<Seq<Run>>, widths: Seq<nat>) -> Seq<char> {
    "  "@ + row_cells(row, widths, widths.len()) + "\n"@
}

pub open spec fn row_lines(rows: Seq<Seq<Seq<Run>>>, widths: Seq<nat>) -> Seq<char>
    decreases rows.len(),
{
    if rows.len() == 0 {
        Seq::empty()
    } else {
        row_lines(rows.drop_last(), widths) + row_line(rows.last(), widths)
    }
}

/// A table drawn with spaces, its head underlined.
pub open spec fn table_text(head: Seq<Seq<Run>>, rows: Seq<Seq<Seq<Run>>>) -> Seq<char> {
    let widths = column_widths(head, rows);
    let underline = joined(widths.map_values(|w: nat| repeated('-', w)), "  "@);
    if widths.len() == 0 {
        Seq::empty()
    } else if head.len() == 0 {
        row_lines(rows, widths)
    } else {
        row_line(head, widths) + "  "@ + underline + "\n"@ + row_lines(rows, widths)
    }
}

/// How many columns a table has.
pub fn count_columns(head: &[Vec<Span>], rows: &[Vec<Vec<Span>>]) -> (r: usize)
    ensures
        r == column_count(cells(head@), grid(rows@)),
{
    let ghost all = grid(rows@);
    let mut most: usize = 0;
    let mut i: usize = 0;
    while i < rows.len()
        invariant
            i <= rows.len(),
            all == grid(rows@),
            most == widest_row(all.take(i as int)),
        decreases rows.len() - i,
    {
        assert(all[i as int].len() == rows@[i as int]@.len());
        if rows[i].len() > most {
            most = rows[i].len();
        }
        i += 1;
        proof {
            lemma_prefix_step(all, i - 1);
        }
    }
    assert(all.take(i as int) =~= all);
    assert(cells(head@).len() == head@.len());
    if head.len() >= most {
        head.len()
    } else {
        most
    }
}

fn cell(row: &[Vec<Span>], at: usize) -> (r: String)
    ensures
        r@ == cell_text(cells(row@), at as int),
{
    assert(cells(row@).len() == row@.len());
    if at < row.len() {
        readable(row[at].as_slice())
    } else {
        let empty: String = String::new();
        assert(empty@ =~= Seq::empty());
        empty
    }
}

fn count_chars(text: &str) -> (r: usize)
    ensures
        r == text@.len(),
{
    chars_of(text).len()
}

fn measure_column(head: &[Vec<Span>], rows: &[Vec<Vec<Span>>], at: usize) -> (r: usize)
    ensures
        r == longer(
            cell_text(cells(head@), at as int).len(),
            widest_cell(grid(rows@), at as int),
        ),
{
    let ghost all = grid(rows@);
    let mut widest: usize = 0;
    let mut i: usize = 0;
    while i < rows.len()
        invariant
            i <= rows.len(),
            all == grid(rows@),
            widest == widest_cell(all.take(i as int), at as int),
        decreases rows.len() - i,
    {
        assert(all[i as int] == cells(rows@[i as int]@));
        let here: usize = count_chars(cell(rows[i].as_slice(), at).as_str());
        if here > widest {
            widest = here;
        }
        i += 1;
        proof {
            lemma_prefix_step(all, i - 1);
        }
    }
    assert(all.take(i as int) =~= all);
    let first: usize = count_chars(cell(head, at).as_str());
    if first >= widest {
        first
    } else {
        widest
    }
}

spec fn as_nats(widths: Seq<usize>) -> Seq<nat> {
    widths.map_values(|w: usize| w as nat)
}

fn push_row(out: &mut String, row: &[Vec<Span>], widths: &[usize])
    ensures
        final(out)@ == old(out)@ + row_line(cells(row@), as_nats(widths@)),
{
    let ghost wide = as_nats(widths@);
    let ghost shown = cells(row@);
    out.push_str("  ");
    let mut at: usize = 0;
    assert(out@ =~= old(out)@ + "  "@ + row_cells(shown, wide, 0));
    while at < widths.len()
        invariant
            at <= widths.len(),
            wide == as_nats(widths@),
            shown == cells(row@),
            out@ == old(out)@ + "  "@ + row_cells(shown, wide, at as nat),
        decreases widths.len() - at,
    {
        let text: String = cell(row, at);
        let ghost before = row_cells(shown, wide, at as nat);
        out.push_str(text.as_str());
        if at + 1 < widths.len() {
            let used: usize = count_chars(text.as_str());
            let pad: usize = if widths[at] >= used {
                widths[at] - used
            } else {
                0
            };
            assert(wide[at as int] == widths@[at as int]);
            push_repeated(out, ' ', pad);
            out.push_str("  ");
            assert(out@ =~= old(out)@ + "  "@ + (before + text@ + repeated(' ', pad as nat) + "  "@));
        } else {
            assert(out@ =~= old(out)@ + "  "@ + (before + text@));
        }
        at += 1;
    }
    out.push_str("\n");
    assert(out@ =~= old(out)@ + row_line(shown, wide));
}

/// A table drawn with spaces, columns sized to their widest cell.
pub fn table_as_text(head: &[Vec<Span>], rows: &[Vec<Vec<Span>>]) -> (r: String)
    ensures
        r@ == table_text(cells(head@), grid(rows@)),
{
    let ghost top = cells(head@);
    let ghost all = grid(rows@);
    let ghost wanted = column_widths(top, all);
    let columns: usize = count_columns(head, rows);
    let mut out: String = String::new();
    if columns == 0 {
        assert(out@ =~= Seq::empty());
        return out;
    }
    let mut widths: Vec<usize> = Vec::new();
    let mut at: usize = 0;
    while at < columns
        invariant
            at <= columns,
            top == cells(head@),
            all == grid(rows@),
            wanted == column_widths(top, all),
            columns == wanted.len(),
            widths.len() == at,
            forall|k: int| 0 <= k < at ==> #[trigger] widths@[k] == wanted[k],
        decreases columns - at,
    {
        widths.push(measure_column(head, rows, at));
        at += 1;
    }
    assert(as_nats(widths@) =~= wanted);
    assert(top.len() == head@.len());
    if head.len() > 0 {
        push_row(&mut out, head, widths.as_slice());
        out.push_str("  ");
        let ghost before = out@;
        let ghost dashes = wanted.map_values(|w: nat| repeated('-', w));
        let mut k: usize = 0;
        assert(before + joined(dashes.take(0), "  "@) =~= before);
        while k < widths.len()
            invariant
                k <= widths.len(),
                as_nats(widths@) == wanted,
                dashes == wanted.map_values(|w: nat| repeated('-', w)),
                out@ == before + joined(dashes.take(k as int), "  "@),
            decreases widths.len() - k,
        {
            if k > 0 {
                out.push_str("  ");
            }
            assert(wanted[k as int] == widths@[k as int]);
            push_repeated(&mut out, '-', widths[k]);
            k += 1;
            proof {
                lemma_prefix_step(dashes, k - 1);
                assert(dashes[k - 1] == repeated('-', widths@[k - 1] as nat));
                if k > 1 {
                    assert(out@ =~= before + (joined(dashes.take(k - 1), "  "@) + "  "@ + dashes[k
                        - 1]));
                } else {
                    assert(out@ =~= before + dashes[0]);
                }
            }
        }
        assert(dashes.take(k as int) =~= dashes);
        out.push_str("\n");
        assert(out@ =~= row_line(top, wanted) + "  "@ + joined(dashes, "  "@) + "\n"@);
    }
    let ghost before = out@;
    let mut i: usize = 0;
    assert(out@ =~= before + row_lines(all.take(0), wanted));
    while i < rows.len()
        invariant
            i <= rows.len(),
            all == grid(rows@),
            as_nats(widths@) == wanted,
            out@ == before + row_lines(all.take(i as int), wanted),
        decreases rows.len() - i,
    {
        assert(all[i as int] == cells(rows@[i as int]@));
        push_row(&mut out, rows[i].as_slice(), widths.as_slice());
        i += 1;
        proof {
            lemma_prefix_step(all, i - 1);
            assert(out@ =~= before + (row_lines(all.take(i - 1), wanted) + row_line(
                all[i - 1],
                wanted,
            )));
        }
    }
    assert(all.take(i as int) =~= all);
    if head.len() == 0 {
        assert(out@ =~= row_lines(all, wanted));
    }
    out
}

// ------------------------------------------------------------------ document

pub open spec fn quoted_lines(lines: Seq<Seq<char>>) -> Seq<char>
    decreases lines.len(),
{
    if lines.len() == 0 {
        Seq::empty()
    } else {
        quoted_lines(lines.drop_last()) + "  > "@ + lines.last() + "\n"@
    }
}

/// One block as plain text.
pub open spec fn block_text(block: Piece) -> Seq<char> {
    match block {
        Piece::Heading { level, text } => {
            let words = readable_text(text);
            let rule = if level <= 2 {
                '-'
            } else {
                '.'
            };
            words + "\n"@ + repeated(rule, words.len()) + "\n\n"@
        },
        Piece::Paragraph(text) => readable_text(text) + "\n\n"@,
        Piece::Bullet { depth, text } => repeated(' ', 4 * depth as nat) + (if depth == 0 {
            "  \u{2022} "@
        } else {
            "  \u{2013} "@
        }) + readable_text(text) + "\n"@,
        Piece::Numbered { depth, number, text } => repeated(' ', 4 * depth as nat) + "  "@
            + decimal(number as nat) + ". "@ + readable_text(text) + "\n"@,
        Piece::Quote(text) => quoted_lines(wrapped(readable_text(text), 70)) + "\n"@,
        Piece::Table { head, rows } => table_text(head, rows) + "\n"@,
        Piece::Rule => "  ----------------------------------------\n\n"@,
    }
}

pub open spec fn is_item(block: Piece) -> bool {
    block is Bullet || block is Numbered
}

pub open spec fn ends_in_list(blocks: Seq<Piece>) -> bool {
    blocks.len() > 0 && is_item(blocks.last())
}

/// Blocks as plain text, a list closed by a blank line when something else
/// follows it.
pub open spec fn blocks_text(blocks: Seq<Piece>) -> Seq<char>
    decreases blocks.len(),
{
    if blocks.len() == 0 {
        Seq::empty()
    } else {
        let front = blocks.drop_last();
        let gap = if ends_in_list(front) && !is_item(blocks.last()) {
            "\n"@
        } else {
            Seq::empty()
        };
        blocks_text(front) + gap + block_text(blocks.last())
    }
}

pub open spec fn title_text(title: Seq<char>) -> Seq<char> {
    if title.len() == 0 {
        Seq::empty()
    } else {
        title + "\n"@ + repeated('=', title.len()) + "\n\n"@
    }
}

pub open spec fn topics_text(topics: Seq<Seq<char>>) -> Seq<char> {
    if topics.len() == 0 {
        Seq::empty()
    } else {
        "Subjects: "@ + joined(topics, ", "@) + "\n"@
    }
}

/// The whole document: the title underlined, the blocks, the subjects.
pub open spec fn text_document(
    title: Seq<char>,
    blocks: Seq<Piece>,
    topics: Seq<Seq<char>>,
) -> Seq<char> {
    title_text(title) + blocks_text(blocks) + (if ends_in_list(blocks) {
        "\n"@
    } else {
        Seq::empty()
    }) + topics_text(topics)
}

fn push_quote(out: &mut String, text: &[Span])
    ensures
        final(out)@ == old(out)@ + block_text(Piece::Quote(runs(text@))),
{
    let lines: Vec<String> = wrap(readable(text).as_str(), 70);
    let ghost all = texts(lines@);
    let mut i: usize = 0;
    assert(out@ =~= old(out)@ + quoted_lines(all.take(0)));
    while i < lines.len()
        invariant
            i <= lines.len(),
            all == texts(lines@),
            out@ == old(out)@ + quoted_lines(all.take(i as int)),
        decreases lines.len() - i,
    {
        out.push_str("  > ");
        out.push_str(lines[i].as_str());
        out.push_str("\n");
        i += 1;
        proof {
            lemma_prefix_step(all, i - 1);
            assert(out@ =~= old(out)@ + (quoted_lines(all.take(i - 1)) + "  > "@ + all[i - 1]
                + "\n"@));
        }
    }
    assert(all.take(i as int) =~= all);
    out.push_str("\n");
    assert(out@ =~= old(out)@ + (quoted_lines(all) + "\n"@));
}

fn push_block_text(out: &mut String, block: &Block)
    ensures
        final(out)@ == old(out)@ + block_text(block@),
{
    match block {
        Block::Heading { level, text } => {
            let words: String = readable(text.as_slice());
            out.push_str(words.as_str());
            out.push_str("\n");
            let rule: char = if *level <= 2 {
                '-'
            } else {
                '.'
            };
            push_repeated(out, rule, count_chars(words.as_str()));
            out.push_str("\n\n");
        },
        Block::Paragraph(text) => {
            out.push_str(readable(text.as_slice()).as_str());
            out.push_str("\n\n");
        },
        Block::Bullet { depth, text } => {
            push_repeated(out, ' ', 4 * (*depth as usize));
            if *depth == 0 {
                out.push_str("  \u{2022} ");
            } else {
                out.push_str("  \u{2013} ");
            }
            out.push_str(readable(text.as_slice()).as_str());
            out.push_str("\n");
        },
        Block::Numbered { depth, number, text } => {
            push_repeated(out, ' ', 4 * (*depth as usize));
            out.push_str("  ");
            push_decimal(out, *number as u64);
            out.push_str(". ");
            out.push_str(readable(text.as_slice()).as_str());
            out.push_str("\n");
        },
        Block::Quote(text) => {
            push_quote(out, text.as_slice());
        },
        Block::Table { head, rows } => {
            out.push_str(table_as_text(head.as_slice(), rows.as_slice()).as_str());
            out.push_str("\n");
        },
        Block::Rule => {
            out.push_str("  ----------------------------------------\n\n");
        },
    }
    assert(out@ =~= old(out)@ + block_text(block@));
}

/// A document as plain text, from its blocks.
pub fn write_text(title: &str, blocks: &[Block], topics: &[String]) -> (r: String)
    ensures
        r@ == text_document(title@, pieces(blocks@), texts(topics@)),
{
    let mut out: String = String::new();
    if !title.is_empty() {
        out.push_str(title);
        out.push_str("\n");
        push_repeated(&mut out, '=', count_chars(title));
        out.push_str("\n\n");
    }
    assert(out@ =~= title_text(title@));
    let ghost all = pieces(blocks@);
    let mut in_list: bool = false;
    let mut i: usize = 0;
    assert(out@ =~= title_text(title@) + blocks_text(all.take(0)));
    while i < blocks.len()
        invariant
            i <= blocks.len(),
            all == pieces(blocks@),
            in_list == ends_in_list(all.take(i as int)),
            out@ == title_text(title@) + blocks_text(all.take(i as int)),
        decreases blocks.len() - i,
    {
        let listish: bool = match &blocks[i] {
            Block::Bullet { .. } => true,
            Block::Numbered { .. } => true,
            _ => false,
        };
        let ghost before = out@;
        assert(all[i as int] == blocks@[i as int]@);
        if in_list && !listish {
            out.push_str("\n");
        }
        push_block_text(&mut out, &blocks[i]);
        in_list = listish;
        i += 1;
        proof {
            lemma_prefix_step(all, i - 1);
            assert(out@ =~= title_text(title@) + blocks_text(all.take(i as int)));
        }
    }
    assert(all.take(i as int) =~= all);
    if in_list {
        out.push_str("\n");
    }
    assert(texts(topics@).len() == topics@.len());
    if topics.len() > 0 {
        out.push_str("Subjects: ");
        out.push_str(join_texts(topics, ", ").as_str());
        out.push_str("\n");
    }
    assert(out@ =~= text_document(title@, all, texts(topics@)));
    out
}

/// The whole thing as plain text.
pub fn to_text(title: &str, markdown: &str, topics: &[String]) -> (r: String)
    ensures
        r@ == text_document(
            title@,
            blocks_of(markdown_events(broken(markdown@))),
            texts(topics@),
        ),
{
    write_text(title, parse(markdown).as_slice(), topics)
}

} // verus!
