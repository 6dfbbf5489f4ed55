//! That the pages show the document: what is drawn on them, but for the gaps.

use crate::exports::model::{plain_run, plain_text, Piece, Run};
use crate::exports::page::{
    block_steps, blocks_steps, cell_width, columns, document_title, italic_runs, nothing_filled,
    page_steps, put_all, spaced, subject_steps, title_steps, word_run, Drawn, Word,
};
use crate::text::{decimal, joined, lemma_joined_push};
use vstd::prelude::*;

verus! {

/// What is drawn, without the gaps between.
pub open spec fn without_gaps(steps: Seq<Drawn>) -> Seq<Drawn>
    decreases steps.len(),
{
    if steps.len() == 0 {
        Seq::empty()
    } else if steps.last() is Gap {
        without_gaps(steps.drop_last())
    } else {
        without_gaps(steps.drop_last()).push(steps.last())
    }
}

/// How much is left empty in all, in tenths of a millimetre.
pub open spec fn gaps(steps: Seq<Drawn>) -> nat
    decreases steps.len(),
{
    if steps.len() == 0 {
        0
    } else {
        gaps(steps.drop_last()) + match steps.last() {
            Drawn::Gap(tenths) => tenths as nat,
            _ => 0,
        }
    }
}

proof fn lemma_append(a: Seq<Drawn>, b: Seq<Drawn>)
    ensures
        without_gaps(a + b) == without_gaps(a) + without_gaps(b),
        gaps(a + b) == gaps(a) + gaps(b),
    decreases b.len(),
{
    if b.len() == 0 {
        assert(a + b =~= a);
        assert(without_gaps(a) + without_gaps(b) =~= without_gaps(a));
    } else {
        lemma_append(a, b.drop_last());
        assert((a + b).drop_last() =~= a + b.drop_last());
        assert(without_gaps(a + b) =~= without_gaps(a) + without_gaps(b));
    }
}

/// Runs in italics throughout.
pub open spec fn all_italic(list: Seq<Run>) -> Seq<Run>
    decreases list.len(),
{
    if list.len() == 0 {
        Seq::empty()
    } else {
        all_italic(list.drop_last()).push(Run { italic: true, ..list.last() })
    }
}

/// What a block is on a page: a heading in bold, larger for the upper two levels;
/// body text; an item further in for each level, behind its bullet or its number; a
/// quotation in italics; a table; a line across.
pub open spec fn block_on_page(block: Piece) -> Drawn {
    match block {
        Piece::Heading { level, text } => Drawn::Lines {
            text,
            size: if level <= 2 {
                14
            } else {
                12
            },
            indent: 0,
            bold: true,
            quoted: false,
        },
        Piece::Paragraph(text) => Drawn::Lines {
            text,
            size: 11,
            indent: 0,
            bold: false,
            quoted: false,
        },
        Piece::Bullet { depth, text } => Drawn::Lines {
            text: seq![
                plain_run(
                    seq![
                        if depth == 0 {
                            '\u{2022}'
                        } else {
                            '\u{2013}'
                        },
                        ' ',
                        ' ',
                    ],
                ),
            ] + text,
            size: 11,
            indent: (5 + 6 * depth) as u32,
            bold: false,
            quoted: false,
        },
        Piece::Numbered { depth, number, text } => Drawn::Lines {
            text: seq![
                Run { bold: true, ..plain_run(decimal(number as nat) + seq!['.', ' ', ' ']) },
            ] + text,
            size: 11,
            indent: (5 + 6 * depth) as u32,
            bold: false,
            quoted: false,
        },
        Piece::Quote(text) => Drawn::Lines {
            text: all_italic(text),
            size: 11,
            indent: 8,
            bold: false,
            quoted: true,
        },
        Piece::Table { head, rows } => Drawn::Table { head, rows },
        Piece::Rule => Drawn::Rule,
    }
}

proof fn lemma_italic(list: Seq<Run>)
    ensures
        italic_runs(list) == all_italic(list),
    decreases list.len(),
{
    let all = italic_runs(list);
    if list.len() == 0 {
        assert(all =~= Seq::empty());
    } else {
        lemma_italic(list.drop_last());
        assert(all =~= italic_runs(list.drop_last()).push(
            Run { italic: true, ..list.last() },
        ));
    }
}

proof fn lemma_two(a: Drawn, b: Drawn)
    requires
        a !is Gap,
        b is Gap,
    ensures
        without_gaps(seq![a, b]) == seq![a],
        gaps(seq![a, b]) == b->Gap_0,
{
    assert(seq![a, b].drop_last() =~= seq![a]);
    assert(seq![a].drop_last() =~= Seq::empty());
    assert(without_gaps(Seq::<Drawn>::empty()) =~= Seq::empty());
    assert(gaps(Seq::<Drawn>::empty()) == 0);
    assert(without_gaps(seq![a]) =~= seq![a]);
    assert(gaps(seq![a]) == 0);
}

proof fn lemma_three(a: Drawn, b: Drawn, c: Drawn)
    requires
        a is Gap,
        b !is Gap,
        c is Gap,
    ensures
        without_gaps(seq![a, b, c]) == seq![b],
        gaps(seq![a, b, c]) == a->Gap_0 + c->Gap_0,
{
    lemma_two(b, c);
    assert(seq![a].drop_last() =~= Seq::empty());
    assert(without_gaps(Seq::<Drawn>::empty()) =~= Seq::empty());
    assert(gaps(Seq::<Drawn>::empty()) == 0);
    assert(without_gaps(seq![a]) =~= Seq::empty());
    lemma_append(seq![a], seq![b, c]);
    assert(seq![a] + seq![b, c] =~= seq![a, b, c]);
    assert(Seq::<Drawn>::empty() + seq![b] =~= seq![b]);
}

proof fn lemma_block(block: Piece)
    ensures
        without_gaps(block_steps(block)) == seq![block_on_page(block)],
        gaps(block_steps(block)) > 0,
{
    reveal_strlit("\u{2022}  ");
    reveal_strlit("\u{2013}  ");
    reveal_strlit(".  ");
    assert("\u{2022}  "@ =~= seq!['\u{2022}', ' ', ' ']);
    assert("\u{2013}  "@ =~= seq!['\u{2013}', ' ', ' ']);
    assert(".  "@ =~= seq!['.', ' ', ' ']);
    let steps = block_steps(block);
    if let Piece::Quote(text) = block {
        lemma_italic(text);
    }
    if block is Paragraph || block is Bullet || block is Numbered {
        lemma_two(steps[0], steps[1]);
        assert(steps =~= seq![steps[0], steps[1]]);
    } else {
        lemma_three(steps[0], steps[1], steps[2]);
        assert(steps =~= seq![steps[0], steps[1], steps[2]]);
    }
}

pub open spec fn blocks_on_page(blocks: Seq<Piece>) -> Seq<Drawn> {
    blocks.map_values(|block: Piece| block_on_page(block))
}

proof fn lemma_blocks(blocks: Seq<Piece>)
    ensures
        without_gaps(blocks_steps(blocks)) == blocks_on_page(blocks),
        gaps(blocks_steps(blocks)) >= blocks.len(),
    decreases blocks.len(),
{
    if blocks.len() == 0 {
        assert(blocks_on_page(blocks) =~= Seq::empty());
    } else {
        lemma_blocks(blocks.drop_last());
        lemma_block(blocks.last());
        lemma_append(blocks_steps(blocks.drop_last()), block_steps(blocks.last()));
        assert(blocks_on_page(blocks) =~= blocks_on_page(blocks.drop_last()) + seq![
            block_on_page(blocks.last()),
        ]);
    }
}

/// The pages show the document: but for gaps, what is drawn is the title in large
/// bold letters, where there is one, each block once and in order, and the subjects
/// under a heading of their own, where there are any. Blocks stand apart: there is
/// space left for each.
pub proof fn law_pages_show_the_document(
    title: Seq<char>,
    blocks: Seq<Piece>,
    topics: Seq<Seq<char>>,
)
    ensures
        without_gaps(page_steps(title, blocks, topics)) == (if title.len() > 0 {
            seq![
                Drawn::Lines {
                    text: seq![plain_run(title)],
                    size: 20,
                    indent: 0,
                    bold: true,
                    quoted: false,
                },
            ]
        } else {
            Seq::empty()
        }) + blocks_on_page(blocks) + (if topics.len() > 0 {
            seq![
                Drawn::Lines {
                    text: seq![plain_run("Subjects"@)],
                    size: 14,
                    indent: 0,
                    bold: true,
                    quoted: false,
                },
                Drawn::Lines {
                    text: seq![plain_run(joined(topics, ",  "@))],
                    size: 11,
                    indent: 0,
                    bold: false,
                    quoted: false,
                },
            ]
        } else {
            Seq::empty()
        }),
        gaps(page_steps(title, blocks, topics)) >= blocks.len(),
{
    lemma_blocks(blocks);
    let a = title_steps(title);
    let b = blocks_steps(blocks);
    let c = subject_steps(topics);
    lemma_append(a, b);
    lemma_append(a + b, c);
    assert(without_gaps(Seq::<Drawn>::empty()) =~= Seq::empty());
    if title.len() > 0 {
        lemma_two(a[0], a[1]);
        assert(a =~= seq![a[0], a[1]]);
    }
    if topics.len() > 0 {
        lemma_three(c[0], c[1], c[2]);
        let front = seq![c[0], c[1], c[2]];
        assert(c.drop_last() =~= front);
        assert(without_gaps(c) =~= seq![c[1], c[3]]);
    }
}

/// No column is wider than it needs to be: each is as wide as one of its own cells,
/// or has none.
pub proof fn law_no_column_is_wider_than_its_widest_cell(
    head: Seq<Seq<Run>>,
    rows: Seq<Seq<Seq<Run>>>,
    at: int,
)
    requires
        0 <= at < columns(head, rows).len(),
    ensures
        columns(head, rows)[at] == 0 || columns(head, rows)[at] == cell_width(head, at, true)
            || exists|i: int|
            0 <= i < rows.len() && columns(head, rows)[at] == cell_width(
                #[trigger] rows[i],
                at,
                false,
            ),
    decreases rows.len(),
{
    if rows.len() > 0 {
        let front = rows.drop_last();
        let width = columns(head, rows)[at];
        if width == cell_width(rows.last(), at, false) {
            assert(width == cell_width(rows[rows.len() - 1], at, false));
        } else if at < columns(head, front).len() {
            law_no_column_is_wider_than_its_widest_cell(head, front, at);
            if width != 0 && width != cell_width(head, at, true) {
                let i = choose|i: int|
                    0 <= i < front.len() && columns(head, front)[at] == cell_width(
                        #[trigger] front[i],
                        at,
                        false,
                    );
                assert(rows[i] == front[i]);
            }
        }
    }
}

/// The texts of some words.
pub open spec fn word_texts(words: Seq<Word>) -> Seq<Seq<char>> {
    words.map_values(|word: Word| word.text)
}

/// Words that fit stay on one line, one space between each and the next, whatever
/// emphasis they are drawn in.
pub proof fn law_words_on_a_line_are_a_space_apart(words: Seq<Word>, overruns: Seq<bool>)
    requires
        words.len() > 0,
        overruns.len() >= words.len(),
        forall|i: int| 0 <= i < words.len() ==> !#[trigger] overruns[i],
    ensures
        put_all(words, overruns).lines.len() == 0,
        put_all(words, overruns).line.len() > 0,
        plain_text(put_all(words, overruns).line) == joined(word_texts(words), seq![' ']),
    decreases words.len(),
{
    reveal_strlit(" ");
    assert(" "@ =~= seq![' ']);
    let front = words.drop_last();
    let last = words.last();
    let filled = put_all(words, overruns);
    assert(!overruns[words.len() - 1]);
    assert(word_texts(words) =~= word_texts(front).push(last.text));
    lemma_joined_push(word_texts(front), last.text, seq![' ']);
    if front.len() == 0 {
        assert(put_all(front, overruns) == nothing_filled());
        let none = Seq::<Run>::empty();
        assert(filled.line =~= seq![word_run(last.text, last)]);
        assert(filled.line.drop_last() =~= none);
        assert(plain_text(none).len() == 0);
        assert(plain_text(filled.line) =~= last.text);
    } else {
        law_words_on_a_line_are_a_space_apart(front, overruns);
        let before = put_all(front, overruns);
        let text = spaced(before.line, last.text);
        if before.line.last().bold == last.bold && before.line.last().italic == last.italic
            && before.line.last().strike == last.strike {
            assert(filled.line.drop_last() =~= before.line.drop_last());
        } else {
            assert(filled.line.drop_last() =~= before.line);
        }
        assert(plain_text(filled.line) =~= plain_text(before.line) + seq![' '] + last.text);
    }
}

/// A file is called by the title of what is in it, where that has one.
pub proof fn law_a_file_is_called_by_its_title(title: Seq<char>)
    ensures
        title.len() > 0 ==> document_title(title) == title,
        title.len() == 0 ==> document_title(title) == "Summary"@,
{
}

} // verus!
