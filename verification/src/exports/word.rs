//! The export as a Word file.
//!
//! A .docx is a zip holding the content types, a relationship pointing at the
//! document, a stylesheet and the document itself.

use crate::exports::markdown::{blocks_of, broken, markdown_events, parse};
use crate::exports::model::{
    cells, grid, only, pieces, plain_run, push_span, runs, Block, Piece, Run, Span,
};
use crate::exports::plain_text::{column_count, count_columns};
use crate::text::{
    chars_of, decimal, join_texts, joined, lemma_prefix_step, push_decimal, texts,
};
use std::io::{Cursor, Write};
use vstd::prelude::*;
use zip::write::FileOptions;
use zip::{CompressionMethod, ZipWriter};

verus! {

pub const CONTENT_TYPES: &'static str = "<?xml version=\"1.0\" encoding=\"UTF-8\" standalone=\"yes\"?>\n<Types xmlns=\"http://schemas.openxmlformats.org/package/2006/content-types\">\n<Default Extension=\"rels\" ContentType=\"application/vnd.openxmlformats-package.relationships+xml\"/>\n<Default Extension=\"xml\" ContentType=\"application/xml\"/>\n<Override PartName=\"/word/document.xml\" ContentType=\"application/vnd.openxmlformats-officedocument.wordprocessingml.document.main+xml\"/>\n<Override PartName=\"/word/styles.xml\" ContentType=\"application/vnd.openxmlformats-officedocument.wordprocessingml.styles+xml\"/>\n</Types>";

pub const RELS: &'static str = "<?xml version=\"1.0\" encoding=\"UTF-8\" standalone=\"yes\"?>\n<Relationships xmlns=\"http://schemas.openxmlformats.org/package/2006/relationships\">\n<Relationship Id=\"rId1\" Type=\"http://schemas.openxmlformats.org/officeDocument/2006/relationships/officeDocument\" Target=\"word/document.xml\"/>\n</Relationships>";

pub const DOCUMENT_RELS: &'static str = "<?xml version=\"1.0\" encoding=\"UTF-8\" standalone=\"yes\"?>\n<Relationships xmlns=\"http://schemas.openxmlformats.org/package/2006/relationships\">\n<Relationship Id=\"rId1\" Type=\"http://schemas.openxmlformats.org/officeDocument/2006/relationships/styles\" Target=\"styles.xml\"/>\n</Relationships>";

/// The styles the document refers to, named so that whoever edits the summary
/// can restyle the whole of it at once.
pub const DOCX_STYLES: &'static str = "<?xml version=\"1.0\" encoding=\"UTF-8\" standalone=\"yes\"?>\n<w:styles xmlns:w=\"http://schemas.openxmlformats.org/wordprocessingml/2006/main\">\n<w:docDefaults><w:rPrDefault><w:rPr>\n  <w:rFonts w:ascii=\"Calibri\" w:hAnsi=\"Calibri\"/><w:sz w:val=\"22\"/>\n</w:rPr></w:rPrDefault></w:docDefaults>\n<w:style w:type=\"paragraph\" w:styleId=\"Normal\" w:default=\"1\"><w:name w:val=\"Normal\"/>\n  <w:pPr><w:spacing w:after=\"140\" w:line=\"276\" w:lineRule=\"auto\"/></w:pPr></w:style>\n<w:style w:type=\"paragraph\" w:styleId=\"Title\"><w:name w:val=\"Title\"/>\n  <w:pPr><w:spacing w:after=\"240\"/></w:pPr>\n  <w:rPr><w:sz w:val=\"56\"/><w:b/><w:color w:val=\"1F2328\"/></w:rPr></w:style>\n<w:style w:type=\"paragraph\" w:styleId=\"Heading1\"><w:name w:val=\"heading 1\"/>\n  <w:pPr><w:spacing w:before=\"320\" w:after=\"120\"/><w:outlineLvl w:val=\"0\"/></w:pPr>\n  <w:rPr><w:sz w:val=\"32\"/><w:b/><w:color w:val=\"1F2328\"/></w:rPr></w:style>\n<w:style w:type=\"paragraph\" w:styleId=\"Heading2\"><w:name w:val=\"heading 2\"/>\n  <w:pPr><w:spacing w:before=\"280\" w:after=\"100\"/><w:outlineLvl w:val=\"1\"/></w:pPr>\n  <w:rPr><w:sz w:val=\"26\"/><w:b/><w:color w:val=\"44546A\"/></w:rPr></w:style>\n<w:style w:type=\"paragraph\" w:styleId=\"Heading3\"><w:name w:val=\"heading 3\"/>\n  <w:pPr><w:spacing w:before=\"240\" w:after=\"80\"/><w:outlineLvl w:val=\"2\"/></w:pPr>\n  <w:rPr><w:sz w:val=\"24\"/><w:b/><w:i/><w:color w:val=\"44546A\"/></w:rPr></w:style>\n<w:style w:type=\"paragraph\" w:styleId=\"Quote\"><w:name w:val=\"Quote\"/>\n  <w:pPr><w:spacing w:before=\"120\" w:after=\"160\"/>\n    <w:pBdr><w:left w:val=\"single\" w:sz=\"18\" w:space=\"10\" w:color=\"C8CDD4\"/></w:pBdr></w:pPr>\n  <w:rPr><w:i/><w:color w:val=\"44546A\"/></w:rPr></w:style>\n</w:styles>";

pub const DOCUMENT_OPEN: &'static str = "<?xml version=\"1.0\" encoding=\"UTF-8\" standalone=\"yes\"?>\n<w:document xmlns:w=\"http://schemas.openxmlformats.org/wordprocessingml/2006/main\">\n<w:body>";

pub const DOCUMENT_CLOSE: &'static str = "<w:sectPr/></w:body></w:document>";

pub const TABLE_OPEN: &'static str = "<w:tbl><w:tblPr><w:tblStyle w:val=\"TableGrid\"/><w:tblW w:w=\"0\" w:type=\"auto\"/>\n<w:tblBorders>\n<w:top w:val=\"single\" w:sz=\"4\" w:color=\"C8CDD4\"/><w:left w:val=\"single\" w:sz=\"4\" w:color=\"C8CDD4\"/>\n<w:bottom w:val=\"single\" w:sz=\"4\" w:color=\"C8CDD4\"/><w:right w:val=\"single\" w:sz=\"4\" w:color=\"C8CDD4\"/>\n<w:insideH w:val=\"single\" w:sz=\"4\" w:color=\"C8CDD4\"/><w:insideV w:val=\"single\" w:sz=\"4\" w:color=\"C8CDD4\"/>\n</w:tblBorders></w:tblPr>";

/// A paragraph whose only content is a bottom border.
pub const RULE: &'static str = "<w:p><w:pPr><w:pBdr><w:bottom w:val=\"single\" w:sz=\"6\" w:space=\"1\" w:color=\"BFBFBF\"/></w:pBdr></w:pPr></w:p>";

// ------------------------------------------------------------------ escaping

pub open spec fn escaped_char(c: char) -> Seq<char> {
    if c == '&' {
        "&amp;"@
    } else if c == '<' {
        "&lt;"@
    } else if c == '>' {
        "&gt;"@
    } else if c == '"' {
        "&quot;"@
    } else {
        seq![c]
    }
}

/// A text with the characters that XML reads as markup written as entities.
pub open spec fn escaped(s: Seq<char>) -> Seq<char>
    decreases s.len(),
{
    if s.len() == 0 {
        Seq::empty()
    } else {
        escaped(s.drop_last()) + escaped_char(s.last())
    }
}

pub fn escape_xml(text: &str) -> (r: String)
    ensures
        r@ == escaped(text@),
{
    let chars: Vec<char> = chars_of(text);
    let mut out: String = String::new();
    let mut i: usize = 0;
    while i < chars.len()
        invariant
            i <= chars.len(),
            out@ == escaped(chars@.take(i as int)),
        decreases chars.len() - i,
    {
        let c: char = chars[i];
        let ghost before = out@;
        if c == '&' {
            out.push_str("&amp;");
        } else if c == '<' {
            out.push_str("&lt;");
        } else if c == '>' {
            out.push_str("&gt;");
        } else if c == '"' {
            out.push_str("&quot;");
        } else {
            out.push(c);
        }
        assert(out@ =~= before + escaped_char(c));
        i += 1;
        proof {
            lemma_prefix_step(chars@, i - 1);
        }
    }
    assert(chars@.take(i as int) =~= chars@);
    out
}

/// Escaped text never opens or closes a tag, nor ends an attribute.
pub proof fn law_escaped_text_holds_no_markup(s: Seq<char>, i: int)
    requires
        0 <= i < escaped(s).len(),
    ensures
        escaped(s)[i] != '<',
        escaped(s)[i] != '>',
        escaped(s)[i] != '"',
    decreases s.len(),
{
    reveal_strlit("&amp;");
    reveal_strlit("&lt;");
    reveal_strlit("&gt;");
    reveal_strlit("&quot;");
    let front = escaped(s.drop_last());
    if i < front.len() {
        law_escaped_text_holds_no_markup(s.drop_last(), i);
    } else {
        assert(escaped(s)[i] == escaped_char(s.last())[i - front.len()]);
    }
}

// ---------------------------------------------------------------- paragraphs

pub open spec fn when(shown: bool, text: Seq<char>) -> Seq<char> {
    if shown {
        text
    } else {
        Seq::empty()
    }
}

/// The emphasis of a run as Word writes it; nothing when there is none.
pub open spec fn emphasis_xml(run: Run) -> Seq<char> {
    let marks = when(run.bold, "<w:b/>"@) + when(run.italic, "<w:i/>"@) + when(
        run.strike,
        "<w:strike/>"@,
    );
    if run.bold || run.italic || run.strike {
        "<w:rPr>"@ + marks + "</w:rPr>"@
    } else {
        Seq::empty()
    }
}

pub open spec fn run_xml(run: Run) -> Seq<char> {
    "<w:r>"@ + emphasis_xml(run) + "<w:t xml:space=\"preserve\">"@ + escaped(run.text)
        + "</w:t></w:r>"@
}

pub open spec fn runs_xml(list: Seq<Run>) -> Seq<char>
    decreases list.len(),
{
    if list.len() == 0 {
        Seq::empty()
    } else {
        runs_xml(list.drop_last()) + run_xml(list.last())
    }
}

/// A hanging indent, so that a wrapped item lines up under its own text.
pub open spec fn indent_xml(indent: nat) -> Seq<char> {
    if indent > 0 {
        "<w:ind w:left=\""@ + decimal(indent) + "\" w:hanging=\"360\"/>"@
    } else {
        Seq::empty()
    }
}

pub open spec fn marker_xml(marker: Option<Seq<char>>) -> Seq<char> {
    match marker {
        Some(marker) => run_xml(plain_run(marker)),
        None => Seq::empty(),
    }
}

/// One paragraph in a named style, its marker first, each run with its own
/// emphasis.
pub open spec fn para_xml(
    list: Seq<Run>,
    style: Seq<char>,
    indent: nat,
    marker: Option<Seq<char>>,
) -> Seq<char> {
    "<w:p><w:pPr><w:pStyle w:val=\""@ + style + "\"/>"@ + indent_xml(indent) + "</w:pPr>"@
        + marker_xml(marker) + runs_xml(list) + "</w:p>"@
}

fn push_run(out: &mut String, text: &str, bold: bool, italic: bool, strike: bool)
    ensures
        final(out)@ == old(out)@ + run_xml(Run { text: text@, bold, italic, strike }),
{
    out.push_str("<w:r>");
    if bold || italic || strike {
        out.push_str("<w:rPr>");
        if bold {
            out.push_str("<w:b/>");
        }
        if italic {
            out.push_str("<w:i/>");
        }
        if strike {
            out.push_str("<w:strike/>");
        }
        out.push_str("</w:rPr>");
    }
    out.push_str("<w:t xml:space=\"preserve\">");
    out.push_str(escape_xml(text).as_str());
    out.push_str("</w:t></w:r>");
    assert(out@ =~= old(out)@ + run_xml(Run { text: text@, bold, italic, strike }));
}

pub open spec fn opt_view(text: Option<&str>) -> Option<Seq<char>> {
    match text {
        Some(text) => Some(text@),
        None => None,
    }
}

/// One paragraph, with each run carrying its own emphasis.
pub fn docx_para(list: &[Span], style: &str, indent: u32, marker: Option<&str>) -> (r: String)
    ensures
        r@ == para_xml(runs(list@), style@, indent as nat, opt_view(marker)),
{
    let mut out: String = String::new();
    out.push_str("<w:p><w:pPr><w:pStyle w:val=\"");
    out.push_str(style);
    out.push_str("\"/>");
    if indent > 0 {
        out.push_str("<w:ind w:left=\"");
        push_decimal(&mut out, indent as u64);
        out.push_str("\" w:hanging=\"360\"/>");
    }
    out.push_str("</w:pPr>");
    let ghost opening = "<w:p><w:pPr><w:pStyle w:val=\""@ + style@ + "\"/>"@ + indent_xml(
        indent as nat,
    ) + "</w:pPr>"@;
    assert(out@ =~= opening);
    if let Some(marker) = marker {
        push_run(&mut out, marker, false, false, false);
    }
    assert(out@ =~= opening + marker_xml(opt_view(marker)));
    let ghost before = out@;
    let ghost all = runs(list@);
    let mut i: usize = 0;
    assert(out@ =~= before + runs_xml(all.take(0)));
    while i < list.len()
        invariant
            i <= list.len(),
            all == runs(list@),
            out@ == before + runs_xml(all.take(i as int)),
        decreases list.len() - i,
    {
        let span: &Span = &list[i];
        push_run(&mut out, span.text.as_str(), span.bold, span.italic, span.strike);
        i += 1;
        proof {
            lemma_prefix_step(all, i - 1);
            assert(out@ =~= before + (runs_xml(all.take(i - 1)) + run_xml(all[i - 1])));
        }
    }
    assert(all.take(i as int) =~= all);
    out.push_str("</w:p>");
    assert(out@ =~= para_xml(all, style@, indent as nat, opt_view(marker)));
    out
}

// -------------------------------------------------------------------- tables

/// Runs as they stand in a cell; a head is bold throughout.
pub open spec fn cell_runs(list: Seq<Run>, header: bool) -> Seq<Run> {
    list.map_values(|run: Run| Run { bold: run.bold || header, ..run })
}

/// A cell; a row may end before its last column.
pub open spec fn cell_xml(row: Seq<Seq<Run>>, at: int, header: bool) -> Seq<char> {
    let content = if 0 <= at < row.len() {
        cell_runs(row[at], header)
    } else {
        Seq::empty()
    };
    "<w:tc><w:tcPr><w:tcW w:w=\"0\" w:type=\"auto\"/></w:tcPr>"@ + para_xml(
        content,
        "Normal"@,
        0,
        None,
    ) + "</w:tc>"@
}

pub open spec fn row_cells_xml(row: Seq<Seq<Run>>, header: bool, upto: nat) -> Seq<char>
    decreases upto,
{
    if upto == 0 {
        Seq::empty()
    } else {
        row_cells_xml(row, header, (upto - 1) as nat) + cell_xml(row, upto - 1, header)
    }
}

pub open spec fn row_xml(row: Seq<Seq<Run>>, header: bool, columns: nat) -> Seq<char> {
    "<w:tr>"@ + row_cells_xml(row, header, columns) + "</w:tr>"@
}

pub open spec fn rows_xml(rows: Seq<Seq<Seq<Run>>>, columns: nat) -> Seq<char>
    decreases rows.len(),
{
    if rows.len() == 0 {
        Seq::empty()
    } else {
        rows_xml(rows.drop_last(), columns) + row_xml(rows.last(), false, columns)
    }
}

/// A real Word table: bordered, every row filled to the last column.
pub open spec fn table_xml(head: Seq<Seq<Run>>, rows: Seq<Seq<Seq<Run>>>) -> Seq<char> {
    let columns = column_count(head, rows);
    if columns == 0 {
        Seq::empty()
    } else {
        TABLE_OPEN@ + when(head.len() > 0, row_xml(head, true, columns)) + rows_xml(rows, columns)
            + "</w:tbl><w:p/>"@
    }
}

fn push_cell(out: &mut String, row: &[Vec<Span>], at: usize, header: bool)
    ensures
        final(out)@ == old(out)@ + cell_xml(cells(row@), at as int, header),
{
    let mut content: Vec<Span> = Vec::new();
    assert(cells(row@).len() == row@.len());
    if at < row.len() {
        let list: &Vec<Span> = &row[at];
        let ghost all = runs(list@);
        let ghost wanted = cell_runs(all, header);
        let mut i: usize = 0;
        assert(runs(content@) =~= wanted.take(0));
        while i < list.len()
            invariant
                i <= list.len(),
                all == runs(list@),
                wanted == cell_runs(all, header),
                runs(content@) == wanted.take(i as int),
            decreases list.len() - i,
        {
            let mut span: Span = list[i].clone();
            span.bold = span.bold || header;
            push_span(&mut content, span);
            i += 1;
            assert(wanted.take(i as int) =~= wanted.take(i - 1).push(wanted[i - 1]));
        }
        assert(wanted.take(i as int) =~= wanted);
    } else {
        assert(runs(content@) =~= Seq::empty());
    }
    out.push_str("<w:tc><w:tcPr><w:tcW w:w=\"0\" w:type=\"auto\"/></w:tcPr>");
    out.push_str(docx_para(content.as_slice(), "Normal", 0, None).as_str());
    out.push_str("</w:tc>");
    assert(out@ =~= old(out)@ + cell_xml(cells(row@), at as int, header));
}

fn push_table_row(out: &mut String, row: &[Vec<Span>], header: bool, columns: usize)
    ensures
        final(out)@ == old(out)@ + row_xml(cells(row@), header, columns as nat),
{
    out.push_str("<w:tr>");
    let mut at: usize = 0;
    assert(out@ =~= old(out)@ + "<w:tr>"@ + row_cells_xml(cells(row@), header, 0));
    while at < columns
        invariant
            at <= columns,
            out@ == old(out)@ + "<w:tr>"@ + row_cells_xml(cells(row@), header, at as nat),
        decreases columns - at,
    {
        push_cell(out, row, at, header);
        at += 1;
        assert(out@ =~= old(out)@ + "<w:tr>"@ + row_cells_xml(cells(row@), header, at as nat));
    }
    out.push_str("</w:tr>");
    assert(out@ =~= old(out)@ + row_xml(cells(row@), header, columns as nat));
}

/// A real Word table, so it can be edited as one rather than as fixed text.
pub fn docx_table(head: &[Vec<Span>], rows: &[Vec<Vec<Span>>]) -> (r: String)
    ensures
        r@ == table_xml(cells(head@), grid(rows@)),
{
    let columns: usize = count_columns(head, rows);
    let mut out: String = String::new();
    if columns == 0 {
        assert(out@ =~= Seq::empty());
        return out;
    }
    out.push_str(TABLE_OPEN);
    assert(cells(head@).len() == head@.len());
    if head.len() > 0 {
        push_table_row(&mut out, head, true, columns);
    }
    let ghost before = TABLE_OPEN@ + when(
        head.len() > 0,
        row_xml(cells(head@), true, columns as nat),
    );
    assert(out@ =~= before);
    let ghost all = grid(rows@);
    let mut i: usize = 0;
    assert(out@ =~= before + rows_xml(all.take(0), columns as nat));
    while i < rows.len()
        invariant
            i <= rows.len(),
            all == grid(rows@),
            out@ == before + rows_xml(all.take(i as int), columns as nat),
        decreases rows.len() - i,
    {
        assert(all[i as int] == cells(rows@[i as int]@));
        push_table_row(&mut out, rows[i].as_slice(), false, columns);
        i += 1;
        proof {
            lemma_prefix_step(all, i - 1);
            assert(out@ =~= before + (rows_xml(all.take(i - 1), columns as nat) + row_xml(
                all[i - 1],
                false,
                columns as nat,
            )));
        }
    }
    assert(all.take(i as int) =~= all);
    out.push_str("</w:tbl><w:p/>");
    assert(out@ =~= table_xml(cells(head@), all));
    out
}

// ------------------------------------------------------------------ document

/// The style of a heading; below the third level all headings look alike.
pub open spec fn heading_style(level: u8) -> Seq<char> {
    "Heading"@ + decimal(if level < 3 {
        level as nat
    } else {
        3
    })
}

/// One block as Word writes it.
pub open spec fn block_xml(block: Piece) -> Seq<char> {
    match block {
        Piece::Heading { level, text } => para_xml(text, heading_style(level), 0, None),
        Piece::Paragraph(text) => para_xml(text, "Normal"@, 0, None),
        Piece::Bullet { depth, text } => para_xml(
            text,
            "Normal"@,
            360 + 360 * depth as nat,
            Some(
                if depth == 0 {
                    "\u{2022}\u{a0}"@
                } else {
                    "\u{25e6}\u{a0}"@
                },
            ),
        ),
        Piece::Numbered { depth, number, text } => para_xml(
            text,
            "Normal"@,
            360 + 360 * depth as nat,
            Some(decimal(number as nat) + ".\u{a0}"@),
        ),
        Piece::Quote(text) => para_xml(text, "Quote"@, 720, None),
        Piece::Table { head, rows } => table_xml(head, rows),
        Piece::Rule => RULE@,
    }
}

pub open spec fn blocks_xml(blocks: Seq<Piece>) -> Seq<char>
    decreases blocks.len(),
{
    if blocks.len() == 0 {
        Seq::empty()
    } else {
        blocks_xml(blocks.drop_last()) + block_xml(blocks.last())
    }
}

pub open spec fn subjects_xml(topics: Seq<Seq<char>>) -> Seq<char> {
    para_xml(seq![plain_run("Subjects"@)], "Heading2"@, 0, None) + para_xml(
        seq![plain_run(joined(topics, ", "@))],
        "Normal"@,
        0,
        None,
    )
}

/// The body of the document: the title, the blocks, the subjects.
pub open spec fn body_xml(
    title: Seq<char>,
    blocks: Seq<Piece>,
    topics: Seq<Seq<char>>,
) -> Seq<char> {
    when(title.len() > 0, para_xml(seq![plain_run(title)], "Title"@, 0, None)) + blocks_xml(blocks)
        + when(topics.len() > 0, subjects_xml(topics))
}

/// The five files a Word file is made of.
pub open spec fn word_parts(
    title: Seq<char>,
    blocks: Seq<Piece>,
    topics: Seq<Seq<char>>,
) -> Seq<(Seq<char>, Seq<char>)> {
    seq![
        ("[Content_Types].xml"@, CONTENT_TYPES@),
        ("_rels/.rels"@, RELS@),
        ("word/_rels/document.xml.rels"@, DOCUMENT_RELS@),
        ("word/styles.xml"@, DOCX_STYLES@),
        ("word/document.xml"@, DOCUMENT_OPEN@ + body_xml(title, blocks, topics) + DOCUMENT_CLOSE@),
    ]
}

fn heading_style_name(level: u8) -> (r: String)
    ensures
        r@ == heading_style(level),
{
    let mut out: String = "Heading".to_owned();
    push_decimal(
        &mut out,
        if level < 3 {
            level as u64
        } else {
            3
        },
    );
    out
}

fn docx_block(block: &Block) -> (r: String)
    ensures
        r@ == block_xml(block@),
{
    match block {
        Block::Heading { level, text } => docx_para(
            text.as_slice(),
            heading_style_name(*level).as_str(),
            0,
            None,
        ),
        Block::Paragraph(text) => docx_para(text.as_slice(), "Normal", 0, None),
        Block::Bullet { depth, text } => {
            let marker: &str = if *depth == 0 {
                "\u{2022}\u{a0}"
            } else {
                "\u{25e6}\u{a0}"
            };
            docx_para(text.as_slice(), "Normal", 360 + 360 * (*depth as u32), Some(marker))
        },
        Block::Numbered { depth, number, text } => {
            let mut marker: String = String::new();
            push_decimal(&mut marker, *number as u64);
            marker.push_str(".\u{a0}");
            assert(marker@ =~= decimal(*number as nat) + ".\u{a0}"@);
            docx_para(
                text.as_slice(),
                "Normal",
                360 + 360 * (*depth as u32),
                Some(marker.as_str()),
            )
        },
        Block::Quote(text) => docx_para(text.as_slice(), "Quote", 720, None),
        Block::Table { head, rows } => docx_table(head.as_slice(), rows.as_slice()),
        Block::Rule => RULE.to_owned(),
    }
}

fn docx_body(title: &str, blocks: &[Block], topics: &[String]) -> (r: String)
    ensures
        r@ == body_xml(title@, pieces(blocks@), texts(topics@)),
{
    let mut body: String = String::new();
    if !title.is_empty() {
        body.push_str(docx_para(only(title).as_slice(), "Title", 0, None).as_str());
    }
    let ghost before = body@;
    assert(before =~= when(
        title@.len() > 0,
        para_xml(seq![plain_run(title@)], "Title"@, 0, None),
    ));
    let ghost all = pieces(blocks@);
    let mut i: usize = 0;
    assert(body@ =~= before + blocks_xml(all.take(0)));
    while i < blocks.len()
        invariant
            i <= blocks.len(),
            all == pieces(blocks@),
            body@ == before + blocks_xml(all.take(i as int)),
        decreases blocks.len() - i,
    {
        body.push_str(docx_block(&blocks[i]).as_str());
        i += 1;
        proof {
            lemma_prefix_step(all, i - 1);
            assert(body@ =~= before + (blocks_xml(all.take(i - 1)) + block_xml(all[i - 1])));
        }
    }
    assert(all.take(i as int) =~= all);
    assert(texts(topics@).len() == topics@.len());
    if topics.len() > 0 {
        body.push_str(docx_para(only("Subjects").as_slice(), "Heading2", 0, None).as_str());
        let list: String = join_texts(topics, ", ");
        body.push_str(docx_para(only(list.as_str()).as_slice(), "Normal", 0, None).as_str());
    }
    assert(body@ =~= body_xml(title@, all, texts(topics@)));
    body
}

/// The Word file could not be written.
#[derive(Debug, Clone, Copy, PartialEq, Eq, Structural)]
pub struct Unwritten;

impl Unwritten {
    /// What to tell whoever asked for the file.
    pub fn message(&self) -> (r: String)
        ensures
            r@ == "could not write the Word file"@,
    {
        "could not write the Word file".to_owned()
    }
}

/// The error a zip writer gives.
#[verifier::external_type_specification]
#[verifier::external_body]
pub struct ExZipError(zip::result::ZipError);

pub open spec fn parts_of(parts: Seq<(&str, &str)>) -> Seq<(Seq<char>, Seq<char>)> {
    parts.map_values(|p: (&str, &str)| (p.0@, p.1@))
}

/// The archive a zip writer makes of named texts, deflated in the order given;
/// nothing when it refuses them.
pub uninterp spec fn zipped(parts: Seq<(Seq<char>, Seq<char>)>) -> Option<Seq<u8>>;

/// The named texts that reading an archive gives back, in order.
pub uninterp spec fn unzipped(archive: Seq<u8>) -> Seq<(Seq<char>, Seq<char>)>;

/// `zip::ZipWriter`: each text written under its name with `start_file` and
/// `write_all`, then `finish`. No time is written, so the bytes depend on the
/// parts alone, and reading the archive gives the parts back. Names are kept
/// short of the length at which a header cannot hold them.
#[verifier::external_body]
fn archive(parts: &[(&str, &str)]) -> (r: Result<Vec<u8>, zip::result::ZipError>)
    requires
        parts@.len() <= 1000,
        forall|i: int| 0 <= i < parts@.len() ==> (#[trigger] parts@[i]).0@.len() <= 1000,
    ensures
        match zipped(parts_of(parts@)) {
            Some(bytes) => r matches Ok(v) && v@ == bytes,
            None => r is Err,
        },
        r matches Ok(v) ==> unzipped(v@) == parts_of(parts@),
{
    let mut zip = ZipWriter::new(Cursor::new(Vec::new()));
    let options: FileOptions<'_, ()> = FileOptions::default()
        .compression_method(CompressionMethod::Deflated);
    for (name, contents) in parts {
        zip.start_file(*name, options)?;
        zip.write_all(contents.as_bytes())?;
    }
    Ok(zip.finish()?.into_inner())
}

/// A Word file, from the blocks of a document.
pub fn write_docx(title: &str, blocks: &[Block], topics: &[String]) -> (r: Result<
    Vec<u8>,
    Unwritten,
>)
    ensures
        match zipped(word_parts(title@, pieces(blocks@), texts(topics@))) {
            Some(bytes) => r matches Ok(v) && v@ == bytes,
            None => r is Err,
        },
        r matches Ok(v) ==> unzipped(v@) == word_parts(title@, pieces(blocks@), texts(topics@)),
{
    let mut document: String = DOCUMENT_OPEN.to_owned();
    document.push_str(docx_body(title, blocks, topics).as_str());
    document.push_str(DOCUMENT_CLOSE);
    let parts: Vec<(&str, &str)> = vec![
        ("[Content_Types].xml", CONTENT_TYPES),
        ("_rels/.rels", RELS),
        ("word/_rels/document.xml.rels", DOCUMENT_RELS),
        ("word/styles.xml", DOCX_STYLES),
        ("word/document.xml", document.as_str()),
    ];
    proof {
        reveal_strlit("[Content_Types].xml");
        reveal_strlit("_rels/.rels");
        reveal_strlit("word/_rels/document.xml.rels");
        reveal_strlit("word/styles.xml");
        reveal_strlit("word/document.xml");
        assert(parts_of(parts@) =~= word_parts(title@, pieces(blocks@), texts(topics@)));
    }
    match archive(parts.as_slice()) {
        Ok(bytes) => Ok(bytes),
        Err(_) => Err(Unwritten),
    }
}

/// A minimal but valid .docx.
pub fn to_docx(title: &str, markdown: &str, topics: &[String]) -> (r: Result<Vec<u8>, Unwritten>)
    ensures
        match zipped(
            word_parts(title@, blocks_of(markdown_events(broken(markdown@))), texts(topics@)),
        ) {
            Some(bytes) => r matches Ok(v) && v@ == bytes,
            None => r is Err,
        },
        r matches Ok(v) ==> unzipped(v@) == word_parts(
            title@,
            blocks_of(markdown_events(broken(markdown@))),
            texts(topics@),
        ),
{
    write_docx(title, parse(markdown).as_slice(), topics)
}

} // verus!
