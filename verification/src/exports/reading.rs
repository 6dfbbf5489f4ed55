//! What a word processor reads in the body of a Word file.
//!
//! A reader of the markup that the export uses: paragraphs with their styles and
//! indents, the rows and cells of tables, and characters with their emphasis.
//! Whatever else is marked up says nothing.

use crate::exports::model::Run;
use crate::exports::word::{
    escaped, escaped_char, DOCUMENT_CLOSE, DOCUMENT_OPEN, RULE, TABLE_OPEN,
};
use vstd::prelude::*;

verus! {

/// What is read.
pub enum Event {
    /// A paragraph begins, in a style.
    Paragraph { style: Seq<char> },
    /// The paragraph is indented by so much, in digits.
    Indent { left: Seq<char> },
    /// A row of a table begins.
    Row,
    /// A cell of a row begins.
    Cell,
    /// A character, in its emphasis.
    Letter { c: char, bold: bool, italic: bool, strike: bool },
}

/// Where in the markup the reader stands.
pub enum Mode {
    /// Between tags.
    Out,
    /// Behind `<`, `<w` and `<w:`.
    Open,
    OpenW,
    OpenColon,
    /// Behind `</`, `</w`, `</w:` and `</w:r`.
    Close,
    CloseW,
    CloseColon,
    CloseR,
    /// Behind `<w:t`, `<w:tr` and `<w:tc`.
    T,
    Tr,
    Tc,
    /// Behind `<w:r`.
    R,
    /// Behind `<w:b` and `<w:b/`.
    B,
    BEnd,
    /// Behind `<w:i`, `<w:i/` and `<w:in`.
    I,
    IEnd,
    In,
    /// Behind `<w:s`, and in a tag that begins `<w:st`.
    S,
    Strike,
    /// Behind `<w:p`.
    P,
    /// In a tag that begins `<w:pS`, and in its value.
    Style,
    StyleValue,
    /// In a tag that begins `<w:ind`, and in its first value.
    Ind,
    IndValue,
    /// In any other tag.
    Tag,
    /// In a tag that begins `<w:t `, in the text behind it, and in an entity there.
    TextTag,
    Text,
    Entity,
}

/// A reader: where it stands, the emphasis of the run it is in, the value it is
/// reading, and what it has read.
#[verifier::ext_equal]
pub struct Reader {
    pub mode: Mode,
    pub bold: bool,
    pub italic: bool,
    pub strike: bool,
    pub value: Seq<char>,
    pub events: Seq<Event>,
}

/// A reader between tags that has read so much.
pub open spec fn resting(events: Seq<Event>) -> Reader {
    Reader {
        mode: Mode::Out,
        bold: false,
        italic: false,
        strike: false,
        value: Seq::empty(),
        events,
    }
}

/// The character an entity stands for.
pub open spec fn meant(entity: Seq<char>) -> char {
    if entity =~= "amp"@ {
        '&'
    } else if entity =~= "lt"@ {
        '<'
    } else if entity =~= "gt"@ {
        '>'
    } else {
        '"'
    }
}

pub open spec fn at(r: Reader, mode: Mode) -> Reader {
    Reader { mode, ..r }
}

pub open spec fn noting(r: Reader, event: Event, mode: Mode) -> Reader {
    Reader { mode, value: Seq::empty(), events: r.events.push(event), ..r }
}

pub open spec fn letter(r: Reader, c: char) -> Event {
    Event::Letter { c, bold: r.bold, italic: r.italic, strike: r.strike }
}

/// One character read.
pub open spec fn step(r: Reader, c: char) -> Reader {
    match r.mode {
        Mode::Out => at(r, if c == '<' {
            Mode::Open
        } else {
            Mode::Out
        }),
        Mode::Open => at(r, if c == 'w' {
            Mode::OpenW
        } else if c == '/' {
            Mode::Close
        } else {
            Mode::Tag
        }),
        Mode::OpenW => at(r, if c == ':' {
            Mode::OpenColon
        } else {
            Mode::Tag
        }),
        Mode::OpenColon => at(r, if c == 't' {
            Mode::T
        } else if c == 'r' {
            Mode::R
        } else if c == 'b' {
            Mode::B
        } else if c == 'i' {
            Mode::I
        } else if c == 's' {
            Mode::S
        } else if c == 'p' {
            Mode::P
        } else {
            Mode::Tag
        }),
        Mode::Close => at(r, if c == 'w' {
            Mode::CloseW
        } else {
            Mode::Tag
        }),
        Mode::CloseW => at(r, if c == ':' {
            Mode::CloseColon
        } else {
            Mode::Tag
        }),
        Mode::CloseColon => at(r, if c == 'r' {
            Mode::CloseR
        } else {
            Mode::Tag
        }),
        Mode::CloseR => if c == '>' {
            Reader { mode: Mode::Out, bold: false, italic: false, strike: false, ..r }
        } else {
            at(r, Mode::Tag)
        },
        Mode::T => at(r, if c == ' ' {
            Mode::TextTag
        } else if c == '>' {
            Mode::Text
        } else if c == 'r' {
            Mode::Tr
        } else if c == 'c' {
            Mode::Tc
        } else {
            Mode::Tag
        }),
        Mode::Tr => if c == '>' {
            noting(r, Event::Row, Mode::Out)
        } else {
            at(r, Mode::Tag)
        },
        Mode::Tc => if c == '>' {
            noting(r, Event::Cell, Mode::Out)
        } else {
            at(r, Mode::Tag)
        },
        Mode::R => at(r, if c == '>' {
            Mode::Out
        } else {
            Mode::Tag
        }),
        Mode::B => at(r, if c == '/' {
            Mode::BEnd
        } else {
            Mode::Tag
        }),
        Mode::BEnd => if c == '>' {
            Reader { mode: Mode::Out, bold: true, ..r }
        } else {
            at(r, Mode::Tag)
        },
        Mode::I => at(r, if c == '/' {
            Mode::IEnd
        } else if c == 'n' {
            Mode::In
        } else {
            Mode::Tag
        }),
        Mode::IEnd => if c == '>' {
            Reader { mode: Mode::Out, italic: true, ..r }
        } else {
            at(r, Mode::Tag)
        },
        Mode::In => at(r, if c == 'd' {
            Mode::Ind
        } else {
            Mode::Tag
        }),
        Mode::S => at(r, if c == 't' {
            Mode::Strike
        } else {
            Mode::Tag
        }),
        Mode::Strike => if c == '>' {
            Reader { mode: Mode::Out, strike: true, ..r }
        } else {
            r
        },
        Mode::P => at(r, if c == 'S' {
            Mode::Style
        } else if c == '>' {
            Mode::Out
        } else {
            Mode::Tag
        }),
        Mode::Style => at(r, if c == '"' {
            Mode::StyleValue
        } else {
            Mode::Style
        }),
        Mode::StyleValue => if c == '"' {
            noting(r, Event::Paragraph { style: r.value }, Mode::Tag)
        } else {
            Reader { value: r.value.push(c), ..r }
        },
        Mode::Ind => at(r, if c == '"' {
            Mode::IndValue
        } else {
            Mode::Ind
        }),
        Mode::IndValue => if c == '"' {
            noting(r, Event::Indent { left: r.value }, Mode::Tag)
        } else {
            Reader { value: r.value.push(c), ..r }
        },
        Mode::Tag => at(r, if c == '>' {
            Mode::Out
        } else {
            Mode::Tag
        }),
        Mode::TextTag => at(r, if c == '>' {
            Mode::Text
        } else {
            Mode::TextTag
        }),
        Mode::Text => if c == '<' {
            at(r, Mode::Open)
        } else if c == '&' {
            at(r, Mode::Entity)
        } else {
            noting(r, letter(r, c), Mode::Text)
        },
        Mode::Entity => if c == ';' {
            noting(r, letter(r, meant(r.value)), Mode::Text)
        } else {
            Reader { value: r.value.push(c), ..r }
        },
    }
}

/// A reader once it has read a text from a place on.
pub open spec fn read(r: Reader, s: Seq<char>, from: int) -> Reader
    decreases s.len() - from,
{
    if from < 0 || from >= s.len() {
        r
    } else {
        read(step(r, s[from]), s, from + 1)
    }
}

/// What is read in a text.
pub open spec fn events_in(xml: Seq<char>) -> Seq<Event> {
    read(resting(Seq::empty()), xml, 0).events
}

proof fn lemma_read_behind(r: Reader, a: Seq<char>, b: Seq<char>, from: int)
    requires
        0 <= from,
    ensures
        read(r, a + b, a.len() + from) == read(r, b, from),
    decreases b.len() - from,
{
    if from < b.len() {
        assert((a + b)[a.len() + from] == b[from]);
        lemma_read_behind(step(r, b[from]), a, b, from + 1);
    }
}

proof fn lemma_read_append(r: Reader, a: Seq<char>, b: Seq<char>, from: int)
    requires
        0 <= from <= a.len(),
    ensures
        read(r, a + b, from) == read(read(r, a, from), b, 0),
    decreases a.len() - from,
{
    if from < a.len() {
        assert((a + b)[from] == a[from]);
        lemma_read_append(step(r, a[from]), a, b, from + 1);
    } else {
        lemma_read_behind(r, a, b, 0);
    }
}

/// One text read after another.
pub proof fn lemma_then(r: Reader, a: Seq<char>, b: Seq<char>)
    ensures
        read(r, a + b, 0) == read(read(r, a, 0), b, 0),
{
    lemma_read_append(r, a, b, 0);
}

// -------------------------------------------------------------------- markup

/// The reader a few characters on.
proof fn lemma_on(r: Reader, s: Seq<char>, from: int, upto: int, then: Reader)
    requires
        0 <= from <= upto <= s.len(),
        upto <= from + 9,
        ({
            let a = if from < upto { step(r, s[from]) } else { r };
            let b = if from + 1 < upto { step(a, s[from + 1]) } else { a };
            let c = if from + 2 < upto { step(b, s[from + 2]) } else { b };
            let d = if from + 3 < upto { step(c, s[from + 3]) } else { c };
            let e = if from + 4 < upto { step(d, s[from + 4]) } else { d };
            let f = if from + 5 < upto { step(e, s[from + 5]) } else { e };
            let g = if from + 6 < upto { step(f, s[from + 6]) } else { f };
            let h = if from + 7 < upto { step(g, s[from + 7]) } else { g };
            let i = if from + 8 < upto { step(h, s[from + 8]) } else { h };
            i == then
        }),
    ensures
        read(r, s, from) == read(then, s, upto),
{
    reveal_with_fuel(read, 10);
}

proof fn lemma_table_open_1(events: Seq<Event>)
    ensures
        read(at(resting(events), Mode::Out), TABLE_OPEN@, 0) == read(
            at(resting(events), Mode::Tag),
            TABLE_OPEN@,
            108,
        ),
        TABLE_OPEN@.len() == 430,
{
    reveal_strlit(
        "<w:tbl><w:tblPr><w:tblStyle w:val=\"TableGrid\"/><w:tblW w:w=\"0\" w:type=\"auto\"/>\n<w:tblBorders>\n<w:top w:val=\"single\" w:sz=\"4\" w:color=\"C8CDD4\"/><w:left w:val=\"single\" w:sz=\"4\" w:color=\"C8CDD4\"/>\n<w:bottom w:val=\"single\" w:sz=\"4\" w:color=\"C8CDD4\"/><w:right w:val=\"single\" w:sz=\"4\" w:color=\"C8CDD4\"/>\n<w:insideH w:val=\"single\" w:sz=\"4\" w:color=\"C8CDD4\"/><w:insideV w:val=\"single\" w:sz=\"4\" w:color=\"C8CDD4\"/>\n</w:tblBorders></w:tblPr>",
    );
    let s = TABLE_OPEN@;
    let r = resting(events);
    lemma_on(at(r, Mode::Out), s, 0, 9, at(r, Mode::OpenW));
    lemma_on(at(r, Mode::OpenW), s, 9, 18, at(r, Mode::OpenW));
    lemma_on(at(r, Mode::OpenW), s, 18, 27, at(r, Mode::Tag));
    lemma_on(at(r, Mode::Tag), s, 27, 36, at(r, Mode::Tag));
    lemma_on(at(r, Mode::Tag), s, 36, 45, at(r, Mode::Tag));
    lemma_on(at(r, Mode::Tag), s, 45, 54, at(r, Mode::Tag));
    lemma_on(at(r, Mode::Tag), s, 54, 63, at(r, Mode::Tag));
    lemma_on(at(r, Mode::Tag), s, 63, 72, at(r, Mode::Tag));
    lemma_on(at(r, Mode::Tag), s, 72, 81, at(r, Mode::OpenW));
    lemma_on(at(r, Mode::OpenW), s, 81, 90, at(r, Mode::Tag));
    lemma_on(at(r, Mode::Tag), s, 90, 99, at(r, Mode::Tag));
    lemma_on(at(r, Mode::Tag), s, 99, 108, at(r, Mode::Tag));
}

proof fn lemma_table_open_2(events: Seq<Event>)
    ensures
        read(at(resting(events), Mode::Tag), TABLE_OPEN@, 108) == read(
            at(resting(events), Mode::Tag),
            TABLE_OPEN@,
            216,
        ),
        TABLE_OPEN@.len() == 430,
{
    reveal_strlit(
        "<w:tbl><w:tblPr><w:tblStyle w:val=\"TableGrid\"/><w:tblW w:w=\"0\" w:type=\"auto\"/>\n<w:tblBorders>\n<w:top w:val=\"single\" w:sz=\"4\" w:color=\"C8CDD4\"/><w:left w:val=\"single\" w:sz=\"4\" w:color=\"C8CDD4\"/>\n<w:bottom w:val=\"single\" w:sz=\"4\" w:color=\"C8CDD4\"/><w:right w:val=\"single\" w:sz=\"4\" w:color=\"C8CDD4\"/>\n<w:insideH w:val=\"single\" w:sz=\"4\" w:color=\"C8CDD4\"/><w:insideV w:val=\"single\" w:sz=\"4\" w:color=\"C8CDD4\"/>\n</w:tblBorders></w:tblPr>",
    );
    let s = TABLE_OPEN@;
    let r = resting(events);
    lemma_on(at(r, Mode::Tag), s, 108, 117, at(r, Mode::Tag));
    lemma_on(at(r, Mode::Tag), s, 117, 126, at(r, Mode::Tag));
    lemma_on(at(r, Mode::Tag), s, 126, 135, at(r, Mode::Tag));
    lemma_on(at(r, Mode::Tag), s, 135, 144, at(r, Mode::Open));
    lemma_on(at(r, Mode::Open), s, 144, 153, at(r, Mode::Tag));
    lemma_on(at(r, Mode::Tag), s, 153, 162, at(r, Mode::Tag));
    lemma_on(at(r, Mode::Tag), s, 162, 171, at(r, Mode::Tag));
    lemma_on(at(r, Mode::Tag), s, 171, 180, at(r, Mode::Tag));
    lemma_on(at(r, Mode::Tag), s, 180, 189, at(r, Mode::Tag));
    lemma_on(at(r, Mode::Tag), s, 189, 198, at(r, Mode::B));
    lemma_on(at(r, Mode::B), s, 198, 207, at(r, Mode::Tag));
    lemma_on(at(r, Mode::Tag), s, 207, 216, at(r, Mode::Tag));
}

proof fn lemma_table_open_3(events: Seq<Event>)
    ensures
        read(at(resting(events), Mode::Tag), TABLE_OPEN@, 216) == read(
            at(resting(events), Mode::Tag),
            TABLE_OPEN@,
            324,
        ),
        TABLE_OPEN@.len() == 430,
{
    reveal_strlit(
        "<w:tbl><w:tblPr><w:tblStyle w:val=\"TableGrid\"/><w:tblW w:w=\"0\" w:type=\"auto\"/>\n<w:tblBorders>\n<w:top w:val=\"single\" w:sz=\"4\" w:color=\"C8CDD4\"/><w:left w:val=\"single\" w:sz=\"4\" w:color=\"C8CDD4\"/>\n<w:bottom w:val=\"single\" w:sz=\"4\" w:color=\"C8CDD4\"/><w:right w:val=\"single\" w:sz=\"4\" w:color=\"C8CDD4\"/>\n<w:insideH w:val=\"single\" w:sz=\"4\" w:color=\"C8CDD4\"/><w:insideV w:val=\"single\" w:sz=\"4\" w:color=\"C8CDD4\"/>\n</w:tblBorders></w:tblPr>",
    );
    let s = TABLE_OPEN@;
    let r = resting(events);
    lemma_on(at(r, Mode::Tag), s, 216, 225, at(r, Mode::Tag));
    lemma_on(at(r, Mode::Tag), s, 225, 234, at(r, Mode::Tag));
    lemma_on(at(r, Mode::Tag), s, 234, 243, at(r, Mode::Tag));
    lemma_on(at(r, Mode::Tag), s, 243, 252, at(r, Mode::Tag));
    lemma_on(at(r, Mode::Tag), s, 252, 261, at(r, Mode::Tag));
    lemma_on(at(r, Mode::Tag), s, 261, 270, at(r, Mode::Tag));
    lemma_on(at(r, Mode::Tag), s, 270, 279, at(r, Mode::Tag));
    lemma_on(at(r, Mode::Tag), s, 279, 288, at(r, Mode::Tag));
    lemma_on(at(r, Mode::Tag), s, 288, 297, at(r, Mode::Out));
    lemma_on(at(r, Mode::Out), s, 297, 306, at(r, Mode::Tag));
    lemma_on(at(r, Mode::Tag), s, 306, 315, at(r, Mode::Tag));
    lemma_on(at(r, Mode::Tag), s, 315, 324, at(r, Mode::Tag));
}

proof fn lemma_table_open_4(events: Seq<Event>)
    ensures
        read(at(resting(events), Mode::Tag), TABLE_OPEN@, 324) == read(
            at(resting(events), Mode::Out),
            TABLE_OPEN@,
            430,
        ),
        TABLE_OPEN@.len() == 430,
{
    reveal_strlit(
        "<w:tbl><w:tblPr><w:tblStyle w:val=\"TableGrid\"/><w:tblW w:w=\"0\" w:type=\"auto\"/>\n<w:tblBorders>\n<w:top w:val=\"single\" w:sz=\"4\" w:color=\"C8CDD4\"/><w:left w:val=\"single\" w:sz=\"4\" w:color=\"C8CDD4\"/>\n<w:bottom w:val=\"single\" w:sz=\"4\" w:color=\"C8CDD4\"/><w:right w:val=\"single\" w:sz=\"4\" w:color=\"C8CDD4\"/>\n<w:insideH w:val=\"single\" w:sz=\"4\" w:color=\"C8CDD4\"/><w:insideV w:val=\"single\" w:sz=\"4\" w:color=\"C8CDD4\"/>\n</w:tblBorders></w:tblPr>",
    );
    let s = TABLE_OPEN@;
    let r = resting(events);
    lemma_on(at(r, Mode::Tag), s, 324, 333, at(r, Mode::Tag));
    lemma_on(at(r, Mode::Tag), s, 333, 342, at(r, Mode::Tag));
    lemma_on(at(r, Mode::Tag), s, 342, 351, at(r, Mode::Out));
    lemma_on(at(r, Mode::Out), s, 351, 360, at(r, Mode::Tag));
    lemma_on(at(r, Mode::Tag), s, 360, 369, at(r, Mode::Tag));
    lemma_on(at(r, Mode::Tag), s, 369, 378, at(r, Mode::Tag));
    lemma_on(at(r, Mode::Tag), s, 378, 387, at(r, Mode::Tag));
    lemma_on(at(r, Mode::Tag), s, 387, 396, at(r, Mode::Tag));
    lemma_on(at(r, Mode::Tag), s, 396, 405, at(r, Mode::Out));
    lemma_on(at(r, Mode::Out), s, 405, 414, at(r, Mode::Tag));
    lemma_on(at(r, Mode::Tag), s, 414, 423, at(r, Mode::CloseW));
    lemma_on(at(r, Mode::CloseW), s, 423, 430, at(r, Mode::Out));
}

pub proof fn lemma_table_open(events: Seq<Event>)
    ensures
        read(resting(events), TABLE_OPEN@, 0) == resting(events),
{
    lemma_table_open_1(events);
    lemma_table_open_2(events);
    lemma_table_open_3(events);
    lemma_table_open_4(events);
}

pub proof fn lemma_rule(events: Seq<Event>)
    ensures
        read(at(resting(events), Mode::Out), RULE@, 0) == read(
            at(resting(events), Mode::Out),
            RULE@,
            107,
        ),
        RULE@.len() == 107,
{
    reveal_strlit(
        "<w:p><w:pPr><w:pBdr><w:bottom w:val=\"single\" w:sz=\"6\" w:space=\"1\" w:color=\"BFBFBF\"/></w:pBdr></w:pPr></w:p>",
    );
    let s = RULE@;
    let r = resting(events);
    lemma_on(at(r, Mode::Out), s, 0, 9, at(r, Mode::P));
    lemma_on(at(r, Mode::P), s, 9, 18, at(r, Mode::Tag));
    lemma_on(at(r, Mode::Tag), s, 18, 27, at(r, Mode::Tag));
    lemma_on(at(r, Mode::Tag), s, 27, 36, at(r, Mode::Tag));
    lemma_on(at(r, Mode::Tag), s, 36, 45, at(r, Mode::Tag));
    lemma_on(at(r, Mode::Tag), s, 45, 54, at(r, Mode::Tag));
    lemma_on(at(r, Mode::Tag), s, 54, 63, at(r, Mode::Tag));
    lemma_on(at(r, Mode::Tag), s, 63, 72, at(r, Mode::Tag));
    lemma_on(at(r, Mode::Tag), s, 72, 81, at(r, Mode::Tag));
    lemma_on(at(r, Mode::Tag), s, 81, 90, at(r, Mode::Tag));
    lemma_on(at(r, Mode::Tag), s, 90, 99, at(r, Mode::Tag));
    lemma_on(at(r, Mode::Tag), s, 99, 107, at(r, Mode::Out));
}

pub proof fn lemma_document_open(events: Seq<Event>)
    ensures
        read(resting(events), DOCUMENT_OPEN@, 0) == resting(events),
        DOCUMENT_OPEN@.len() == 148,
{
    reveal_strlit(
        "<?xml version=\"1.0\" encoding=\"UTF-8\" standalone=\"yes\"?>\n<w:document xmlns:w=\"http://schemas.openxmlformats.org/wordprocessingml/2006/main\">\n<w:body>",
    );
    let s = DOCUMENT_OPEN@;
    let r = resting(events);
    lemma_on(at(r, Mode::Out), s, 0, 9, at(r, Mode::Tag));
    lemma_on(at(r, Mode::Tag), s, 9, 18, at(r, Mode::Tag));
    lemma_on(at(r, Mode::Tag), s, 18, 27, at(r, Mode::Tag));
    lemma_on(at(r, Mode::Tag), s, 27, 36, at(r, Mode::Tag));
    lemma_on(at(r, Mode::Tag), s, 36, 45, at(r, Mode::Tag));
    lemma_on(at(r, Mode::Tag), s, 45, 54, at(r, Mode::Tag));
    lemma_on(at(r, Mode::Tag), s, 54, 63, at(r, Mode::Tag));
    lemma_on(at(r, Mode::Tag), s, 63, 72, at(r, Mode::Tag));
    lemma_on(at(r, Mode::Tag), s, 72, 81, at(r, Mode::Tag));
    lemma_on(at(r, Mode::Tag), s, 81, 90, at(r, Mode::Tag));
    lemma_on(at(r, Mode::Tag), s, 90, 99, at(r, Mode::Tag));
    lemma_on(at(r, Mode::Tag), s, 99, 108, at(r, Mode::Tag));
    lemma_on(at(r, Mode::Tag), s, 108, 117, at(r, Mode::Tag));
    lemma_on(at(r, Mode::Tag), s, 117, 126, at(r, Mode::Tag));
    lemma_on(at(r, Mode::Tag), s, 126, 135, at(r, Mode::Tag));
    lemma_on(at(r, Mode::Tag), s, 135, 144, at(r, Mode::B));
    lemma_on(at(r, Mode::B), s, 144, 148, at(r, Mode::Out));
}

pub proof fn lemma_document_close(events: Seq<Event>)
    ensures
        read(resting(events), DOCUMENT_CLOSE@, 0) == resting(events),
        DOCUMENT_CLOSE@.len() == 33,
{
    reveal_strlit(
        "<w:sectPr/></w:body></w:document>",
    );
    let s = DOCUMENT_CLOSE@;
    let r = resting(events);
    lemma_on(at(r, Mode::Out), s, 0, 9, at(r, Mode::Tag));
    lemma_on(at(r, Mode::Tag), s, 9, 18, at(r, Mode::Tag));
    lemma_on(at(r, Mode::Tag), s, 18, 27, at(r, Mode::Tag));
    lemma_on(at(r, Mode::Tag), s, 27, 33, at(r, Mode::Out));
}

pub proof fn lemma_para_open(r: Reader)
    requires
        r.mode is Out,
    ensures
        read(r, "<w:p><w:pPr><w:pStyle w:val=\""@, 0) == at(r, Mode::StyleValue),
{
    reveal_strlit("<w:p><w:pPr><w:pStyle w:val=\"");
    let s = "<w:p><w:pPr><w:pStyle w:val=\""@;
    lemma_on(r, s, 0, 9, at(r, Mode::P));
    lemma_on(at(r, Mode::P), s, 9, 18, at(r, Mode::Style));
    lemma_on(at(r, Mode::Style), s, 18, 27, at(r, Mode::Style));
    lemma_on(at(r, Mode::Style), s, 27, 29, at(r, Mode::StyleValue));
}

pub proof fn lemma_style_close(r: Reader)
    requires
        r.mode is StyleValue,
    ensures
        read(r, "\"/>"@, 0) == noting(r, Event::Paragraph { style: r.value }, Mode::Out),
{
    reveal_strlit("\"/>");
    let s = "\"/>"@;
    lemma_on(r, s, 0, 3, noting(r, Event::Paragraph { style: r.value }, Mode::Out));
}

pub proof fn lemma_indent_open(r: Reader)
    requires
        r.mode is Out,
    ensures
        read(r, "<w:ind w:left=\""@, 0) == at(r, Mode::IndValue),
{
    reveal_strlit("<w:ind w:left=\"");
    let s = "<w:ind w:left=\""@;
    lemma_on(r, s, 0, 9, at(r, Mode::Ind));
    lemma_on(at(r, Mode::Ind), s, 9, 15, at(r, Mode::IndValue));
}

pub proof fn lemma_indent_close(r: Reader)
    requires
        r.mode is IndValue,
    ensures
        read(r, "\" w:hanging=\"360\"/>"@, 0) == noting(r, Event::Indent { left: r.value }, Mode::Out),
{
    reveal_strlit("\" w:hanging=\"360\"/>");
    let s = "\" w:hanging=\"360\"/>"@;
    lemma_on(r, s, 0, 9, noting(r, Event::Indent { left: r.value }, Mode::Tag));
    lemma_on(
        noting(r, Event::Indent { left: r.value }, Mode::Tag),
        s,
        9,
        18,
        noting(r, Event::Indent { left: r.value }, Mode::Tag),
    );
    lemma_on(
        noting(r, Event::Indent { left: r.value }, Mode::Tag),
        s,
        18,
        19,
        noting(r, Event::Indent { left: r.value }, Mode::Out),
    );
}

pub proof fn lemma_props_close(r: Reader)
    requires
        r.mode is Out,
    ensures
        read(r, "</w:pPr>"@, 0) == r,
{
    reveal_strlit("</w:pPr>");
    let s = "</w:pPr>"@;
    lemma_on(r, s, 0, 8, at(r, Mode::Out));
}

pub proof fn lemma_para_close(r: Reader)
    requires
        r.mode is Out,
    ensures
        read(r, "</w:p>"@, 0) == r,
{
    reveal_strlit("</w:p>");
    let s = "</w:p>"@;
    lemma_on(r, s, 0, 6, at(r, Mode::Out));
}

pub proof fn lemma_run_open(r: Reader)
    requires
        r.mode is Out,
    ensures
        read(r, "<w:r>"@, 0) == r,
{
    reveal_strlit("<w:r>");
    let s = "<w:r>"@;
    lemma_on(r, s, 0, 5, at(r, Mode::Out));
}

pub proof fn lemma_run_props_open(r: Reader)
    requires
        r.mode is Out,
    ensures
        read(r, "<w:rPr>"@, 0) == r,
{
    reveal_strlit("<w:rPr>");
    let s = "<w:rPr>"@;
    lemma_on(r, s, 0, 7, at(r, Mode::Out));
}

pub proof fn lemma_run_props_close(r: Reader)
    requires
        r.mode is Out,
    ensures
        read(r, "</w:rPr>"@, 0) == r,
{
    reveal_strlit("</w:rPr>");
    let s = "</w:rPr>"@;
    lemma_on(r, s, 0, 8, at(r, Mode::Out));
}

pub proof fn lemma_bold(r: Reader)
    requires
        r.mode is Out,
    ensures
        read(r, "<w:b/>"@, 0) == (Reader { mode: Mode::Out, bold: true, ..r }),
{
    reveal_strlit("<w:b/>");
    let s = "<w:b/>"@;
    lemma_on(r, s, 0, 6, Reader { mode: Mode::Out, bold: true, ..r });
}

pub proof fn lemma_italic(r: Reader)
    requires
        r.mode is Out,
    ensures
        read(r, "<w:i/>"@, 0) == (Reader { mode: Mode::Out, italic: true, ..r }),
{
    reveal_strlit("<w:i/>");
    let s = "<w:i/>"@;
    lemma_on(r, s, 0, 6, Reader { mode: Mode::Out, italic: true, ..r });
}

pub proof fn lemma_strike(r: Reader)
    requires
        r.mode is Out,
    ensures
        read(r, "<w:strike/>"@, 0) == (Reader { mode: Mode::Out, strike: true, ..r }),
{
    reveal_strlit("<w:strike/>");
    let s = "<w:strike/>"@;
    lemma_on(r, s, 0, 9, at(r, Mode::Strike));
    lemma_on(at(r, Mode::Strike), s, 9, 11, Reader { mode: Mode::Out, strike: true, ..r });
}

pub proof fn lemma_text_open(r: Reader)
    requires
        r.mode is Out,
    ensures
        read(r, "<w:t xml:space=\"preserve\">"@, 0) == at(r, Mode::Text),
{
    reveal_strlit("<w:t xml:space=\"preserve\">");
    let s = "<w:t xml:space=\"preserve\">"@;
    lemma_on(r, s, 0, 9, at(r, Mode::TextTag));
    lemma_on(at(r, Mode::TextTag), s, 9, 18, at(r, Mode::TextTag));
    lemma_on(at(r, Mode::TextTag), s, 18, 26, at(r, Mode::Text));
}

pub proof fn lemma_text_close(r: Reader)
    requires
        r.mode is Text,
    ensures
        read(r, "</w:t></w:r>"@, 0) == (Reader { mode: Mode::Out, bold: false, italic: false, strike: false, ..r }),
{
    reveal_strlit("</w:t></w:r>");
    let s = "</w:t></w:r>"@;
    lemma_on(r, s, 0, 9, at(r, Mode::CloseW));
    lemma_on(
        at(r, Mode::CloseW),
        s,
        9,
        12,
        Reader { mode: Mode::Out, bold: false, italic: false, strike: false, ..r },
    );
}

pub proof fn lemma_cell_open(r: Reader)
    requires
        r.mode is Out,
    ensures
        read(r, "<w:tc><w:tcPr><w:tcW w:w=\"0\" w:type=\"auto\"/></w:tcPr>"@, 0) == noting(r, Event::Cell, Mode::Out),
{
    reveal_strlit("<w:tc><w:tcPr><w:tcW w:w=\"0\" w:type=\"auto\"/></w:tcPr>");
    let s = "<w:tc><w:tcPr><w:tcW w:w=\"0\" w:type=\"auto\"/></w:tcPr>"@;
    lemma_on(r, s, 0, 9, noting(r, Event::Cell, Mode::OpenColon));
    lemma_on(noting(r, Event::Cell, Mode::OpenColon), s, 9, 18, noting(r, Event::Cell, Mode::T));
    lemma_on(noting(r, Event::Cell, Mode::T), s, 18, 27, noting(r, Event::Cell, Mode::Tag));
    lemma_on(noting(r, Event::Cell, Mode::Tag), s, 27, 36, noting(r, Event::Cell, Mode::Tag));
    lemma_on(noting(r, Event::Cell, Mode::Tag), s, 36, 45, noting(r, Event::Cell, Mode::Open));
    lemma_on(noting(r, Event::Cell, Mode::Open), s, 45, 53, noting(r, Event::Cell, Mode::Out));
}

pub proof fn lemma_cell_close(r: Reader)
    requires
        r.mode is Out,
    ensures
        read(r, "</w:tc>"@, 0) == r,
{
    reveal_strlit("</w:tc>");
    let s = "</w:tc>"@;
    lemma_on(r, s, 0, 7, at(r, Mode::Out));
}

pub proof fn lemma_row_open(r: Reader)
    requires
        r.mode is Out,
    ensures
        read(r, "<w:tr>"@, 0) == noting(r, Event::Row, Mode::Out),
{
    reveal_strlit("<w:tr>");
    let s = "<w:tr>"@;
    lemma_on(r, s, 0, 6, noting(r, Event::Row, Mode::Out));
}

pub proof fn lemma_row_close(r: Reader)
    requires
        r.mode is Out,
    ensures
        read(r, "</w:tr>"@, 0) == r,
{
    reveal_strlit("</w:tr>");
    let s = "</w:tr>"@;
    lemma_on(r, s, 0, 7, at(r, Mode::Out));
}

pub proof fn lemma_table_close(r: Reader)
    requires
        r.mode is Out,
    ensures
        read(r, "</w:tbl><w:p/>"@, 0) == r,
{
    reveal_strlit("</w:tbl><w:p/>");
    let s = "</w:tbl><w:p/>"@;
    lemma_on(r, s, 0, 9, at(r, Mode::Open));
    lemma_on(at(r, Mode::Open), s, 9, 14, at(r, Mode::Out));
}

/// A value is read up to the mark that ends it.
pub proof fn lemma_value(r: Reader, s: Seq<char>, from: int)
    requires
        r.mode is StyleValue || r.mode is IndValue,
        0 <= from <= s.len(),
        forall|i: int| 0 <= i < s.len() ==> #[trigger] s[i] != '"',
    ensures
        read(r, s, from) == (Reader { value: r.value + s.skip(from), ..r }),
    decreases s.len() - from,
{
    if from < s.len() {
        lemma_value(step(r, s[from]), s, from + 1);
        assert(r.value.push(s[from]) + s.skip(from + 1) =~= r.value + s.skip(from));
    } else {
        assert(r.value + s.skip(from) =~= r.value);
    }
}

/// The characters of a text, each in the emphasis of a run.
pub open spec fn letters(text: Seq<char>, like: Run) -> Seq<Event>
    decreases text.len(),
{
    if text.len() == 0 {
        Seq::empty()
    } else {
        letters(text.drop_last(), like).push(
            Event::Letter {
                c: text.last(),
                bold: like.bold,
                italic: like.italic,
                strike: like.strike,
            },
        )
    }
}

proof fn lemma_escaped_char(r: Reader, c: char)
    requires
        r.mode is Text,
        r.value == Seq::<char>::empty(),
    ensures
        read(r, escaped_char(c), 0) == noting(r, letter(r, c), Mode::Text),
{
    reveal_strlit("&amp;");
    reveal_strlit("&lt;");
    reveal_strlit("&gt;");
    reveal_strlit("&quot;");
    reveal_strlit("amp");
    reveal_strlit("lt");
    reveal_strlit("gt");
    let s = escaped_char(c);
    if c == '&' {
        lemma_on(r, s, 0, 1, at(r, Mode::Entity));
        let e = Reader { mode: Mode::Entity, value: "amp"@, ..r };
        assert(Seq::<char>::empty().push('a').push('m').push('p') =~= "amp"@);
        lemma_on(at(r, Mode::Entity), s, 1, 4, e);
        lemma_on(e, s, 4, 5, noting(r, letter(r, c), Mode::Text));
    } else if c == '<' {
        lemma_on(r, s, 0, 1, at(r, Mode::Entity));
        let e = Reader { mode: Mode::Entity, value: "lt"@, ..r };
        assert(Seq::<char>::empty().push('l').push('t') =~= "lt"@);
        lemma_on(at(r, Mode::Entity), s, 1, 3, e);
        lemma_on(e, s, 3, 4, noting(r, letter(r, c), Mode::Text));
    } else if c == '>' {
        lemma_on(r, s, 0, 1, at(r, Mode::Entity));
        let e = Reader { mode: Mode::Entity, value: "gt"@, ..r };
        assert(Seq::<char>::empty().push('g').push('t') =~= "gt"@);
        assert("gt"@[0] == 'g' && "lt"@[0] == 'l');
        lemma_on(at(r, Mode::Entity), s, 1, 3, e);
        lemma_on(e, s, 3, 4, noting(r, letter(r, c), Mode::Text));
    } else if c == '"' {
        reveal_strlit("quot");
        lemma_on(r, s, 0, 1, at(r, Mode::Entity));
        let e = Reader { mode: Mode::Entity, value: "quot"@, ..r };
        assert(Seq::<char>::empty().push('q').push('u').push('o').push('t') =~= "quot"@);
        lemma_on(at(r, Mode::Entity), s, 1, 5, e);
        lemma_on(e, s, 5, 6, noting(r, letter(r, c), Mode::Text));
    } else {
        lemma_on(r, s, 0, 1, noting(r, letter(r, c), Mode::Text));
    }
}

pub proof fn lemma_escaped(r: Reader, text: Seq<char>, like: Run)
    requires
        r.mode is Text,
        r.value == Seq::<char>::empty(),
        r.bold == like.bold,
        r.italic == like.italic,
        r.strike == like.strike,
    ensures
        read(r, escaped(text), 0) == (Reader { events: r.events + letters(text, like), ..r }),
    decreases text.len(),
{
    if text.len() == 0 {
        assert(r.events + letters(text, like) =~= r.events);
    } else {
        let front = text.drop_last();
        lemma_escaped(r, front, like);
        let then = read(r, escaped(front), 0);
        lemma_read_append(r, escaped(front), escaped_char(text.last()), 0);
        lemma_escaped_char(then, text.last());
        assert(then.events.push(letter(then, text.last())) =~= r.events + letters(text, like));
    }
}

} // verus!
