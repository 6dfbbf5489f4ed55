//! Putting a translation into a church's Bible, and taking one out.
//!
//! A pack is a gzipped file of verses, one to a line. What is in it, whether it
//! is whole, and what is written to the library for it is decided here; the
//! library is a database that somebody else opens, locks and writes to. The two
//! states a church can be left in are "as it was" and "with the translation".

use crate::order::{in_order, lemma_sorted, sort, sorted, views};
use crate::packs::Pack;
use crate::text::{
    blank, chars_list, chars_of, comes_before, decimal, is_blank, is_digit, join, joined,
    lemma_blank, lemma_decimal, lemma_joined_pieces, lemma_precedes_order, lemma_precedes_total,
    lemma_prefix_step, lemma_split_on_both, lemma_split_on_nonempty, lemma_split_on_one,
    lemma_split_on_piece, lines, lines_of, parse_i64, precedes, push_decimal, same_text,
    signed_value, split_at_char, split_on, text_of, texts, whitespace,
};
use std::io::Read;
use vstd::prelude::*;

verus! {

/// Bumped when the shape of the library changes in a way an existing one cannot
/// be migrated into.
pub const SCHEMA_VERSION: i64 = 3;

// --------------------------------------------------------------------- verses

#[derive(Debug, PartialEq, Eq)]
pub struct Verse {
    pub book_number: i64,
    pub book: String,
    pub chapter: i64,
    pub verse: i64,
    pub text: String,
}

/// A verse as contracts speak of it.
pub struct Passage {
    pub book_number: i64,
    pub book: Seq<char>,
    pub chapter: i64,
    pub verse: i64,
    pub text: Seq<char>,
}

impl View for Verse {
    type V = Passage;

    open spec fn view(&self) -> Passage {
        Passage {
            book_number: self.book_number,
            book: self.book@,
            chapter: self.chapter,
            verse: self.verse,
            text: self.text@,
        }
    }
}

/// What is wrong with a pack.
#[derive(Debug, Clone, Copy, PartialEq, Eq, Structural)]
pub enum Flaw {
    /// It cannot be decompressed, or what comes out is no text.
    Compressed,
    /// A line has fewer than five fields. Lines are counted from one.
    TooFewFields { line: usize },
    BookNumber,
    Chapter,
    Verse,
    /// It is truncated, or is not the file its entry describes.
    Count { imported: usize, expected: i64 },
}

/// A number in decimal, with its sign.
pub open spec fn signed_decimal(n: int) -> Seq<char> {
    if n < 0 {
        "-"@ + decimal((-n) as nat)
    } else {
        decimal(n as nat)
    }
}

fn push_signed(out: &mut String, n: i64)
    ensures
        final(out)@ == old(out)@ + signed_decimal(n as int),
{
    if n < 0 {
        out.push_str("-");
        push_decimal(out, (-(n as i128)) as u64);
        assert(final(out)@ =~= old(out)@ + signed_decimal(n as int));
    } else {
        push_decimal(out, n as u64);
    }
}

/// What is said of a flawed pack, which came from a path.
pub open spec fn flaw_words(flaw: Flaw, path: Seq<char>) -> Seq<char> {
    match flaw {
        Flaw::Compressed => "could not decompress "@ + path,
        Flaw::TooFewFields { line } => path + ": line "@ + decimal(line as nat)
            + " has too few fields"@,
        Flaw::BookNumber => "bad book number"@,
        Flaw::Chapter => "bad chapter number"@,
        Flaw::Verse => "bad verse number"@,
        Flaw::Count { imported, expected } => path + " yielded "@ + decimal(imported as nat)
            + " verses but "@ + signed_decimal(expected as int) + " were expected"@,
    }
}

impl Flaw {
    /// What is said of a flawed pack, which came from a path.
    pub fn message(&self, path: &str) -> (r: String)
        ensures
            r@ == flaw_words(*self, path@),
    {
        match self {
            Flaw::Compressed => {
                let mut out: String = "could not decompress ".to_owned();
                out.push_str(path);
                out
            },
            Flaw::TooFewFields { line } => {
                let mut out: String = path.to_owned();
                out.push_str(": line ");
                push_decimal(&mut out, *line as u64);
                out.push_str(" has too few fields");
                out
            },
            Flaw::BookNumber => "bad book number".to_owned(),
            Flaw::Chapter => "bad chapter number".to_owned(),
            Flaw::Verse => "bad verse number".to_owned(),
            Flaw::Count { imported, expected } => {
                let mut out: String = path.to_owned();
                out.push_str(" yielded ");
                push_decimal(&mut out, *imported as u64);
                out.push_str(" verses but ");
                push_signed(&mut out, *expected);
                out.push_str(" were expected");
                out
            },
        }
    }
}

/// The five fields of a line: what follows the fourth tab is the fifth, tabs
/// and all.
pub open spec fn five_fields(line: Seq<char>) -> Option<Seq<Seq<char>>> {
    let pieces = split_on(line, '\t');
    if pieces.len() < 5 {
        None
    } else {
        Some(pieces.take(4).push(joined(pieces.skip(4), "\t"@)))
    }
}

/// The verse on a line, which is the `number`th.
pub open spec fn verse_on(line: Seq<char>, number: nat) -> Result<Passage, Flaw> {
    match five_fields(line) {
        Some(fields) => match (
            signed_value(fields[0]),
            signed_value(fields[2]),
            signed_value(fields[3]),
        ) {
            (None, _, _) => Err(Flaw::BookNumber),
            (_, None, _) => Err(Flaw::Chapter),
            (_, _, None) => Err(Flaw::Verse),
            (Some(book_number), Some(chapter), Some(verse)) => Ok(
                Passage {
                    book_number: book_number as i64,
                    book: fields[1],
                    chapter: chapter as i64,
                    verse: verse as i64,
                    text: fields[4],
                },
            ),
        },
        None => Err(Flaw::TooFewFields { line: number as usize }),
    }
}

/// The verses on some lines, from the `i`th on; blank lines are none. The first
/// flaw is the one that counts.
pub open spec fn verses_from(lines: Seq<Seq<char>>, i: int) -> Result<Seq<Passage>, Flaw>
    decreases lines.len() - i,
{
    if i < 0 || i >= lines.len() {
        Ok(Seq::empty())
    } else if blank(lines[i]) {
        verses_from(lines, i + 1)
    } else {
        match (verse_on(lines[i], (i + 1) as nat), verses_from(lines, i + 1)) {
            (Err(flaw), _) => Err(flaw),
            (_, Err(flaw)) => Err(flaw),
            (Ok(verse), Ok(rest)) => Ok(seq![verse] + rest),
        }
    }
}

/// The verses in a text.
pub open spec fn verses_in(raw: Seq<char>) -> Result<Seq<Passage>, Flaw> {
    verses_from(lines_of(raw), 0)
}

fn read_verse(line: &[char], number: usize) -> (r: Result<Verse, Flaw>)
    ensures
        match verse_on(line@, number as nat) {
            Ok(passage) => r matches Ok(verse) && verse@ == passage,
            Err(flaw) => r == Err::<Verse, Flaw>(flaw),
        },
{
    let pieces: Vec<Vec<char>> = split_at_char(line, '\t');
    let ghost listed = chars_list(pieces@);
    assert(listed.len() == pieces@.len());
    if pieces.len() < 5 {
        return Err(Flaw::TooFewFields { line: number });
    }
    let tab: Vec<char> = chars_of("\t");
    let rest: &[Vec<char>] = vstd::slice::slice_subrange(pieces.as_slice(), 4, pieces.len());
    assert(chars_list(rest@) =~= listed.skip(4));
    let text: Vec<char> = join(rest, tab.as_slice());
    let ghost fields = five_fields(line@)->0;
    assert(fields[0] == pieces@[0]@ && fields[1] == pieces@[1]@ && fields[2] == pieces@[2]@
        && fields[3] == pieces@[3]@ && fields[4] == text@);
    let book_number: i64 = match parse_i64(pieces[0].as_slice()) {
        Some(n) => n,
        None => return Err(Flaw::BookNumber),
    };
    let chapter: i64 = match parse_i64(pieces[2].as_slice()) {
        Some(n) => n,
        None => return Err(Flaw::Chapter),
    };
    let verse: i64 = match parse_i64(pieces[3].as_slice()) {
        Some(n) => n,
        None => return Err(Flaw::Verse),
    };
    Ok(
        Verse {
            book_number,
            book: text_of(pieces[1].as_slice()),
            chapter,
            verse,
            text: text_of(text.as_slice()),
        },
    )
}

pub open spec fn is_read(r: Result<Vec<Verse>, Flaw>, wanted: Result<Seq<Passage>, Flaw>) -> bool {
    match wanted {
        Ok(passages) => r matches Ok(verses) && views(verses@) == passages,
        Err(flaw) => r matches Err(f) && f == flaw,
    }
}

/// Reads the verses in a text.
pub fn read_verses(raw: &str) -> (r: Result<Vec<Verse>, Flaw>)
    ensures
        is_read(r, verses_in(raw@)),
{
    let all: Vec<Vec<char>> = lines(chars_of(raw).as_slice());
    let ghost listed = lines_of(raw@);
    let mut out: Vec<Verse> = Vec::new();
    let mut i: usize = 0;
    assert(chars_list(all@).len() == all@.len());
    assert(views(out@) =~= Seq::empty());
    while i < all.len()
        invariant
            i <= all.len(),
            listed == lines_of(raw@),
            chars_list(all@) == listed,
            listed.len() == all@.len(),
            verses_in(raw@) == match verses_from(listed, i as int) {
                Ok(rest) => Ok::<Seq<Passage>, Flaw>(views(out@) + rest),
                Err(flaw) => Err(flaw),
            },
        decreases all.len() - i,
    {
        assert(chars_list(all@)[i as int] == all@[i as int]@);
        let line: String = text_of(all[i].as_slice());
        if !is_blank(line.as_str()) {
            match read_verse(all[i].as_slice(), i + 1) {
                Ok(verse) => {
                    let ghost before = views(out@);
                    let ghost one = verse@;
                    out.push(verse);
                    assert(views(out@) =~= before.push(one));
                    assert(verses_from(listed, i + 1) matches Ok(rest) ==> views(out@) + rest
                        =~= before + (seq![one] + rest));
                },
                Err(flaw) => return Err(flaw),
            }
        }
        i += 1;
    }
    assert(views(out@) + Seq::<Passage>::empty() =~= views(out@));
    Ok(out)
}

/// The text that gzipped bytes hold, or nothing where they hold none.
pub uninterp spec fn gunzipped(bytes: Seq<u8>) -> Option<Seq<char>>;

/// `flate2::read::GzDecoder`, read to its end as text: one gzip member, checked
/// against its own checksum. Whether it can be read, and what it reads, depends
/// on the bytes alone.
#[verifier::external_body]
fn gunzip(bytes: &[u8]) -> (r: Option<String>)
    ensures
        match gunzipped(bytes@) {
            Some(text) => r matches Some(raw) && raw@ == text,
            None => r is None,
        },
{
    let mut raw = String::new();
    match flate2::read::GzDecoder::new(bytes).read_to_string(&mut raw) {
        Ok(_) => Some(raw),
        Err(_) => None,
    }
}

/// The verses of a pack, where there are as many as its entry says.
pub open spec fn counted(raw: Option<Seq<char>>, expected: i64) -> Result<Seq<Passage>, Flaw> {
    match raw {
        Some(raw) => match verses_in(raw) {
            Ok(verses) => if verses.len() == expected {
                Ok(verses)
            } else {
                Err(Flaw::Count { imported: verses.len() as usize, expected })
            },
            Err(flaw) => Err(flaw),
        },
        None => Err(Flaw::Compressed),
    }
}

/// The verses of a pack once it has been decompressed, where there are as many
/// as its entry says: importing part of it would leave a Bible with holes.
pub fn check_verses(raw: Option<&str>, expected: i64) -> (r: Result<Vec<Verse>, Flaw>)
    ensures
        is_read(
            r,
            counted(
                match raw {
                    Some(text) => Some(text@),
                    None => None,
                },
                expected,
            ),
        ),
{
    match raw {
        Some(text) => match read_verses(text) {
            Ok(verses) => {
                assert(views(verses@).len() == verses@.len());
                if expected >= 0 && verses.len() as u64 == expected as u64 {
                    Ok(verses)
                } else {
                    Err(Flaw::Count { imported: verses.len(), expected })
                }
            },
            Err(flaw) => Err(flaw),
        },
        None => Err(Flaw::Compressed),
    }
}

/// The verses of a pack as it was downloaded: all of them, or what is wrong with
/// it.
pub fn unpack(bytes: &[u8], pack: &Pack) -> (r: Result<Vec<Verse>, Flaw>)
    ensures
        is_read(r, counted(gunzipped(bytes@), pack.verse_count)),
{
    match gunzip(bytes) {
        Some(raw) => check_verses(Some(raw.as_str()), pack.verse_count),
        None => check_verses(None, pack.verse_count),
    }
}

/// A pack that is taken has exactly as many verses as its entry says: there is
/// no Bible with holes in it.
pub proof fn law_a_pack_is_taken_whole(raw: Option<Seq<char>>, expected: i64)
    ensures
        counted(raw, expected) matches Ok(verses) ==> verses.len() == expected && (raw matches Some(
            text,
        ) && verses_in(text) == Ok::<Seq<Passage>, Flaw>(verses)),
{
}

// ---------------------------------------------------------------- the library

/// A translation as the library lists it.
#[derive(Debug, PartialEq, Eq)]
pub struct Row {
    pub id: String,
    pub name: String,
    pub year: i64,
    /// The order it arrived in.
    pub ordinal: i64,
    pub checksum: String,
    pub verse_count: i64,
    /// Empty where the text carries none.
    pub licence: String,
    pub attribution: String,
}

/// A row as contracts speak of it.
pub struct Entry {
    pub id: Seq<char>,
    pub name: Seq<char>,
    pub year: i64,
    pub ordinal: i64,
    pub checksum: Seq<char>,
    pub verse_count: i64,
    pub licence: Seq<char>,
    pub attribution: Seq<char>,
}

impl View for Row {
    type V = Entry;

    open spec fn view(&self) -> Entry {
        Entry {
            id: self.id@,
            name: self.name@,
            year: self.year,
            ordinal: self.ordinal,
            checksum: self.checksum@,
            verse_count: self.verse_count,
            licence: self.licence@,
            attribution: self.attribution@,
        }
    }
}

pub open spec fn or_nothing(text: Option<String>) -> Seq<char> {
    match text {
        Some(text) => text@,
        None => Seq::empty(),
    }
}

/// How a pack is listed once it is installed.
pub open spec fn entry_for(pack: Pack, ordinal: i64) -> Entry {
    Entry {
        id: pack.id@,
        name: pack.name@,
        year: pack.year,
        ordinal,
        checksum: pack.checksum@,
        verse_count: pack.verse_count,
        licence: or_nothing(pack.licence),
        attribution: or_nothing(pack.attribution),
    }
}

/// One thing that is done to the library.
#[derive(Debug, PartialEq, Eq)]
pub enum Change {
    /// Every verse of a translation goes.
    DropVerses { id: String },
    /// These verses of a translation come.
    AddVerses { id: String, verses: Vec<Verse> },
    /// A translation is listed, in place of what was listed under its id.
    List { row: Row },
    /// A translation is no longer listed.
    Unlist { id: String },
    /// The meaning index of a translation goes.
    DropVectors { id: String },
    /// A translation is one the church does not want back.
    Decline { id: String },
    /// A translation is one the church has asked for again.
    Welcome { id: String },
    /// The text index is built anew from the verses there are.
    Reindex,
}

/// A change as contracts speak of it.
pub enum Deed {
    DropVerses { id: Seq<char> },
    AddVerses { id: Seq<char>, verses: Seq<Passage> },
    List { row: Entry },
    Unlist { id: Seq<char> },
    DropVectors { id: Seq<char> },
    Decline { id: Seq<char> },
    Welcome { id: Seq<char> },
    Reindex,
}

impl View for Change {
    type V = Deed;

    open spec fn view(&self) -> Deed {
        match *self {
            Change::DropVerses { id } => Deed::DropVerses { id: id@ },
            Change::AddVerses { id, verses } => Deed::AddVerses {
                id: id@,
                verses: views(verses@),
            },
            Change::List { row } => Deed::List { row: row@ },
            Change::Unlist { id } => Deed::Unlist { id: id@ },
            Change::DropVectors { id } => Deed::DropVectors { id: id@ },
            Change::Decline { id } => Deed::Decline { id: id@ },
            Change::Welcome { id } => Deed::Welcome { id: id@ },
            Change::Reindex => Deed::Reindex,
        }
    }
}

/// What a library holds.
pub struct Holdings {
    /// The verses of each translation.
    pub verses: Map<Seq<char>, Seq<Passage>>,
    /// The translations that are listed.
    pub listed: Map<Seq<char>, Entry>,
    /// The translations with a meaning index.
    pub vectors: Set<Seq<char>>,
    /// The translations the church does not want back.
    pub declined: Set<Seq<char>>,
    /// The verses the text index finds.
    pub index: Map<Seq<char>, Seq<Passage>>,
}

/// What a change makes of a library.
pub open spec fn done(h: Holdings, deed: Deed) -> Holdings {
    match deed {
        Deed::DropVerses { id } => Holdings { verses: h.verses.remove(id), ..h },
        Deed::AddVerses { id, verses } => Holdings { verses: h.verses.insert(id, verses), ..h },
        Deed::List { row } => Holdings { listed: h.listed.insert(row.id, row), ..h },
        Deed::Unlist { id } => Holdings { listed: h.listed.remove(id), ..h },
        Deed::DropVectors { id } => Holdings { vectors: h.vectors.remove(id), ..h },
        Deed::Decline { id } => Holdings { declined: h.declined.insert(id), ..h },
        Deed::Welcome { id } => Holdings { declined: h.declined.remove(id), ..h },
        Deed::Reindex => Holdings { index: h.verses, ..h },
    }
}

/// What several changes make of a library, one after another.
pub open spec fn all_done(h: Holdings, deeds: Seq<Deed>) -> Holdings
    decreases deeds.len(),
{
    if deeds.len() == 0 {
        h
    } else {
        done(all_done(h, deeds.drop_last()), deeds.last())
    }
}

/// The order a translation arrives in: after everything installed.
pub open spec fn ordinal_after(greatest: Option<i64>) -> i64 {
    match greatest {
        Some(n) if n < i64::MAX => (n + 1) as i64,
        _ => 0,
    }
}

/// The order a translation arrives in, given the greatest there is.
pub fn next_ordinal(greatest: Option<i64>) -> (r: i64)
    ensures
        r == ordinal_after(greatest),
{
    match greatest {
        Some(n) => if n < i64::MAX {
            n + 1
        } else {
            0
        },
        None => 0,
    }
}

/// What putting a pack's verses in does to the library, all of it or none: the
/// verses and the listing.
pub open spec fn import_deeds(pack: Pack, ordinal: i64, verses: Seq<Passage>) -> Seq<Deed> {
    seq![
        Deed::DropVerses { id: pack.id@ },
        Deed::AddVerses { id: pack.id@, verses },
        Deed::List { row: entry_for(pack, ordinal) },
    ]
}

/// What follows once an installed pack's verses are in: they are indexed, and
/// the pack is no longer refused.
pub open spec fn after_import(pack: Pack) -> Seq<Deed> {
    seq![Deed::Reindex, Deed::Welcome { id: pack.id@ }]
}

/// What is to be done to the library.
#[derive(Debug, PartialEq, Eq)]
pub struct Plan {
    /// All of this or none of it.
    pub together: Vec<Change>,
    /// And this once that is done.
    pub afterwards: Vec<Change>,
}

fn or_empty(text: &Option<String>) -> (r: String)
    ensures
        r@ == or_nothing(*text),
{
    match text {
        Some(text) => text.clone(),
        None => {
            let none: String = String::new();
            assert(none@ =~= Seq::empty());
            none
        },
    }
}

/// What putting a pack's verses in does to the library, replacing whatever was
/// there under its id.
pub fn import_plan(pack: &Pack, ordinal: i64, verses: Vec<Verse>) -> (r: Plan)
    ensures
        views(r.together@) == import_deeds(*pack, ordinal, views(verses@)),
        views(r.afterwards@) == seq![Deed::Reindex],
{
    let ghost passages = views(verses@);
    let mut together: Vec<Change> = Vec::new();
    together.push(Change::DropVerses { id: pack.id.clone() });
    together.push(Change::AddVerses { id: pack.id.clone(), verses });
    let row = Row {
        id: pack.id.clone(),
        name: pack.name.clone(),
        year: pack.year,
        ordinal,
        checksum: pack.checksum.clone(),
        verse_count: pack.verse_count,
        licence: or_empty(&pack.licence),
        attribution: or_empty(&pack.attribution),
    };
    together.push(Change::List { row });
    let mut afterwards: Vec<Change> = Vec::new();
    afterwards.push(Change::Reindex);
    assert(views(together@) =~= import_deeds(*pack, ordinal, passages));
    assert(views(afterwards@) =~= seq![Deed::Reindex]);
    Plan { together, afterwards }
}

/// Whether a plan is the one these verses call for, or the flaw is theirs.
pub open spec fn is_planned(
    r: Result<Plan, Flaw>,
    read: Result<Seq<Passage>, Flaw>,
    pack: Pack,
    ordinal: i64,
    afterwards: Seq<Deed>,
) -> bool {
    match read {
        Ok(verses) => r matches Ok(plan) && views(plan.together@) == import_deeds(
            pack,
            ordinal,
            verses,
        ) && views(plan.afterwards@) == afterwards,
        Err(flaw) => r matches Err(f) && f == flaw,
    }
}

/// What importing a pack does to the library, given the file it came in. A file
/// with a flaw does nothing.
pub fn import(pack: &Pack, ordinal: i64, bytes: &[u8]) -> (r: Result<Plan, Flaw>)
    ensures
        is_planned(
            r,
            counted(gunzipped(bytes@), pack.verse_count),
            *pack,
            ordinal,
            seq![Deed::Reindex],
        ),
{
    match unpack(bytes, pack) {
        Ok(verses) => Ok(import_plan(pack, ordinal, verses)),
        Err(flaw) => Err(flaw),
    }
}

/// What installing a pack does to the library, given the file it came in:
/// it arrives after everything that is there, and is no longer refused.
/// `greatest` is the greatest ordinal there is.
pub fn install(pack: &Pack, greatest: Option<i64>, bytes: &[u8]) -> (r: Result<Plan, Flaw>)
    ensures
        is_planned(
            r,
            counted(gunzipped(bytes@), pack.verse_count),
            *pack,
            ordinal_after(greatest),
            after_import(*pack),
        ),
{
    match import(pack, next_ordinal(greatest), bytes) {
        Ok(plan) => {
            let mut afterwards: Vec<Change> = plan.afterwards;
            let ghost first = views(afterwards@);
            afterwards.push(Change::Welcome { id: pack.id.clone() });
            assert(views(afterwards@) =~= first.push(Deed::Welcome { id: pack.id@ }));
            assert(views(afterwards@) =~= after_import(*pack));
            Ok(Plan { together: plan.together, afterwards })
        },
        Err(flaw) => Err(flaw),
    }
}

/// What clears a translation away: everything derived from it goes.
pub open spec fn clearing_deeds(id: Seq<char>) -> Seq<Deed> {
    seq![Deed::DropVectors { id }, Deed::DropVerses { id }, Deed::Unlist { id }]
}

/// What removing a translation does to the library: it is cleared away, and that
/// it was removed is remembered.
pub open spec fn removal_deeds(id: Seq<char>) -> Seq<Deed> {
    clearing_deeds(id).push(Deed::Decline { id })
}

/// A removal that failed: why, and what is done all the same.
#[derive(Debug, PartialEq, Eq)]
pub struct Unremoved {
    pub words: String,
    pub together: Vec<Change>,
}

/// What comes of being asked to remove a translation, where there are
/// `installed` of them and `verses` verses of this one: what is done together
/// and what afterwards; or why it was not removed, and what is done all the same.
/// The last one stays. One without verses is not installed: what an unfinished
/// copy left of it is cleared away, and it is not remembered as removed.
pub open spec fn removal(id: Seq<char>, installed: i64, verses: i64) -> Result<
    (Seq<Deed>, Seq<Deed>),
    (Seq<char>, Seq<Deed>),
> {
    if installed <= 1 {
        Err(
            (
                "this is the only translation installed, so it cannot be removed"@,
                Seq::empty(),
            ),
        )
    } else if verses <= 0 {
        Err((id + " is not installed"@, clearing_deeds(id)))
    } else {
        Ok((removal_deeds(id), seq![Deed::Reindex]))
    }
}

fn clearing(id: &str) -> (r: Vec<Change>)
    ensures
        views(r@) == clearing_deeds(id@),
{
    let mut together: Vec<Change> = Vec::new();
    together.push(Change::DropVectors { id: id.to_owned() });
    together.push(Change::DropVerses { id: id.to_owned() });
    together.push(Change::Unlist { id: id.to_owned() });
    assert(views(together@) =~= clearing_deeds(id@));
    together
}

/// What removing a translation does to the library: `installed` is how many
/// there are, and `verses` how many verses of this one.
pub fn remove(id: &str, installed: i64, verses: i64) -> (r: Result<Plan, Unremoved>)
    ensures
        match removal(id@, installed, verses) {
            Ok((together, afterwards)) => r matches Ok(plan) && views(plan.together@) == together
                && views(plan.afterwards@) == afterwards,
            Err((words, together)) => r matches Err(not) && not.words@ == words && views(
                not.together@,
            ) == together,
        },
{
    if installed <= 1 {
        let together: Vec<Change> = Vec::new();
        assert(views(together@) =~= Seq::empty());
        return Err(
            Unremoved {
                words:
                    "this is the only translation installed, so it cannot be removed".to_owned(),
                together,
            },
        );
    }
    let mut together: Vec<Change> = clearing(id);
    if verses <= 0 {
        let mut words: String = id.to_owned();
        words.push_str(" is not installed");
        return Err(Unremoved { words, together });
    }
    together.push(Change::Decline { id: id.to_owned() });
    let mut afterwards: Vec<Change> = Vec::new();
    afterwards.push(Change::Reindex);
    assert(views(together@) =~= removal_deeds(id@));
    assert(views(afterwards@) =~= seq![Deed::Reindex]);
    Ok(Plan { together, afterwards })
}

/// Installing puts exactly the pack's verses under its id, lists it, lets the
/// index find it, forgets that it was ever refused, and leaves every other
/// translation alone.
pub proof fn law_an_install_is_whole_and_forgets_a_removal(
    h: Holdings,
    pack: Pack,
    ordinal: i64,
    verses: Seq<Passage>,
    other: Seq<char>,
)
    requires
        other != pack.id@,
    ensures
        ({
            let after = all_done(h, import_deeds(pack, ordinal, verses) + after_import(pack));
            &&& after.verses.contains_key(pack.id@) && after.verses[pack.id@] == verses
            &&& after.listed.contains_key(pack.id@) && after.listed[pack.id@] == entry_for(
                pack,
                ordinal,
            )
            &&& after.index == after.verses
            &&& !after.declined.contains(pack.id@)
            &&& after.verses.contains_key(other) == h.verses.contains_key(other)
            &&& h.verses.contains_key(other) ==> after.verses[other] == h.verses[other]
            &&& after.listed.contains_key(other) == h.listed.contains_key(other)
            &&& after.declined.contains(other) == h.declined.contains(other)
        }),
{
    reveal_with_fuel(all_done, 6);
    let deeds = import_deeds(pack, ordinal, verses) + after_import(pack);
    lemma_last_deeds(deeds);
}

proof fn lemma_last_deeds(deeds: Seq<Deed>)
    ensures
        deeds.len() > 0 ==> deeds.drop_last() == deeds.take(deeds.len() - 1),
        forall|k: int|
            0 < k <= deeds.len() ==> (#[trigger] deeds.take(k)).drop_last() == deeds.take(k - 1)
                && deeds.take(k).last() == deeds[k - 1],
{
    if deeds.len() > 0 {
        assert(deeds.drop_last() =~= deeds.take(deeds.len() - 1));
    }
    assert forall|k: int| 0 < k <= deeds.len() implies (#[trigger] deeds.take(k)).drop_last()
        == deeds.take(k - 1) && deeds.take(k).last() == deeds[k - 1] by {
        assert(deeds.take(k).drop_last() =~= deeds.take(k - 1));
    }
}

/// A removal takes only its own translation, and its index rows with it, and is
/// remembered.
pub proof fn law_a_removal_is_complete_and_remembered(
    h: Holdings,
    id: Seq<char>,
    other: Seq<char>,
)
    requires
        other != id,
    ensures
        ({
            let after = all_done(h, removal_deeds(id) + seq![Deed::Reindex]);
            &&& !after.verses.contains_key(id)
            &&& !after.listed.contains_key(id)
            &&& !after.vectors.contains(id)
            &&& !after.index.contains_key(id)
            &&& after.declined.contains(id)
            &&& after.verses.contains_key(other) == h.verses.contains_key(other)
            &&& h.verses.contains_key(other) ==> after.verses[other] == h.verses[other]
            &&& after.listed.contains_key(other) == h.listed.contains_key(other)
            &&& after.vectors.contains(other) == h.vectors.contains(other)
            &&& after.declined.contains(other) == h.declined.contains(other)
        }),
{
    reveal_with_fuel(all_done, 6);
    let deeds = removal_deeds(id) + seq![Deed::Reindex];
    lemma_last_deeds(deeds);
}

/// How many verses the library holds of a translation.
pub open spec fn verses_held(h: Holdings, id: Seq<char>) -> int {
    if h.verses.contains_key(id) {
        h.verses[id].len() as int
    } else {
        0
    }
}

/// What the library holds once a removal has been asked for.
pub open spec fn after_removal(h: Holdings, id: Seq<char>, installed: i64, verses: i64) -> Holdings {
    match removal(id, installed, verses) {
        Ok((together, afterwards)) => all_done(h, together + afterwards),
        Err((_, together)) => all_done(h, together),
    }
}

/// A removal fails exactly where the translation is the only one or has no
/// verses. Then it is not remembered, so that a translation that was never there
/// can still be put in; no verse goes, and nothing of any other translation.
/// Where nothing at all is there under the id, nothing changes.
pub proof fn law_a_failed_removal_is_not_remembered(
    h: Holdings,
    id: Seq<char>,
    installed: i64,
    verses: i64,
    other: Seq<char>,
)
    requires
        verses == verses_held(h, id),
        other != id,
    ensures
        removal(id, installed, verses) is Err <==> installed <= 1 || verses_held(h, id) == 0,
        removal(id, installed, verses) is Err ==> {
            let after = after_removal(h, id, installed, verses);
            &&& after.declined == h.declined
            &&& after.index == h.index
            &&& verses_held(after, id) == verses_held(h, id)
            &&& after.verses.contains_key(other) == h.verses.contains_key(other)
            &&& h.verses.contains_key(other) ==> after.verses[other] == h.verses[other]
            &&& after.listed.contains_key(other) == h.listed.contains_key(other)
            &&& h.listed.contains_key(other) ==> after.listed[other] == h.listed[other]
            &&& after.vectors.contains(other) == h.vectors.contains(other)
            &&& installed <= 1 || (!h.verses.contains_key(id) && !h.listed.contains_key(id)
                && !h.vectors.contains(id)) ==> after == h
        },
{
    reveal_with_fuel(all_done, 4);
    if installed > 1 {
        let deeds = clearing_deeds(id);
        lemma_last_deeds(deeds);
        let after = all_done(h, deeds);
        if !h.verses.contains_key(id) && !h.listed.contains_key(id) && !h.vectors.contains(id) {
            assert(after.verses =~= h.verses);
            assert(after.listed =~= h.listed);
            assert(after.vectors =~= h.vectors);
        }
    }
}

/// Once a removal has been asked for, nothing is left of the translation,
/// unless it is the only one, and it is remembered exactly where it had verses
/// or was remembered before.
pub proof fn law_a_removal_leaves_nothing_behind(
    h: Holdings,
    id: Seq<char>,
    installed: i64,
    verses: i64,
)
    requires
        verses == verses_held(h, id),
        installed > 1,
    ensures
        ({
            let after = after_removal(h, id, installed, verses);
            &&& !after.verses.contains_key(id)
            &&& !after.listed.contains_key(id)
            &&& !after.vectors.contains(id)
            &&& after.declined.contains(id) <==> verses > 0 || h.declined.contains(id)
        }),
{
    if verses > 0 {
        law_a_removal_is_complete_and_remembered(h, id, id.push('.'));
    } else {
        reveal_with_fuel(all_done, 4);
        lemma_last_deeds(clearing_deeds(id));
    }
}

// ----------------------------------------------------------------- what is there

/// Whether the installed copy is the pack's: the checksum catches a corrected
/// text, and the count catches an import that was interrupted.
pub open spec fn is_same_copy(
    installed: Option<(String, i64)>,
    actual: i64,
    checksum: Seq<char>,
) -> bool {
    match installed {
        Some((held, expected)) => held@ == checksum && expected > 0 && actual == expected,
        None => false,
    }
}

/// Whether the installed copy matches a pack. `installed` is the checksum and
/// the count that were recorded with it, and `actual` how many verses there
/// are.
pub fn is_current(installed: Option<(String, i64)>, actual: i64, pack: &Pack) -> (r: bool)
    ensures
        r == is_same_copy(installed, actual, pack.checksum@),
{
    match installed {
        Some((held, expected)) => {
            same_text(held.as_str(), pack.checksum.as_str()) && expected > 0 && actual == expected
        },
        None => false,
    }
}

/// A copy that was installed whole is current, until the pack's text changes.
pub proof fn law_a_whole_copy_is_current(checksum: String, count: i64, other: Seq<char>)
    requires
        count > 0,
        other != checksum@,
    ensures
        is_same_copy(Some((checksum, count)), count, checksum@),
        !is_same_copy(Some((checksum, count)), count, other),
{
}

/// The licence to record against a translation that was installed without one,
/// where there is one to record. `recorded` is what stands there.
pub fn backfill_licence(pack: &Pack, recorded: &str) -> (r: Option<(String, String)>)
    ensures
        match (pack.licence, pack.attribution) {
            (Some(licence), Some(attribution)) if recorded@.len() == 0 => r matches Some(both)
                && both.0@ == licence@ && both.1@ == attribution@,
            _ => r is None,
        },
{
    let none: bool = same_text(recorded, "");
    proof {
        reveal_strlit("");
        assert(""@ =~= Seq::<char>::empty());
        assert(none ==> recorded@.len() == 0);
        assert(recorded@.len() == 0 ==> recorded@ =~= ""@);
    }
    match (&pack.licence, &pack.attribution) {
        (Some(licence), Some(attribution)) => if none {
            Some((licence.clone(), attribution.clone()))
        } else {
            None
        },
        _ => None,
    }
}

/// Whether a library of some version has to be filled anew.
pub fn must_refill(version: i64) -> (r: bool)
    ensures
        r == (version != SCHEMA_VERSION),
{
    version != SCHEMA_VERSION
}

// --------------------------------------------------------------- attributions

/// Who is to be named, and under what licence: each pair once, where both are
/// there.
pub open spec fn to_be_named(rows: Seq<(Seq<char>, Seq<char>)>) -> Seq<(Seq<char>, Seq<char>)>
    decreases rows.len(),
{
    if rows.len() == 0 {
        Seq::empty()
    } else {
        let before = to_be_named(rows.drop_last());
        let row = rows.last();
        if row.0.len() == 0 || row.1.len() == 0 || before.contains(row) {
            before
        } else {
            before.push(row)
        }
    }
}

pub open spec fn by_attribution() -> spec_fn(
    (Seq<char>, Seq<char>),
    (Seq<char>, Seq<char>),
) -> bool {
    |a: (Seq<char>, Seq<char>), b: (Seq<char>, Seq<char>)| precedes(a.0, b.0)
}

/// How a text's source is named.
pub open spec fn credit(row: (Seq<char>, Seq<char>)) -> Seq<char> {
    row.0 + " \u{2014} "@ + row.1
}

/// The texts whose licence obliges us to name them, each line once and in order.
pub open spec fn credits(rows: Seq<(Seq<char>, Seq<char>)>) -> Seq<Seq<char>> {
    sorted(to_be_named(rows), by_attribution()).map_values(
        |row: (Seq<char>, Seq<char>)| credit(row),
    )
}

fn is_listed(list: &Vec<(String, String)>, row: &(String, String)) -> (r: bool)
    ensures
        r == views(list@).contains(row@),
{
    let ghost all = views(list@);
    let mut i: usize = 0;
    while i < list.len()
        invariant
            i <= list.len(),
            all == views(list@),
            forall|k: int| 0 <= k < i ==> #[trigger] all[k] != row@,
        decreases list.len() - i,
    {
        assert(all[i as int] == (list@[i as int].0@, list@[i as int].1@));
        if same_text(list[i].0.as_str(), row.0.as_str()) && same_text(
            list[i].1.as_str(),
            row.1.as_str(),
        ) {
            assert(all[i as int] == row@);
            return true;
        }
        i += 1;
    }
    false
}

/// The texts whose licence obliges us to name them, given the attribution and
/// the licence recorded with each translation.
pub fn attributions(rows: &[(String, String)]) -> (r: Vec<String>)
    ensures
        texts(r@) == credits(views(rows@)),
{
    let ghost all = views(rows@);
    let mut named: Vec<(String, String)> = Vec::new();
    let mut i: usize = 0;
    assert(views(named@) =~= to_be_named(all.take(0)));
    while i < rows.len()
        invariant
            i <= rows.len(),
            all == views(rows@),
            views(named@) == to_be_named(all.take(i as int)),
        decreases rows.len() - i,
    {
        proof {
            lemma_prefix_step(all, i as int);
        }
        let row: &(String, String) = &rows[i];
        assert(all[i as int] == row@);
        let attributed: bool = chars_of(row.0.as_str()).len() > 0;
        let licensed: bool = chars_of(row.1.as_str()).len() > 0;
        if attributed && licensed && !is_listed(&named, row) {
            let ghost before = views(named@);
            named.push((row.0.clone(), row.1.clone()));
            assert(views(named@) =~= before.push(row@));
        }
        i += 1;
    }
    assert(all.take(all.len() as int) =~= all);
    let before = |a: &(String, String), b: &(String, String)| -> (r: bool)
        ensures
            r == precedes(a.0@, b.0@),
        { comes_before(chars_of(a.0.as_str()).as_slice(), chars_of(b.0.as_str()).as_slice()) };
    let ordered: Vec<(String, String)> = sort(named, before, Ghost(by_attribution()));
    let ghost pairs = views(ordered@);
    let mut out: Vec<String> = Vec::new();
    let mut k: usize = 0;
    while k < ordered.len()
        invariant
            k <= ordered.len(),
            pairs == views(ordered@),
            out.len() == k,
            forall|m: int| 0 <= m < k ==> (#[trigger] out@[m])@ == credit(pairs[m]),
        decreases ordered.len() - k,
    {
        let mut line: String = ordered[k].0.clone();
        line.push_str(" \u{2014} ");
        line.push_str(ordered[k].1.as_str());
        assert(line@ =~= credit(pairs[k as int]));
        out.push(line);
        k += 1;
    }
    assert(texts(out@) =~= credits(all));
    out
}

/// Who is named is named in order, and no pair is named twice.
pub proof fn law_attributions_are_deduplicated(rows: Seq<(Seq<char>, Seq<char>)>)
    ensures
        to_be_named(rows).no_duplicates(),
        in_order(sorted(to_be_named(rows), by_attribution()), by_attribution()),
        sorted(to_be_named(rows), by_attribution()).to_multiset() == to_be_named(
            rows,
        ).to_multiset(),
{
    lemma_named_once(rows);
    let before = by_attribution();
    assert forall|a: (Seq<char>, Seq<char>), b: (Seq<char>, Seq<char>)| #[trigger]
        before(a, b) implies !before(b, a) by {
        lemma_precedes_total(a.0, b.0);
    }
    assert forall|
        a: (Seq<char>, Seq<char>),
        b: (Seq<char>, Seq<char>),
        c: (Seq<char>, Seq<char>),
    |
        !(#[trigger] before(a, b)) && !(#[trigger] before(b, c)) implies !before(a, c) by {
        lemma_precedes_order(a.0, b.0, c.0);
    }
    lemma_sorted(to_be_named(rows), before);
}

proof fn lemma_named_once(rows: Seq<(Seq<char>, Seq<char>)>)
    ensures
        to_be_named(rows).no_duplicates(),
    decreases rows.len(),
{
    if rows.len() > 0 {
        lemma_named_once(rows.drop_last());
    }
}

// ---------------------------------------------------------------- what is written

/// A verse as a line of a pack: the number of its book, the name of the book, the
/// chapter, the verse and the words, a tab between each.
pub open spec fn line_for(passage: Passage) -> Seq<char> {
    signed_decimal(passage.book_number as int) + seq!['\t'] + passage.book + seq!['\t']
        + signed_decimal(passage.chapter as int) + seq!['\t'] + signed_decimal(
        passage.verse as int,
    ) + seq!['\t'] + passage.text
}

proof fn lemma_signed(n: i64)
    ensures
        signed_value(signed_decimal(n as int)) == Some(n as int),
        !signed_decimal(n as int).contains('\t'),
        signed_decimal(n as int).len() > 0,
        !whitespace(signed_decimal(n as int)[0]),
{
    reveal_strlit("-");
    let s = signed_decimal(n as int);
    let digits = decimal(
        if n < 0 {
            (-n) as nat
        } else {
            n as nat
        },
    );
    lemma_decimal(
        if n < 0 {
            (-n) as nat
        } else {
            n as nat
        },
    );
    if n < 0 {
        assert(s =~= seq!['-'] + digits);
        assert(s.skip(1) =~= digits);
    } else {
        assert(is_digit(s[0]));
    }
    if s.contains('\t') {
        let k = choose|k: int| 0 <= k < s.len() && s[k] == '\t';
        if n < 0 {
            assert(k > 0 && digits[k - 1] == '\t');
            assert(is_digit(digits[k - 1]));
        } else {
            assert(is_digit(digits[k]));
        }
    }
}

/// A verse that was written as a line is read back as it was, whatever its words
/// are: what follows the fourth tab is the words, tabs and all.
pub proof fn law_a_line_is_read_back(passage: Passage, number: nat)
    requires
        !passage.book.contains('\t'),
    ensures
        verse_on(line_for(passage), number) == Ok::<Passage, Flaw>(passage),
        !blank(line_for(passage)),
{
    reveal_strlit("\t");
    assert("\t"@ =~= seq!['\t']);
    let a = signed_decimal(passage.book_number as int);
    let c = signed_decimal(passage.chapter as int);
    let v = signed_decimal(passage.verse as int);
    lemma_signed(passage.book_number);
    lemma_signed(passage.chapter);
    lemma_signed(passage.verse);
    lemma_split_on_one(a, '\t');
    lemma_split_on_piece(a, passage.book, '\t');
    lemma_split_on_piece(a + seq!['\t'] + passage.book, c, '\t');
    lemma_split_on_piece(a + seq!['\t'] + passage.book + seq!['\t'] + c, v, '\t');
    let head = a + seq!['\t'] + passage.book + seq!['\t'] + c + seq!['\t'] + v;
    lemma_split_on_both(head, passage.text, '\t');
    lemma_joined_pieces(passage.text, '\t');
    let line = line_for(passage);
    assert(line =~= head + seq!['\t'] + passage.text);
    let pieces = split_on(line, '\t');
    assert(split_on(head, '\t') =~= seq![a, passage.book, c, v]);
    lemma_split_on_nonempty(passage.text, '\t');
    assert(pieces.skip(4) =~= split_on(passage.text, '\t'));
    assert(pieces.take(4) =~= seq![a, passage.book, c, v]);
    assert(five_fields(line)->0 =~= seq![a, passage.book, c, v, passage.text]);
    lemma_blank(line);
    assert(line[0] == a[0]);
}

/// Verses written one to a line are read back, all of them and in order.
pub proof fn law_a_pack_is_read_back(passages: Seq<Passage>)
    requires
        forall|i: int| 0 <= i < passages.len() ==> !(#[trigger] passages[i]).book.contains('\t'),
    ensures
        verses_from(passages.map_values(|p: Passage| line_for(p)), 0) == Ok::<Seq<Passage>, Flaw>(
            passages,
        ),
{
    lemma_read_from(passages, 0);
    assert(passages.skip(0) =~= passages);
}

proof fn lemma_read_from(passages: Seq<Passage>, i: int)
    requires
        0 <= i <= passages.len(),
        forall|k: int| 0 <= k < passages.len() ==> !(#[trigger] passages[k]).book.contains('\t'),
    ensures
        verses_from(passages.map_values(|p: Passage| line_for(p)), i) == Ok::<Seq<Passage>, Flaw>(
            passages.skip(i),
        ),
    decreases passages.len() - i,
{
    let lines = passages.map_values(|p: Passage| line_for(p));
    if i < passages.len() {
        lemma_read_from(passages, i + 1);
        law_a_line_is_read_back(passages[i], (i + 1) as nat);
        assert(lines[i] == line_for(passages[i]));
        assert(seq![passages[i]] + passages.skip(i + 1) =~= passages.skip(i));
    } else {
        assert(passages.skip(i) =~= Seq::empty());
    }
}

/// A blank line is no verse and no flaw, wherever it stands.
pub proof fn law_a_blank_line_is_passed_over(lines: Seq<Seq<char>>, i: int)
    requires
        0 <= i < lines.len(),
        forall|k: int| 0 <= k < lines[i].len() ==> whitespace(#[trigger] lines[i][k]),
    ensures
        verses_from(lines, i) == verses_from(lines, i + 1),
{
    lemma_blank(lines[i]);
}

// ---------------------------------------------------------------------- credits

proof fn lemma_to_be_named(rows: Seq<(Seq<char>, Seq<char>)>, row: (Seq<char>, Seq<char>))
    ensures
        to_be_named(rows).contains(row) <==> rows.contains(row) && row.0.len() > 0 && row.1.len()
            > 0,
    decreases rows.len(),
{
    if rows.len() > 0 {
        let front = rows.drop_last();
        let before = to_be_named(front);
        let after = to_be_named(rows);
        lemma_to_be_named(front, row);
        assert(rows =~= front.push(rows.last()));
        assert(rows.contains(row) <==> front.contains(row) || row == rows.last()) by {
            if front.contains(row) {
                let k = choose|k: int| 0 <= k < front.len() && front[k] == row;
                assert(rows[k] == row);
            }
            if row == rows.last() {
                assert(rows[rows.len() - 1] == row);
            }
        }
        if after != before {
            assert(after == before.push(rows.last()));
            if before.contains(row) {
                let k = choose|k: int| 0 <= k < before.len() && before[k] == row;
                assert(after[k] == row);
            }
            if row == rows.last() {
                assert(after[after.len() - 1] == row);
            }
        }
    }
}

/// Every source that has an attribution and a licence is named, with both, and
/// nothing else is.
pub proof fn law_every_licensed_source_is_named(
    rows: Seq<(Seq<char>, Seq<char>)>,
    attribution: Seq<char>,
    licence: Seq<char>,
    k: int,
)
    ensures
        rows.contains((attribution, licence)) && attribution.len() > 0 && licence.len() > 0
            ==> credits(rows).contains(attribution + seq![' ', '\u{2014}', ' '] + licence),
        0 <= k < credits(rows).len() ==> exists|i: int|
            0 <= i < rows.len() && credits(rows)[k] == (#[trigger] rows[i]).0 + seq![
                ' ',
                '\u{2014}',
                ' ',
            ] + rows[i].1,
{
    broadcast use vstd::seq_lib::group_to_multiset_ensures;

    reveal_strlit(" \u{2014} ");
    assert(" \u{2014} "@ =~= seq![' ', '\u{2014}', ' ']);
    law_attributions_are_deduplicated(rows);
    let named = to_be_named(rows);
    let ordered = sorted(named, by_attribution());
    let row = (attribution, licence);
    lemma_to_be_named(rows, row);
    if named.contains(row) {
        assert(ordered.to_multiset().count(row) > 0);
        assert(ordered.contains(row));
        let at = choose|at: int| 0 <= at < ordered.len() && ordered[at] == row;
        assert(credits(rows)[at] == credit(row));
    }
    if 0 <= k < credits(rows).len() {
        let one = ordered[k];
        assert(ordered.contains(one));
        assert(named.to_multiset().count(one) > 0);
        assert(named.contains(one));
        lemma_to_be_named(rows, one);
        let i = choose|i: int| 0 <= i < rows.len() && rows[i] == one;
        assert(credits(rows)[k] == credit(rows[i]));
    }
}

// ------------------------------------------------------------------- in its place

/// A translation is listed as it was published, with nothing in the place of a
/// licence or an attribution that it does not have; and it comes after everything
/// that is there already.
pub proof fn law_a_translation_is_listed_as_published(pack: Pack, greatest: i64)
    requires
        greatest < i64::MAX,
    ensures
        ({
            let entry = entry_for(pack, ordinal_after(Some(greatest)));
            &&& entry.id == pack.id@
            &&& entry.name == pack.name@
            &&& entry.year == pack.year
            &&& entry.checksum == pack.checksum@
            &&& entry.verse_count == pack.verse_count
            &&& entry.licence == match pack.licence {
                Some(licence) => licence@,
                None => Seq::empty(),
            }
            &&& entry.attribution == match pack.attribution {
                Some(attribution) => attribution@,
                None => Seq::empty(),
            }
            &&& entry.ordinal == greatest + 1
        }),
        ordinal_after(None) == 0,
{
}

/// The last translation stays, with nothing done to it; any other that is there is
/// removed.
pub proof fn law_the_last_translation_stays(id: Seq<char>, installed: i64, verses: i64)
    ensures
        installed <= 1 ==> (removal(id, installed, verses) matches Err((words, deeds))
            && deeds.len() == 0),
        installed > 1 ==> (removal(id, installed, verses) is Ok <==> verses > 0),
{
}

} // verus!
