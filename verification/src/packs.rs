//! Translations a church downloads, rather than ones it carries whether it
//! wants them or not.
//!
//! A downloaded file came over a network onto a laptop that will then read
//! scripture from it in front of a congregation. So a pack carries a SHA-256,
//! it is checked before anything is imported, and a mismatch is a failure
//! rather than a warning.

use crate::assistant::{status_line, status_words};
use crate::digest::{digest, hex, hex_of, sha256};
use crate::text::{
    blank, is_blank, is_char, lowercase, same_text, to_lowercase, trim_back, trim_end_char,
    trim_text, trimmed,
};
use vstd::prelude::*;

verus! {

/// How long to wait for the catalogue, in seconds. It is a small document.
pub const CATALOGUE_TIMEOUT: u64 = 15;

/// A translation that can be had, whether or not this machine has it.
#[derive(Debug, Clone, PartialEq, Eq)]
pub struct Pack {
    pub id: String,
    pub name: String,
    pub year: i64,
    /// The file, relative to the catalogue's own location.
    pub file: String,
    pub verse_count: i64,
    /// The fingerprint that is stored, to tell a re-import from a no-op.
    pub checksum: String,
    /// Lower-case hex SHA-256 of the file as published.
    pub sha256: String,
    /// Compressed size, for a church deciding whether to spend it.
    pub bytes: u64,
    /// What language a church would look for this under.
    pub language: String,
    /// What a church should know before downloading, where there is something.
    pub note: Option<String>,
    /// Verses absent against a complete Bible, counted at build time.
    pub missing_verses: i64,
    /// Where the text carries a licence, naming it is a condition of shipping
    /// it rather than a courtesy.
    pub licence: Option<String>,
    pub attribution: Option<String>,
}

/// How far a download has got, for a screen that shows it.
#[derive(Debug, Clone, Copy, PartialEq, Eq, Structural)]
pub struct Progress {
    pub received: u64,
    /// What to expect, which may be zero if nobody said.
    pub total: u64,
}

/// What a download is expected to come to: what the server says, or else what
/// the catalogue said.
pub fn expected(pack: &Pack, content_length: Option<u64>) -> (r: u64)
    ensures
        r == match content_length {
            Some(length) => length,
            None => pack.bytes,
        },
{
    match content_length {
        Some(length) => length,
        None => pack.bytes,
    }
}

/// Why the catalogue could not be read, given how it answered.
pub fn catalogue_refused(status: u16) -> (r: Option<String>)
    ensures
        r is Some <==> !(200 <= status < 300),
        r matches Some(words) ==> words@ == "the translation catalogue answered "@ + status_words(
            status,
        ),
{
    if 200 <= status && status < 300 {
        return None;
    }
    let mut words: String = "the translation catalogue answered ".to_owned();
    words.push_str(status_line(status).as_str());
    Some(words)
}

/// Whether a pack says what it should hash to.
pub open spec fn can_be_checked(pack: Pack) -> bool {
    !blank(pack.sha256@)
}

/// Where a pack is downloaded from. One with no hash cannot be checked, and an
/// unchecked Bible is refused.
pub fn download_url(pack: &Pack, base_url: &str) -> (r: Result<String, String>)
    ensures
        can_be_checked(*pack) ==> (r matches Ok(url) && url@ == trim_back(base_url@, is_char('/'))
            + "/"@ + pack.file@),
        !can_be_checked(*pack) ==> (r matches Err(words) && words@ == pack.id@
            + " has no published checksum and will not be downloaded"@),
{
    if is_blank(pack.sha256.as_str()) {
        let mut words: String = pack.id.clone();
        words.push_str(" has no published checksum and will not be downloaded");
        return Err(words);
    }
    let mut url: String = trim_end_char(base_url, '/');
    url.push_str("/");
    url.push_str(pack.file.as_str());
    Ok(url)
}

/// Why a pack could not be downloaded, given how the server answered.
pub fn download_refused(pack: &Pack, status: u16) -> (r: Option<String>)
    ensures
        r is Some <==> !(200 <= status < 300),
        r matches Some(words) ==> words@ == pack.name@ + " could not be downloaded ("@
            + status_words(status) + ")"@,
{
    if 200 <= status && status < 300 {
        return None;
    }
    let mut words: String = pack.name.clone();
    words.push_str(" could not be downloaded (");
    words.push_str(status_line(status).as_str());
    words.push_str(")");
    Some(words)
}

/// Whether a hash is the one a pack was published with.
pub open spec fn is_published_hash(pack: Pack, hash: Seq<char>) -> bool {
    hash == lowercase(trimmed(pack.sha256@))
}

/// Whether bytes are the file that was published.
pub open spec fn is_intact(pack: Pack, bytes: Seq<u8>) -> bool {
    is_published_hash(pack, hex_of(sha256(bytes)))
}

pub open spec fn discarded(pack: Pack) -> Seq<char> {
    pack.name@
        + " did not arrive intact and has been discarded. Try again, or check the connection."@
}

/// Proves that what arrived is what was published, or says that it is not.
pub fn arrived(pack: &Pack, bytes: &[u8]) -> (r: Result<(), String>)
    ensures
        r is Ok <==> is_intact(*pack, bytes@),
        r matches Err(words) ==> words@ == discarded(*pack),
{
    let got: String = hex(digest(bytes).as_slice());
    let published: String = to_lowercase(trim_text(pack.sha256.as_str()).as_str());
    if same_text(got.as_str(), published.as_str()) {
        Ok(())
    } else {
        let mut words: String = pack.name.clone();
        words.push_str(
            " did not arrive intact and has been discarded. Try again, or check the connection.",
        );
        Err(words)
    }
}

} // verus!
