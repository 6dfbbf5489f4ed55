//! A once-a-day note that an install exists, if its operator agreed to it.
//!
//! It is opt-in: a church that never touches the switch is a church nothing
//! leaves. It carries an install id, the application and its version, the
//! platform, what the hardware is, and which engine is in use. It carries no
//! machine name, no address, and no content of any kind: there is no field for
//! one.

use crate::digest::{hex, hex_of, lemma_hex_len};
use crate::json::{branches, field, lemma_branches, lemma_named, Figure, Json, Numeral, Tree};
use crate::text::{
    blank, chars_of, decimal, is_blank, lemma_blank, lemma_trimmed_already, lemma_written_number,
    parse_u64, push_decimal, trim, trim_text, trimmed, unsigned_value,
};
use vstd::prelude::*;

verus! {

/// How long between check-ins, in seconds. A day.
pub const EVERY: u64 = 86_400;

/// Short enough that a broker having a bad morning costs a launch nothing. In
/// seconds.
pub const TIMEOUT: u64 = 5;

/// What crosses the wire.
#[derive(Debug, Clone, PartialEq, Eq)]
pub struct CheckIn {
    /// A random identifier made once on this machine and kept.
    pub install: String,
    /// "pulpitry" or "castavox", and its version. Which releases are live.
    pub app: String,
    pub version: String,
    /// Platform mix: what to test on and what to support.
    pub os: String,
    pub os_version: String,
    pub arch: String,
    pub cores: usize,
    /// Free, or a subscription.
    pub engine: String,
}

/// What the broker stores, once the edge has turned an address into a country
/// and thrown the address away.
#[derive(Debug, Clone, PartialEq, Eq)]
pub struct Stored {
    pub install: String,
    pub app: String,
    pub version: String,
    pub os: String,
    pub os_version: String,
    pub arch: String,
    pub cores: usize,
    pub engine: String,
    /// Two letters, derived at the edge.
    pub country: String,
    /// The day, not the moment.
    pub day: String,
}

/// What a check-in carries: eight fields, and nowhere to put anything else.
pub open spec fn payload_of(c: CheckIn) -> Tree {
    Tree::Object(
        seq![
            ("install"@, Tree::Text(c.install@)),
            ("app"@, Tree::Text(c.app@)),
            ("version"@, Tree::Text(c.version@)),
            ("os"@, Tree::Text(c.os@)),
            ("osVersion"@, Tree::Text(c.os_version@)),
            ("arch"@, Tree::Text(c.arch@)),
            ("cores"@, Tree::Number(Figure::Unsigned(c.cores as u64))),
            ("engine"@, Tree::Text(c.engine@)),
        ],
    )
}

impl CheckIn {
    /// What is sent.
    pub fn payload(&self) -> (r: Json)
        ensures
            r@ == payload_of(*self),
    {
        let mut fields: Vec<(String, Json)> = Vec::new();
        fields.push(("install".to_owned(), Json::Text(self.install.clone())));
        fields.push(("app".to_owned(), Json::Text(self.app.clone())));
        fields.push(("version".to_owned(), Json::Text(self.version.clone())));
        fields.push(("os".to_owned(), Json::Text(self.os.clone())));
        fields.push(("osVersion".to_owned(), Json::Text(self.os_version.clone())));
        fields.push(("arch".to_owned(), Json::Text(self.arch.clone())));
        fields.push(("cores".to_owned(), Json::Number(Numeral::Unsigned(self.cores as u64))));
        fields.push(("engine".to_owned(), Json::Text(self.engine.clone())));
        proof {
            lemma_branches(fields@);
            assert(branches(fields@) =~= payload_of(*self)->Object_0);
        }
        Json::Object(fields)
    }
}

// ------------------------------------------------------------- the install id

/// Sixteen bytes, shaped like a UUID so that they read as an identifier.
pub open spec fn uuid_of(bytes: Seq<u8>) -> Seq<char> {
    hex_of(bytes.subrange(0, 4)) + "-"@ + hex_of(bytes.subrange(4, 6)) + "-"@ + hex_of(
        bytes.subrange(6, 8),
    ) + "-"@ + hex_of(bytes.subrange(8, 10)) + "-"@ + hex_of(bytes.subrange(10, 16))
}

/// Sixteen bytes, shaped like a UUID.
pub fn uuid(bytes: &[u8]) -> (r: String)
    requires
        bytes@.len() == 16,
    ensures
        r@ == uuid_of(bytes@),
{
    let mut out: String = hex(vstd::slice::slice_subrange(bytes, 0, 4));
    out.push_str("-");
    out.push_str(hex(vstd::slice::slice_subrange(bytes, 4, 6)).as_str());
    out.push_str("-");
    out.push_str(hex(vstd::slice::slice_subrange(bytes, 6, 8)).as_str());
    out.push_str("-");
    out.push_str(hex(vstd::slice::slice_subrange(bytes, 8, 10)).as_str());
    out.push_str("-");
    out.push_str(hex(vstd::slice::slice_subrange(bytes, 10, 16)).as_str());
    out
}

/// Bytes out of the clock and the process, where there is no randomness to be
/// had. Weak, and that is acceptable: nothing about the identifier guards
/// anything.
pub open spec fn seeded(seed: u64) -> Seq<u8> {
    Seq::new(16, |at: int| ((seed >> ((at % 8) * 8) as u64) as u8) ^ ((at * 31) % 256) as u8)
}

/// Bytes out of the clock and the process.
pub fn weak_bytes(nanos: u64, process: u32) -> (r: Vec<u8>)
    ensures
        r@ == seeded(nanos ^ process as u64),
{
    let seed: u64 = nanos ^ process as u64;
    let mut out: Vec<u8> = Vec::new();
    let mut at: u64 = 0;
    while at < 16
        invariant
            at <= 16,
            out@.len() == at,
            forall|k: int| 0 <= k < at ==> #[trigger] out@[k] == seeded(seed)[k],
        decreases 16 - at,
    {
        let shifted: u64 = seed >> ((at % 8) * 8);
        let low: u8 = (shifted % 256) as u8;
        assert(shifted as u8 == (shifted % 256) as u8) by (bit_vector);
        out.push(low ^ ((at * 31) % 256) as u8);
        at += 1;
    }
    assert(out@ =~= seeded(seed));
    out
}

/// The identifier a file keeps, where it keeps one.
pub open spec fn id_in(existing: Option<Seq<char>>) -> Option<Seq<char>> {
    match existing {
        Some(text) if !blank(text) => Some(trimmed(text)),
        _ => None,
    }
}

/// The identifier a file keeps, where it keeps one.
pub fn kept_id(existing: Option<String>) -> (r: Option<String>)
    ensures
        match id_in(
            match existing {
                Some(text) => Some(text@),
                None => None,
            },
        ) {
            Some(id) => r matches Some(kept) && kept@ == id,
            None => r is None,
        },
{
    match existing {
        Some(text) => if is_blank(text.as_str()) {
            None
        } else {
            Some(trim_text(text.as_str()))
        },
        None => None,
    }
}

/// Whether a character has a place in an identifier.
spec fn in_identifier(c: char) -> bool {
    c == '-' || ('0' <= c <= '9') || ('a' <= c <= 'f')
}

/// An identifier is made once and then kept: what was written is read back,
/// and it is shaped like a UUID.
pub proof fn law_an_install_id_is_kept(bytes: Seq<u8>)
    requires
        bytes.len() == 16,
    ensures
        uuid_of(bytes).len() == 36,
        id_in(Some(uuid_of(bytes))) == Some(uuid_of(bytes)),
{
    reveal_strlit("-");
    lemma_hex_len(bytes.subrange(0, 4));
    lemma_hex_len(bytes.subrange(4, 6));
    lemma_hex_len(bytes.subrange(6, 8));
    lemma_hex_len(bytes.subrange(8, 10));
    lemma_hex_len(bytes.subrange(10, 16));
    let id = uuid_of(bytes);
    lemma_hex_characters(bytes.subrange(0, 4));
    lemma_hex_characters(bytes.subrange(10, 16));
    assert(id[0] == hex_of(bytes.subrange(0, 4))[0]);
    assert(id.last() == hex_of(bytes.subrange(10, 16)).last());
    lemma_trimmed_already(id);
    lemma_blank(id);
}

proof fn lemma_hex_characters(bytes: Seq<u8>)
    ensures
        forall|i: int| 0 <= i < hex_of(bytes).len() ==> in_identifier(#[trigger] hex_of(bytes)[i]),
    decreases bytes.len(),
{
    if bytes.len() > 0 {
        lemma_hex_characters(bytes.drop_last());
        let before = hex_of(bytes.drop_last());
        assert(bytes.last() as nat / 16 < 16);
        assert forall|i: int| 0 <= i < hex_of(bytes).len() implies in_identifier(
            #[trigger] hex_of(bytes)[i],
        ) by {
            if i < before.len() {
                assert(hex_of(bytes)[i] == before[i]);
            }
        }
    }
}

// ----------------------------------------------------------------- when it is

/// Whether a check-in is due, given what the last one left behind. A stamp that
/// cannot be read is no stamp, and a clock that was moved backwards reads as
/// due, which costs one extra check-in.
pub open spec fn is_due(stamp: Option<Seq<char>>, now: u64) -> bool {
    match stamp {
        Some(text) => match unsigned_value(trimmed(text), u64::MAX as int) {
            Some(then) => now < then || now - then >= EVERY,
            None => true,
        },
        None => true,
    }
}

/// Whether a day has passed since the last check-in.
pub fn due(stamp: Option<&str>, now: u64) -> (r: bool)
    ensures
        r == is_due(
            match stamp {
                Some(text) => Some(text@),
                None => None,
            },
            now,
        ),
{
    match stamp {
        Some(text) => match parse_u64(trim(chars_of(text).as_slice()).as_slice()) {
            Some(then) => now < then || now - then >= EVERY,
            None => true,
        },
        None => true,
    }
}

/// Whether a check-in is to be sent: only where the operator agreed to it and
/// one is due.
pub fn wanted(enabled: bool, stamp: Option<&str>, now: u64) -> (r: bool)
    ensures
        r == (enabled && is_due(
            match stamp {
                Some(text) => Some(text@),
                None => None,
            },
            now,
        )),
{
    enabled && due(stamp, now)
}

/// The stamp to leave behind: only after a real success.
pub fn stamp(sent: bool, now: u64) -> (r: Option<String>)
    ensures
        r is Some <==> sent,
        r matches Some(text) ==> text@ == decimal(now as nat),
{
    if !sent {
        return None;
    }
    let mut out: String = String::new();
    push_decimal(&mut out, now);
    assert(out@ =~= decimal(now as nat));
    Some(out)
}

/// After a success the next check-in is due a day later and not before, unless
/// the clock was moved backwards.
pub proof fn law_one_check_in_a_day(then: u64, now: u64)
    ensures
        is_due(Some(decimal(then as nat)), now) <==> now < then || now - then >= 86_400,
{
    lemma_written_number(then as nat, u64::MAX as int);
}

/// What is sent says what it is of: each of the eight under its own name, and
/// nothing besides.
pub proof fn law_a_check_in_says_what_it_is_of(c: CheckIn)
    ensures
        payload_of(c)->Object_0.len() == 8,
        field(payload_of(c), "install"@) == Some(Tree::Text(c.install@)),
        field(payload_of(c), "app"@) == Some(Tree::Text(c.app@)),
        field(payload_of(c), "version"@) == Some(Tree::Text(c.version@)),
        field(payload_of(c), "os"@) == Some(Tree::Text(c.os@)),
        field(payload_of(c), "osVersion"@) == Some(Tree::Text(c.os_version@)),
        field(payload_of(c), "arch"@) == Some(Tree::Text(c.arch@)),
        field(payload_of(c), "cores"@) == Some(Tree::Number(Figure::Unsigned(c.cores as u64))),
        field(payload_of(c), "engine"@) == Some(Tree::Text(c.engine@)),
{
    reveal_strlit("install");
    reveal_strlit("app");
    reveal_strlit("version");
    reveal_strlit("os");
    reveal_strlit("osVersion");
    reveal_strlit("arch");
    reveal_strlit("cores");
    reveal_strlit("engine");
    assert("install"@[0] == 'i' && "version"@[0] == 'v');
    assert("install"@.len() == 7 && "app"@.len() == 3 && "version"@.len() == 7 && "os"@.len() == 2 && "osVersion"@.len() == 9 && "arch"@.len() == 4 && "cores"@.len() == 5 && "engine"@.len() == 6);
    let list = payload_of(c)->Object_0;
    lemma_named(list, 0);
    lemma_named(list, 1);
    lemma_named(list, 2);
    lemma_named(list, 3);
    lemma_named(list, 4);
    lemma_named(list, 5);
    lemma_named(list, 6);
    lemma_named(list, 7);
}

/// An identifier is its bytes as digits, in five groups of eight, four, four, four
/// and twelve with a hyphen between each.
pub proof fn law_an_identifier_is_its_bytes(bytes: Seq<u8>)
    requires
        bytes.len() == 16,
    ensures
        ({
            let id = uuid_of(bytes);
            let digits = hex_of(bytes);
            &&& id[8] == '-' && id[13] == '-' && id[18] == '-' && id[23] == '-'
            &&& id.subrange(0, 8) + id.subrange(9, 13) + id.subrange(14, 18) + id.subrange(19, 23)
                + id.subrange(24, 36) == digits
        }),
{
    reveal_strlit("-");
    let a = bytes.subrange(0, 4);
    let b = bytes.subrange(4, 6);
    let c = bytes.subrange(6, 8);
    let d = bytes.subrange(8, 10);
    let e = bytes.subrange(10, 16);
    lemma_hex_len(a);
    lemma_hex_len(b);
    lemma_hex_len(c);
    lemma_hex_len(d);
    lemma_hex_len(e);
    lemma_hex_add(a, b);
    lemma_hex_add(a + b, c);
    lemma_hex_add(a + b + c, d);
    lemma_hex_add(a + b + c + d, e);
    assert(a + b + c + d + e =~= bytes);
    let id = uuid_of(bytes);
    assert(id.subrange(0, 8) =~= hex_of(a));
    assert(id.subrange(9, 13) =~= hex_of(b));
    assert(id.subrange(14, 18) =~= hex_of(c));
    assert(id.subrange(19, 23) =~= hex_of(d));
    assert(id.subrange(24, 36) =~= hex_of(e));
}

proof fn lemma_hex_add(a: Seq<u8>, b: Seq<u8>)
    ensures
        hex_of(a + b) == hex_of(a) + hex_of(b),
    decreases b.len(),
{
    if b.len() == 0 {
        assert(a + b =~= a);
        assert(hex_of(a) + hex_of(b) =~= hex_of(a));
    } else {
        lemma_hex_add(a, b.drop_last());
        assert((a + b).drop_last() =~= a + b.drop_last());
        assert(hex_of(a + b) =~= hex_of(a) + hex_of(b));
    }
}

} // verus!
