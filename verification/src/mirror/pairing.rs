//! Deciding whether the machine on the other end is allowed to drive the screen.
//!
//! The desk shows a short code and somebody carries it to the other machine.
//! Neither the code nor the token derived from it is ever sent: a screen proves
//! that it knows a secret by answering a fresh nonce with a code computed from
//! both.

use crate::digest::{authenticate, hex, hex_of, hmac_sha256, lemma_hex_len};
use crate::random::random_bytes;
use crate::text::{
    ascii_alphanumeric, ascii_uppercase_char, chars_of, comes_before, decimal,
    is_ascii_alphanumeric, lemma_precedes_total, lemma_precedes_transitive, lemma_prefix_step,
    precedes, push_decimal, same_text, to_ascii_uppercase_char,
};
use vstd::prelude::*;
use vstd::utf8::encode_utf8;

verus! {

/// How many characters a code has.
pub const CODE_LENGTH: usize = 6;

/// How long a code is offered before it goes stale, in seconds.
pub const CODE_LIFETIME: u64 = 300;

/// Wrong answers before pairing closes.
pub const MAX_ATTEMPTS: u32 = 5;

/// A moment on a clock that never goes back, in nanoseconds from an arbitrary
/// start.
#[derive(Debug, Clone, Copy, PartialEq, Eq)]
pub struct Moment {
    pub nanos: u64,
}

// --------------------------------------------------------------------- codes

/// Characters a code is drawn from: none of those that people confuse.
pub open spec fn alphabet() -> Seq<char> {
    "ABCDEFGHJKMNPQRSTUVWXYZ23456789"@
}

/// A code the desk could offer.
pub open spec fn is_code(code: Seq<char>) -> bool {
    code.len() == CODE_LENGTH && forall|i: int|
        0 <= i < code.len() ==> alphabet().contains(#[trigger] code[i])
}

/// The code that some random bytes stand for.
pub open spec fn code_of(raw: Seq<u8>) -> Seq<char> {
    raw.map_values(|byte: u8| alphabet()[byte as int % 31])
}

/// The code that some random bytes stand for: each byte picks a character.
pub fn code_from(raw: &[u8]) -> (r: String)
    ensures
        r@ == code_of(raw@),
        raw@.len() == CODE_LENGTH ==> is_code(r@),
{
    let letters: Vec<char> = chars_of("ABCDEFGHJKMNPQRSTUVWXYZ23456789");
    let mut out: String = String::new();
    let mut i: usize = 0;
    proof {
        reveal_strlit("ABCDEFGHJKMNPQRSTUVWXYZ23456789");
    }
    assert(out@ =~= code_of(raw@.take(0)));
    while i < raw.len()
        invariant
            i <= raw.len(),
            letters@ == alphabet(),
            letters.len() == 31,
            out@ == code_of(raw@.take(i as int)),
        decreases raw.len() - i,
    {
        out.push(letters[(raw[i] % 31) as usize]);
        i += 1;
        assert(out@ =~= code_of(raw@.take(i as int)));
    }
    assert(raw@.take(i as int) =~= raw@);
    assert forall|k: int| 0 <= k < out@.len() implies alphabet().contains(#[trigger] out@[k]) by {
        let at = raw@[k] as int % 31;
        assert(alphabet()[at] == out@[k]);
    }
    out
}

/// The code that a drawing of random bytes gives: one exactly when there were
/// bytes to be had.
pub fn code_drawn(raw: Option<Vec<u8>>) -> (r: Option<String>)
    ensures
        match raw {
            Some(bytes) => r matches Some(code) && code@ == code_of(bytes@) && (bytes@.len()
                == CODE_LENGTH ==> is_code(code@)),
            None => r is None,
        },
{
    match raw {
        Some(bytes) => Some(code_from(bytes.as_slice())),
        None => None,
    }
}

/// A random code, for a person to read aloud or carry; nothing when the
/// operating system has no randomness to give.
pub fn new_code() -> (r: Option<String>)
    ensures
        r matches Some(code) ==> is_code(code@),
{
    code_drawn(random_bytes(CODE_LENGTH))
}

/// The nonce that a drawing of random bytes gives: one exactly when there were
/// bytes to be had.
pub fn nonce_drawn(raw: Option<Vec<u8>>) -> (r: Option<String>)
    ensures
        match raw {
            Some(bytes) => r matches Some(nonce) && nonce@ == hex_of(bytes@) && nonce@.len() == 2
                * bytes@.len(),
            None => r is None,
        },
{
    match raw {
        Some(bytes) => {
            proof {
                lemma_hex_len(bytes@);
            }
            Some(hex(bytes.as_slice()))
        },
        None => None,
    }
}

/// A random nonce, fresh per connection, so a captured proof cannot be reused;
/// nothing when the operating system has no randomness to give.
pub fn new_nonce() -> (r: Option<String>)
    ensures
        r matches Some(nonce) ==> nonce@.len() == 64 && exists|raw: Seq<u8>|
            raw.len() == 32 && nonce@ == #[trigger] hex_of(raw),
{
    nonce_drawn(random_bytes(32))
}

/// A code as it was issued, from one as it was typed.
pub open spec fn normalised(code: Seq<char>) -> Seq<char>
    decreases code.len(),
{
    if code.len() == 0 {
        Seq::empty()
    } else if ascii_alphanumeric(code.last()) {
        normalised(code.drop_last()).push(ascii_uppercase_char(code.last()))
    } else {
        normalised(code.drop_last())
    }
}

/// Tidies a code a human typed: case, and whatever they put between the groups.
pub fn normalise(code: &str) -> (r: String)
    ensures
        r@ == normalised(code@),
{
    let chars: Vec<char> = chars_of(code);
    let mut out: String = String::new();
    let mut i: usize = 0;
    while i < chars.len()
        invariant
            i <= chars.len(),
            out@ == normalised(chars@.take(i as int)),
        decreases chars.len() - i,
    {
        if is_ascii_alphanumeric(chars[i]) {
            out.push(to_ascii_uppercase_char(chars[i]));
        }
        i += 1;
        proof {
            lemma_prefix_step(chars@, i - 1);
        }
    }
    assert(chars@.take(i as int) =~= chars@);
    out
}

/// Tidying goes piece by piece: two pieces tidied and put together are the two
/// together, tidied.
pub proof fn law_tidying_goes_piece_by_piece(a: Seq<char>, b: Seq<char>)
    ensures
        normalised(a + b) == normalised(a) + normalised(b),
    decreases b.len(),
{
    if b.len() == 0 {
        assert(a + b =~= a);
        assert(normalised(a) + normalised(b) =~= normalised(a));
    } else {
        law_tidying_goes_piece_by_piece(a, b.drop_last());
        assert((a + b).drop_last() =~= a + b.drop_last());
        assert(normalised(a + b) =~= normalised(a) + normalised(b));
    }
}

/// What is tidy already is left alone: tidying twice is tidying once.
pub proof fn law_tidying_twice_is_tidying_once(code: Seq<char>)
    ensures
        normalised(normalised(code)) == normalised(code),
    decreases code.len(),
{
    if code.len() > 0 {
        law_tidying_twice_is_tidying_once(code.drop_last());
        let front = normalised(code.drop_last());
        if ascii_alphanumeric(code.last()) {
            let tidy = front.push(ascii_uppercase_char(code.last()));
            assert(tidy.drop_last() =~= front);
            assert(ascii_alphanumeric(tidy.last()));
            assert(normalised(tidy) =~= tidy);
        }
    }
}

/// A code typed as it was issued is left alone.
pub proof fn law_an_issued_code_is_already_tidy(code: Seq<char>)
    requires
        forall|i: int| 0 <= i < code.len() ==> alphabet().contains(#[trigger] code[i]),
    ensures
        normalised(code) == code,
    decreases code.len(),
{
    reveal_strlit("ABCDEFGHJKMNPQRSTUVWXYZ23456789");
    if code.len() > 0 {
        let front = code.drop_last();
        assert forall|i: int| 0 <= i < front.len() implies alphabet().contains(
            #[trigger] front[i],
        ) by {
            assert(front[i] == code[i]);
        }
        law_an_issued_code_is_already_tidy(front);
        assert(alphabet().contains(code[code.len() - 1]));
        assert(front.push(code.last()) =~= code);
    } else {
        assert(normalised(code) =~= code);
    }
}

/// No code holds a character that gets mistyped.
pub proof fn law_a_code_avoids_the_characters_people_confuse(code: Seq<char>, i: int)
    requires
        is_code(code),
        0 <= i < code.len(),
    ensures
        code[i] != '0',
        code[i] != 'O',
        code[i] != '1',
        code[i] != 'I',
        code[i] != 'L',
{
    reveal_strlit("ABCDEFGHJKMNPQRSTUVWXYZ23456789");
    assert(alphabet().contains(code[i]));
}

// -------------------------------------------------------------------- proofs

/// What a proof is computed over.
pub open spec fn proof_message(nonce: Seq<char>) -> Seq<u8> {
    encode_utf8("castavox-mirror-proof-v1"@) + encode_utf8(nonce)
}

/// What a token is computed over.
pub open spec fn token_message(peer_id: Seq<char>, nonce: Seq<char>) -> Seq<u8> {
    encode_utf8("castavox-mirror-token-v1"@) + encode_utf8(peer_id) + encode_utf8(nonce)
}

/// The proof that the answerer knows `secret`.
pub open spec fn proof_of(secret: Seq<char>, nonce: Seq<char>) -> Seq<char> {
    hex_of(hmac_sha256(encode_utf8(secret), proof_message(nonce)))
}

/// The long-lived secret of a peer that was paired with `code`.
pub open spec fn token_of(code: Seq<char>, peer_id: Seq<char>, nonce: Seq<char>) -> Seq<char> {
    hex_of(hmac_sha256(encode_utf8(code), token_message(peer_id, nonce)))
}

fn push_bytes(out: &mut Vec<u8>, more: &[u8])
    ensures
        final(out)@ == old(out)@ + more@,
{
    let mut i: usize = 0;
    assert(old(out)@ + more@.take(0) =~= old(out)@);
    while i < more.len()
        invariant
            i <= more.len(),
            out@ == old(out)@ + more@.take(i as int),
        decreases more.len() - i,
    {
        out.push(more[i]);
        i += 1;
        assert(out@ =~= old(out)@ + more@.take(i as int));
    }
    assert(more@.take(i as int) =~= more@);
}

/// Proof that the answerer knows `secret`, without disclosing it.
pub fn prove(secret: &str, nonce: &str) -> (r: String)
    ensures
        r@ == proof_of(secret@, nonce@),
{
    let mut message: Vec<u8> = Vec::new();
    push_bytes(&mut message, "castavox-mirror-proof-v1".as_bytes());
    push_bytes(&mut message, nonce.as_bytes());
    assert(message@ =~= proof_message(nonce@));
    hex(authenticate(secret.as_bytes(), message.as_slice()).as_slice())
}

/// The long-lived secret, derived identically at both ends and never sent.
pub fn derive_token(code: &str, peer_id: &str, nonce: &str) -> (r: String)
    ensures
        r@ == token_of(code@, peer_id@, nonce@),
{
    let mut message: Vec<u8> = Vec::new();
    push_bytes(&mut message, "castavox-mirror-token-v1".as_bytes());
    push_bytes(&mut message, peer_id.as_bytes());
    push_bytes(&mut message, nonce.as_bytes());
    assert(message@ =~= token_message(peer_id@, nonce@));
    hex(authenticate(code.as_bytes(), message.as_slice()).as_slice())
}

/// A proof of one thing is never a proof of another: what a proof is computed
/// over is never what a token is computed over.
pub proof fn law_proofs_and_tokens_are_kept_apart(
    nonce: Seq<char>,
    peer_id: Seq<char>,
    other: Seq<char>,
)
    ensures
        proof_message(nonce) != token_message(peer_id, other),
{
    reveal_strlit("castavox-mirror-proof-v1");
    reveal_strlit("castavox-mirror-token-v1");
    let a = "castavox-mirror-proof-v1"@;
    let b = "castavox-mirror-token-v1"@;
    vstd::utf8::is_ascii_chars_encode_utf8(a);
    vstd::utf8::is_ascii_chars_encode_utf8(b);
    assert(encode_utf8(a)[16] == 'p' as u8);
    assert(encode_utf8(b)[16] == 't' as u8);
    assert(proof_message(nonce)[16] == 'p' as u8);
    assert(token_message(peer_id, other)[16] == 't' as u8);
}

/// Compares two proofs without leaking, through timing, how much matched.
pub fn same(a: &str, b: &str) -> (r: bool)
    ensures
        r == (a@ == b@),
{
    let left: &[u8] = a.as_bytes();
    let right: &[u8] = b.as_bytes();
    proof {
        vstd::utf8::encode_utf8_decode_utf8(a@);
        vstd::utf8::encode_utf8_decode_utf8(b@);
    }
    if left.len() != right.len() {
        return false;
    }
    let mut seen: u8 = 0;
    let mut i: usize = 0;
    while i < left.len()
        invariant
            i <= left.len(),
            left.len() == right.len(),
            seen == 0 <==> forall|k: int| 0 <= k < i ==> left@[k] == right@[k],
        decreases left.len() - i,
    {
        let x: u8 = left[i];
        let y: u8 = right[i];
        assert((seen | (x ^ y)) == 0 <==> seen == 0 && x == y) by (bit_vector);
        seen = seen | (x ^ y);
        i += 1;
    }
    if seen == 0 {
        assert(left@ =~= right@);
    }
    seen == 0
}

// --------------------------------------------------------------------- types

/// What one paired screen is remembered as.
#[derive(Debug, PartialEq, Eq)]
pub struct Pairing {
    /// The peer's installation id, stable across a rename or a new address.
    pub peer_id: String,
    /// What to call it on screen.
    pub name: String,
    /// The derived secret. Never transmitted by either end.
    pub token: String,
}

impl Clone for Pairing {
    fn clone(&self) -> (r: Pairing)
        ensures
            r.peer_id@ == self.peer_id@,
            r.name@ == self.name@,
            r.token@ == self.token@,
    {
        Pairing {
            peer_id: self.peer_id.clone(),
            name: self.name.clone(),
            token: self.token.clone(),
        }
    }
}

/// What the desk says first, on every connection.
#[derive(Debug, PartialEq, Eq)]
pub struct Challenge {
    pub nonce: String,
    /// Whether a code is being offered right now.
    pub pairing_open: bool,
    /// What the desk calls itself.
    pub desk: String,
}

/// What the screen answers with.
#[derive(Debug, PartialEq, Eq)]
pub enum Answer {
    /// First time: proof of the code a person carried across the room.
    Pair { id: String, name: String, proof: String },
    /// Every time after: proof of the token derived when they paired.
    Hello { id: String, proof: String },
}

/// How the desk replies.
#[derive(Debug, PartialEq, Eq)]
pub enum Verdict {
    /// Come in. `you` is what the desk now knows the screen as.
    Ready { you: String },
    /// Not coming in, and why, in words the operator at the screen can act on.
    Refused { reason: String },
}

/// A paired screen as contracts speak of it; its id is what it is found by.
pub struct Paired {
    pub name: Seq<char>,
    pub token: Seq<char>,
}

/// A code on offer as contracts speak of it, with when it was made in
/// nanoseconds.
pub struct Offered {
    pub code: Seq<char>,
    pub made: nat,
    pub failures: nat,
}

/// The desk's side of the handshake as contracts speak of it.
pub struct Door {
    pub known: Map<Seq<char>, Paired>,
    pub offered: Option<Offered>,
}

/// An answer as contracts speak of it.
pub enum Reply {
    Pair { id: Seq<char>, name: Seq<char>, proof: Seq<char> },
    Hello { id: Seq<char>, proof: Seq<char> },
}

/// A verdict as contracts speak of it.
pub enum Ruling {
    Ready { you: Seq<char> },
    Refused { reason: Seq<char> },
}

impl View for Answer {
    type V = Reply;

    open spec fn view(&self) -> Reply {
        match *self {
            Answer::Pair { id, name, proof } => Reply::Pair { id: id@, name: name@, proof: proof@ },
            Answer::Hello { id, proof } => Reply::Hello { id: id@, proof: proof@ },
        }
    }
}

impl View for Verdict {
    type V = Ruling;

    open spec fn view(&self) -> Ruling {
        match *self {
            Verdict::Ready { you } => Ruling::Ready { you: you@ },
            Verdict::Refused { reason } => Ruling::Refused { reason: reason@ },
        }
    }
}

// --------------------------------------------------------------------- rules

/// Whether a code is on offer: made less than its lifetime ago, and not yet
/// answered wrongly too often.
pub open spec fn open_at(door: Door, now: nat) -> bool {
    match door.offered {
        Some(offer) => now - offer.made < CODE_LIFETIME * 1_000_000_000 && offer.failures
            < MAX_ATTEMPTS,
        None => false,
    }
}

pub open spec fn not_paired() -> Ruling {
    Ruling::Refused { reason: "This machine is not paired with that desk. Pair it again."@ }
}

pub open spec fn not_offering() -> Ruling {
    Ruling::Refused {
        reason: "That desk is not offering a code just now. Ask for a new one."@,
    }
}

/// What is said to a wrong code, with so many wrong answers counted.
pub open spec fn wrong_code(failures: nat) -> Ruling {
    Ruling::Refused {
        reason: if failures >= MAX_ATTEMPTS {
            "That code was wrong too many times. Ask the desk for a new one."@
        } else {
            "That code is not right. "@ + decimal((MAX_ATTEMPTS - failures) as nat)
                + " more tries."@
        },
    }
}

/// An answer that claims to be from a paired screen. One that is not known and
/// one whose proof is wrong are refused alike.
pub open spec fn hello_judged(
    door: Door,
    id: Seq<char>,
    given: Seq<char>,
    nonce: Seq<char>,
) -> Ruling {
    if door.known.contains_key(id) && given == proof_of(door.known[id].token, nonce) {
        Ruling::Ready { you: door.known[id].name }
    } else {
        not_paired()
    }
}

/// An answer that claims to know the code. The right one pairs the screen and
/// closes the offer; a wrong one is counted.
pub open spec fn pair_judged(
    door: Door,
    id: Seq<char>,
    name: Seq<char>,
    given: Seq<char>,
    nonce: Seq<char>,
    now: nat,
) -> (Ruling, Door) {
    match door.offered {
        Some(offer) if open_at(door, now) => if given == proof_of(offer.code, nonce) {
            let paired = Paired { name, token: token_of(offer.code, id, nonce) };
            (
                Ruling::Ready { you: name },
                Door { known: door.known.insert(id, paired), offered: None },
            )
        } else {
            let failures = offer.failures + 1;
            (wrong_code(failures), Door { offered: Some(Offered { failures, ..offer }), ..door })
        },
        _ => (not_offering(), door),
    }
}

/// What is made of an answer to `nonce`, and what is known afterwards.
pub open spec fn judged(door: Door, reply: Reply, nonce: Seq<char>, now: nat) -> (Ruling, Door) {
    match reply {
        Reply::Hello { id, proof: given } => (hello_judged(door, id, given, nonce), door),
        Reply::Pair { id, name, proof: given } => pair_judged(door, id, name, given, nonce, now),
    }
}

// ---------------------------------------------------------------- doorkeeper

pub open spec fn paired_view(p: Pairing) -> Paired {
    Paired { name: p.name@, token: p.token@ }
}

/// Screens by id; of two with one id the later counts.
pub open spec fn by_id(list: Seq<Pairing>) -> Map<Seq<char>, Paired>
    decreases list.len(),
{
    if list.len() == 0 {
        Map::empty()
    } else {
        by_id(list.drop_last()).insert(list.last().peer_id@, paired_view(list.last()))
    }
}

/// Screens in the order of their ids, no id twice.
pub open spec fn ascending(list: Seq<Pairing>) -> bool {
    forall|i: int, j: int|
        0 <= i < j < list.len() ==> precedes(
            (#[trigger] list[i]).peer_id@,
            (#[trigger] list[j]).peer_id@,
        )
}

proof fn lemma_by_id(list: Seq<Pairing>)
    requires
        ascending(list),
    ensures
        forall|id: Seq<char>|
            by_id(list).contains_key(id) <==> exists|i: int|
                0 <= i < list.len() && (#[trigger] list[i]).peer_id@ == id,
        forall|i: int|
            0 <= i < list.len() ==> by_id(list)[(#[trigger] list[i]).peer_id@] == paired_view(
                list[i],
            ),
    decreases list.len(),
{
    if list.len() > 0 {
        let front = list.drop_last();
        assert forall|i: int, j: int| 0 <= i < j < front.len() implies precedes(
            (#[trigger] front[i]).peer_id@,
            (#[trigger] front[j]).peer_id@,
        ) by {
            assert(front[i] == list[i] && front[j] == list[j]);
        }
        lemma_by_id(front);
        let last = list.last();
        assert forall|id: Seq<char>|
            by_id(list).contains_key(id) <==> exists|i: int|
                0 <= i < list.len() && (#[trigger] list[i]).peer_id@ == id by {
            if by_id(front).contains_key(id) {
                let i = choose|i: int| 0 <= i < front.len() && (#[trigger] front[i]).peer_id@ == id;
                assert(list[i].peer_id@ == id);
            }
            if id == last.peer_id@ {
                assert(list[list.len() - 1].peer_id@ == id);
            }
            if exists|i: int| 0 <= i < list.len() && (#[trigger] list[i]).peer_id@ == id {
                let i = choose|i: int| 0 <= i < list.len() && (#[trigger] list[i]).peer_id@ == id;
                if i < front.len() {
                    assert(front[i].peer_id@ == id);
                }
            }
        }
        assert forall|i: int| 0 <= i < list.len() implies by_id(list)[(
        #[trigger] list[i]).peer_id@] == paired_view(list[i]) by {
            if i < front.len() {
                assert(front[i] == list[i]);
                lemma_precedes_total(list[i].peer_id@, list[list.len() - 1].peer_id@);
                assert(by_id(front)[front[i].peer_id@] == paired_view(front[i]));
            }
        }
    }
}

struct Offer {
    code: String,
    made: Moment,
    failures: u32,
}

/// The desk's side of the handshake: who is allowed in, and who is not.
///
/// Holds no sockets. It is handed what arrived and says what to do about it.
pub struct Doorkeeper {
    known: Vec<Pairing>,
    offered: Option<Offer>,
}

impl View for Doorkeeper {
    type V = Door;

    closed spec fn view(&self) -> Door {
        Door {
            known: by_id(self.known@),
            offered: match self.offered {
                Some(offer) => Some(
                    Offered {
                        code: offer.code@,
                        made: offer.made.nanos as nat,
                        failures: offer.failures as nat,
                    },
                ),
                None => None,
            },
        }
    }
}

fn is_before(a: &str, b: &str) -> (r: bool)
    ensures
        r == precedes(a@, b@),
{
    comes_before(chars_of(a).as_slice(), chars_of(b).as_slice())
}

/// Puts a screen in its place, instead of an earlier one with its id.
fn remember(list: &mut Vec<Pairing>, p: Pairing)
    requires
        ascending(old(list)@),
    ensures
        ascending(final(list)@),
        by_id(final(list)@) == by_id(old(list)@).insert(p.peer_id@, paired_view(p)),
{
    let ghost before = list@;
    let ghost id = p.peer_id@;
    let mut at: usize = 0;
    while at < list.len() && is_before(list[at].peer_id.as_str(), p.peer_id.as_str())
        invariant
            at <= list.len(),
            list@ == before,
            id == p.peer_id@,
            forall|i: int| 0 <= i < at ==> precedes((#[trigger] before[i]).peer_id@, id),
        decreases list.len() - at,
    {
        at += 1;
    }
    proof {
        lemma_by_id(before);
        if at < before.len() {
            lemma_precedes_total(before[at as int].peer_id@, id);
        }
    }
    if at < list.len() && same_text(list[at].peer_id.as_str(), p.peer_id.as_str()) {
        list[at] = p;
        proof {
            let after = list@;
            assert forall|i: int, j: int| 0 <= i < j < after.len() implies precedes(
                (#[trigger] after[i]).peer_id@,
                (#[trigger] after[j]).peer_id@,
            ) by {
                assert(after[i].peer_id@ == before[i].peer_id@);
                assert(after[j].peer_id@ == before[j].peer_id@);
            }
        }
    } else {
        list.insert(at, p);
        proof {
            let after = list@;
            assert forall|i: int| at <= i < before.len() implies precedes(
                id,
                (#[trigger] before[i]).peer_id@,
            ) by {
                if i > at {
                    lemma_precedes_transitive(id, before[at as int].peer_id@, before[i].peer_id@);
                }
            }
            assert forall|i: int, j: int| 0 <= i < j < after.len() implies precedes(
                (#[trigger] after[i]).peer_id@,
                (#[trigger] after[j]).peer_id@,
            ) by {
                if i < at {
                    assert(after[i] == before[i]);
                } else if i > at {
                    assert(after[i] == before[i - 1]);
                }
                if j < at {
                    assert(after[j] == before[j]);
                } else if j > at {
                    assert(after[j] == before[j - 1]);
                }
            }
        }
    }
    proof {
        let after = list@;
        lemma_by_id(after);
        let wanted = by_id(before).insert(id, paired_view(p));
        let got = by_id(after);
        assert(after[at as int] == p);
        assert forall|k: Seq<char>| got.contains_key(k) <==> wanted.contains_key(k) by {
            if got.contains_key(k) && k != id {
                let i = choose|i: int| 0 <= i < after.len() && (#[trigger] after[i]).peer_id@ == k;
                if i < at || after.len() == before.len() {
                    assert(before[i].peer_id@ == k);
                } else {
                    assert(before[i - 1].peer_id@ == k);
                }
            }
            if by_id(before).contains_key(k) {
                let i = choose|i: int|
                    0 <= i < before.len() && (#[trigger] before[i]).peer_id@ == k;
                if i < at || after.len() == before.len() {
                    assert(after[i].peer_id@ == k);
                } else {
                    assert(after[i + 1].peer_id@ == k);
                }
            }
        }
        assert forall|k: Seq<char>| got.contains_key(k) implies got[k] == wanted[k] by {
            let i = choose|i: int| 0 <= i < after.len() && (#[trigger] after[i]).peer_id@ == k;
            assert(got[k] == paired_view(after[i]));
            if k == id {
                assert(after[at as int].peer_id@ == k);
                assert(got[after[at as int].peer_id@] == paired_view(after[at as int]));
            } else if i < at || after.len() == before.len() {
                assert(before[i] == after[i]);
                assert(by_id(before)[before[i].peer_id@] == paired_view(before[i]));
            } else {
                assert(before[i - 1] == after[i]);
                assert(by_id(before)[before[i - 1].peer_id@] == paired_view(before[i - 1]));
            }
        }
        assert(got =~= wanted);
    }
}

impl Doorkeeper {
    /// The screens are held in the order of their ids.
    pub closed spec fn well_formed(&self) -> bool {
        ascending(self.known@)
    }

    /// A door that knows the given screens and offers no code.
    pub fn new(known: Vec<Pairing>) -> (r: Self)
        ensures
            r.well_formed(),
            r@ == (Door { known: by_id(known@), offered: None }),
    {
        let mut list: Vec<Pairing> = Vec::new();
        let mut i: usize = 0;
        while i < known.len()
            invariant
                i <= known.len(),
                ascending(list@),
                by_id(list@) == by_id(known@.take(i as int)),
            decreases known.len() - i,
        {
            remember(&mut list, known[i].clone());
            i += 1;
            proof {
                lemma_prefix_step(known@, i - 1);
            }
        }
        assert(known@.take(i as int) =~= known@);
        Doorkeeper { known: list, offered: None }
    }

    /// Starts offering a code, and returns it for the operator to read out;
    /// nothing, and nothing changed, when there is no randomness to be had.
    ///
    /// Offering again replaces the previous one and clears the failure count.
    pub fn offer(&mut self, now: Moment) -> (r: Option<String>)
        requires
            old(self).well_formed(),
        ensures
            final(self).well_formed(),
            r matches Some(code) ==> is_code(code@) && final(self)@ == offering(
                old(self)@,
                code@,
                now.nanos as nat,
            ),
            r is None ==> final(self)@ == old(self)@,
    {
        self.offer_drawn(new_code(), now)
    }

    /// Starts offering the code that was drawn, and returns it; where none was,
    /// nothing changes and there is nothing to return.
    pub fn offer_drawn(&mut self, drawn: Option<String>, now: Moment) -> (r: Option<String>)
        requires
            old(self).well_formed(),
        ensures
            final(self).well_formed(),
            match drawn {
                Some(code) => r matches Some(given) && given@ == code@ && final(self)@ == offering(
                    old(self)@,
                    code@,
                    now.nanos as nat,
                ),
                None => r is None && final(self)@ == old(self)@,
            },
    {
        match drawn {
            Some(code) => {
                self.offer_code(code.as_str(), now);
                Some(code)
            },
            None => None,
        }
    }

    /// Starts offering a given code.
    pub fn offer_code(&mut self, code: &str, now: Moment)
        requires
            old(self).well_formed(),
        ensures
            final(self).well_formed(),
            final(self)@ == offering(old(self)@, code@, now.nanos as nat),
    {
        self.offered = Some(Offer { code: code.to_owned(), made: now, failures: 0 });
    }

    /// Stops offering.
    pub fn withdraw(&mut self)
        requires
            old(self).well_formed(),
        ensures
            final(self).well_formed(),
            final(self)@ == (Door { offered: None, ..old(self)@ }),
    {
        self.offered = None;
    }

    /// Whether a code is on offer.
    pub fn pairing_open(&self, now: Moment) -> (r: bool)
        ensures
            r == open_at(self@, now.nanos as nat),
    {
        match &self.offered {
            Some(offer) => (now.nanos < offer.made.nanos || now.nanos - offer.made.nanos
                < CODE_LIFETIME * 1_000_000_000) && offer.failures < MAX_ATTEMPTS,
            None => false,
        }
    }

    /// What the desk says first.
    pub fn challenge(&self, nonce: String, desk: &str, now: Moment) -> (r: Challenge)
        ensures
            r.nonce@ == nonce@,
            r.pairing_open == open_at(self@, now.nanos as nat),
            r.desk@ == desk@,
    {
        Challenge { nonce, pairing_open: self.pairing_open(now), desk: desk.to_owned() }
    }

    /// Everything remembered, for the product to persist, by id.
    pub fn pairings(&self) -> (r: Vec<Pairing>)
        requires
            self.well_formed(),
        ensures
            ascending(r@),
            by_id(r@) == self@.known,
    {
        let mut out: Vec<Pairing> = Vec::new();
        let mut i: usize = 0;
        while i < self.known.len()
            invariant
                self.well_formed(),
                i <= self.known.len(),
                out.len() == i,
                ascending(out@),
                forall|k: int|
                    0 <= k < i ==> (#[trigger] out@[k]).peer_id@ == self.known@[k].peer_id@,
                by_id(out@) == by_id(self.known@.take(i as int)),
            decreases self.known.len() - i,
        {
            let p: Pairing = self.known[i].clone();
            let ghost before = out@;
            out.push(p);
            i += 1;
            proof {
                lemma_prefix_step(self.known@, i - 1);
                assert(out@.drop_last() =~= before);
                assert(paired_view(p) == paired_view(self.known@[i - 1]));
                assert forall|a: int, b: int| 0 <= a < b < out@.len() implies precedes(
                    (#[trigger] out@[a]).peer_id@,
                    (#[trigger] out@[b]).peer_id@,
                ) by {
                    assert(precedes(self.known@[a].peer_id@, self.known@[b].peer_id@));
                }
            }
        }
        assert(self.known@.take(i as int) =~= self.known@);
        out
    }

    fn find(&self, id: &str) -> (r: Option<usize>)
        ensures
            match r {
                Some(at) => at < self.known.len() && self.known@[at as int].peer_id@ == id@,
                None => forall|i: int|
                    0 <= i < self.known@.len() ==> (#[trigger] self.known@[i]).peer_id@ != id@,
            },
    {
        let mut at: usize = 0;
        while at < self.known.len()
            invariant
                at <= self.known.len(),
                forall|i: int| 0 <= i < at ==> (#[trigger] self.known@[i]).peer_id@ != id@,
            decreases self.known.len() - at,
        {
            if same_text(self.known[at].peer_id.as_str(), id) {
                return Some(at);
            }
            at += 1;
        }
        None
    }

    /// Forgets one screen, and says whether it was known.
    pub fn forget(&mut self, peer_id: &str) -> (r: bool)
        requires
            old(self).well_formed(),
        ensures
            final(self).well_formed(),
            r == old(self)@.known.contains_key(peer_id@),
            final(self)@ == (Door { known: old(self)@.known.remove(peer_id@), ..old(self)@ }),
    {
        let ghost before = self.known@;
        proof {
            lemma_by_id(before);
        }
        match self.find(peer_id) {
            Some(at) => {
                self.known.remove(at);
                proof {
                    let after = self.known@;
                    let id = peer_id@;
                    assert(before[at as int].peer_id@ == id);
                    assert forall|i: int, j: int| 0 <= i < j < after.len() implies precedes(
                        (#[trigger] after[i]).peer_id@,
                        (#[trigger] after[j]).peer_id@,
                    ) by {
                        let a = if i < at {
                            i
                        } else {
                            i + 1
                        };
                        let b = if j < at {
                            j
                        } else {
                            j + 1
                        };
                        assert(after[i] == before[a] && after[j] == before[b]);
                    }
                    lemma_by_id(after);
                    let wanted = by_id(before).remove(id);
                    let got = by_id(after);
                    assert forall|k: Seq<char>|
                        got.contains_key(k) <==> wanted.contains_key(k) by {
                        if got.contains_key(k) {
                            let i = choose|i: int|
                                0 <= i < after.len() && (#[trigger] after[i]).peer_id@ == k;
                            let a = if i < at {
                                i
                            } else {
                                i + 1
                            };
                            assert(before[a].peer_id@ == k);
                            if a < at {
                                lemma_precedes_total(
                                    before[a].peer_id@,
                                    before[at as int].peer_id@,
                                );
                            } else {
                                lemma_precedes_total(
                                    before[at as int].peer_id@,
                                    before[a].peer_id@,
                                );
                            }
                        }
                        if wanted.contains_key(k) {
                            let i = choose|i: int|
                                0 <= i < before.len() && (#[trigger] before[i]).peer_id@ == k;
                            let a = if i < at {
                                i
                            } else {
                                i - 1
                            };
                            assert(after[a] == before[i]);
                        }
                    }
                    assert forall|k: Seq<char>| got.contains_key(k) implies got[k]
                        == wanted[k] by {
                        let i = choose|i: int|
                            0 <= i < after.len() && (#[trigger] after[i]).peer_id@ == k;
                        let a = if i < at {
                            i
                        } else {
                            i + 1
                        };
                        assert(got[after[i].peer_id@] == paired_view(after[i]));
                        assert(by_id(before)[before[a].peer_id@] == paired_view(before[a]));
                    }
                    assert(got =~= wanted);
                }
                true
            },
            None => {
                assert(by_id(before).remove(peer_id@) =~= by_id(before));
                false
            },
        }
    }

    /// Judges an answer.
    ///
    /// `nonce` must be the one sent in the challenge this is answering, and
    /// must not be reused: that is what makes a captured proof worthless.
    pub fn judge(&mut self, answer: &Answer, nonce: &str, now: Moment) -> (r: Verdict)
        requires
            old(self).well_formed(),
        ensures
            final(self).well_formed(),
            r@ == judged(old(self)@, answer@, nonce@, now.nanos as nat).0,
            final(self)@ == judged(old(self)@, answer@, nonce@, now.nanos as nat).1,
    {
        match answer {
            Answer::Hello { id, proof: given } => {
                proof {
                    lemma_by_id(self.known@);
                }
                if let Some(at) = self.find(id.as_str()) {
                    let pairing: &Pairing = &self.known[at];
                    assert(self@.known[pairing.peer_id@] == paired_view(*pairing));
                    if same(given.as_str(), prove(pairing.token.as_str(), nonce).as_str()) {
                        return Verdict::Ready { you: pairing.name.clone() };
                    }
                }
                Verdict::Refused {
                    reason: "This machine is not paired with that desk. Pair it again.".to_owned(),
                }
            },
            Answer::Pair { id, name, proof: given } => {
                if !self.pairing_open(now) {
                    return Verdict::Refused {
                        reason:
                            "That desk is not offering a code just now. Ask for a new one.".to_owned(),
                    };
                }
                let taken: Option<Offer> = self.offered.take();
                match taken {
                    Some(offer) => {
                        let right: bool = same(
                            given.as_str(),
                            prove(offer.code.as_str(), nonce).as_str(),
                        );
                        if right {
                            let token: String = derive_token(
                                offer.code.as_str(),
                                id.as_str(),
                                nonce,
                            );
                            remember(
                                &mut self.known,
                                Pairing { peer_id: id.clone(), name: name.clone(), token },
                            );
                            Verdict::Ready { you: name.clone() }
                        } else {
                            let failures: u32 = offer.failures + 1;
                            self.offered = Some(
                                Offer { code: offer.code, made: offer.made, failures },
                            );
                            Verdict::Refused { reason: wrong_code_reason(failures) }
                        }
                    },
                    None => Verdict::Refused {
                        reason:
                            "That desk is not offering a code just now. Ask for a new one.".to_owned(),
                    },
                }
            },
        }
    }
}

/// A door that has just started offering a code.
pub open spec fn offering(door: Door, code: Seq<char>, now: nat) -> Door {
    Door { offered: Some(Offered { code, made: now, failures: 0 }), ..door }
}

fn wrong_code_reason(failures: u32) -> (r: String)
    requires
        failures <= MAX_ATTEMPTS,
    ensures
        wrong_code(failures as nat) == (Ruling::Refused { reason: r@ }),
{
    let left: u32 = MAX_ATTEMPTS - failures;
    if left == 0 {
        "That code was wrong too many times. Ask the desk for a new one.".to_owned()
    } else {
        let mut out: String = "That code is not right. ".to_owned();
        push_decimal(&mut out, left as u64);
        out.push_str(" more tries.");
        out
    }
}

// ---------------------------------------------------------------------- laws

/// The machine somebody walked the code to is admitted, at any time while the
/// code is good, and is admitted again without a code once it proves the token
/// that both ends derived.
pub proof fn law_a_paired_screen_is_remembered(
    door: Door,
    code: Seq<char>,
    made: nat,
    id: Seq<char>,
    name: Seq<char>,
    nonce: Seq<char>,
    now: nat,
    later: Seq<char>,
    then: nat,
)
    requires
        now < made + CODE_LIFETIME * 1_000_000_000,
    ensures
        ({
            let open = offering(door, code, made);
            let reply = Reply::Pair { id, name, proof: proof_of(code, nonce) };
            let (ruling, after) = judged(open, reply, nonce, now);
            let hello = Reply::Hello { id, proof: proof_of(token_of(code, id, nonce), later) };
            &&& ruling == Ruling::Ready { you: name }
            &&& judged(after, hello, later, then).0 == Ruling::Ready { you: name }
        }),
{
}

/// Offering again replaces the last offer: nothing of it is left, neither its
/// code nor the wrong answers to it, and the screens stay as they are. The new
/// code is good for its whole lifetime, and while it is, only a proof of it is
/// let in: any other, one of an earlier code among them, is refused and lets
/// nobody in.
pub proof fn law_an_offer_replaces_the_last(
    door: Door,
    code: Seq<char>,
    made: nat,
    reply: Reply,
    nonce: Seq<char>,
    now: nat,
)
    requires
        reply is Pair,
    ensures
        offering(door, code, made).known == door.known,
        offering(door, code, made) == offering(Door { offered: None, ..door }, code, made),
        forall|t: nat|
            #[trigger] open_at(offering(door, code, made), t) <==> t < made + CODE_LIFETIME
                * 1_000_000_000,
        judged(offering(door, code, made), reply, nonce, now).0 is Ready <==> now < made
            + CODE_LIFETIME * 1_000_000_000 && reply->Pair_proof == proof_of(code, nonce),
        reply->Pair_proof != proof_of(code, nonce) ==> {
            &&& judged(offering(door, code, made), reply, nonce, now).0 is Refused
            &&& judged(offering(door, code, made), reply, nonce, now).1.known == door.known
        },
{
}

/// One code pairs one machine: once somebody has been let in by it, no answer
/// that claims to know a code is accepted until another is offered.
pub proof fn law_one_code_pairs_one_machine(
    door: Door,
    first: Reply,
    nonce: Seq<char>,
    now: nat,
    second: Reply,
    other: Seq<char>,
    then: nat,
)
    requires
        first is Pair,
        judged(door, first, nonce, now).0 is Ready,
        second is Pair,
    ensures
        !open_at(judged(door, first, nonce, now).1, then),
        judged(judged(door, first, nonce, now).1, second, other, then) == (
            not_offering(),
            judged(door, first, nonce, now).1,
        ),
{
}

/// A code left on a screen for five minutes goes stale, and the right answer to it is refused
/// from then on.
pub proof fn law_a_code_goes_stale(
    door: Door,
    code: Seq<char>,
    made: nat,
    reply: Reply,
    nonce: Seq<char>,
    now: nat,
)
    requires
        now >= made + 300_000_000_000,
        reply is Pair,
    ensures
        !open_at(offering(door, code, made), now),
        judged(offering(door, code, made), reply, nonce, now) == (
            not_offering(),
            offering(door, code, made),
        ),
{
}

/// An unknown machine and a bad proof are refused the same way, so that asking
/// does not say which ids exist.
pub proof fn law_strangers_and_bad_proofs_are_refused_alike(
    door: Door,
    stranger: Seq<char>,
    known: Seq<char>,
    a: Seq<char>,
    b: Seq<char>,
    nonce: Seq<char>,
    now: nat,
)
    requires
        !door.known.contains_key(stranger),
        door.known.contains_key(known),
        b != proof_of(door.known[known].token, nonce),
    ensures
        judged(door, Reply::Hello { id: stranger, proof: a }, nonce, now) == judged(
            door,
            Reply::Hello { id: known, proof: b },
            nonce,
            now,
        ),
{
}

/// Forgetting a machine shuts it out, whatever it proves.
pub proof fn law_a_forgotten_screen_is_shut_out(
    door: Door,
    id: Seq<char>,
    given: Seq<char>,
    nonce: Seq<char>,
    now: nat,
)
    ensures
        judged(
            Door { known: door.known.remove(id), ..door },
            Reply::Hello { id, proof: given },
            nonce,
            now,
        ).0 == not_paired(),
{
}

/// An answer, the nonce it answers, and when it came.
pub struct Guess {
    pub reply: Reply,
    pub nonce: Seq<char>,
    pub at: nat,
}

/// A door after a run of answers.
pub open spec fn guessed(door: Door, guesses: Seq<Guess>) -> Door
    decreases guesses.len(),
{
    if guesses.len() == 0 {
        door
    } else {
        let guess = guesses.last();
        judged(guessed(door, guesses.drop_last()), guess.reply, guess.nonce, guess.at).1
    }
}

pub open spec fn is_wrong_guess(guess: Guess, code: Seq<char>) -> bool {
    guess.reply is Pair && guess.reply->Pair_proof != proof_of(code, guess.nonce)
}

/// How many answers came while a code made at a given time was good.
pub open spec fn in_time(guesses: Seq<Guess>, made: nat) -> nat
    decreases guesses.len(),
{
    if guesses.len() == 0 {
        0
    } else {
        in_time(guesses.drop_last(), made) + if guesses.last().at < made + CODE_LIFETIME
            * 1_000_000_000 {
            1nat
        } else {
            0nat
        }
    }
}

/// Guessing is shut down before it gets anywhere, whenever the guesses come:
/// after five wrong answers the code is on offer at no time,
/// however many more are tried; before, it is as good as it was; and nobody has
/// been let in either way.
pub proof fn law_guessing_is_shut_down(
    door: Door,
    code: Seq<char>,
    made: nat,
    guesses: Seq<Guess>,
    then: nat,
)
    requires
        forall|i: int| 0 <= i < guesses.len() ==> is_wrong_guess(#[trigger] guesses[i], code),
    ensures
        guessed(offering(door, code, made), guesses).known == door.known,
        open_at(guessed(offering(door, code, made), guesses), then) <==> in_time(guesses, made)
            < 5 && then < made + 300_000_000_000,
{
    lemma_failures_are_counted(door, code, made, guesses);
}

proof fn lemma_failures_are_counted(
    door: Door,
    code: Seq<char>,
    made: nat,
    guesses: Seq<Guess>,
)
    requires
        forall|i: int| 0 <= i < guesses.len() ==> is_wrong_guess(#[trigger] guesses[i], code),
    ensures
        guessed(offering(door, code, made), guesses) == (Door {
            offered: Some(
                Offered {
                    code,
                    made,
                    failures: if in_time(guesses, made) < MAX_ATTEMPTS {
                        in_time(guesses, made)
                    } else {
                        MAX_ATTEMPTS as nat
                    },
                },
            ),
            ..door
        }),
    decreases guesses.len(),
{
    if guesses.len() > 0 {
        let front = guesses.drop_last();
        assert forall|i: int| 0 <= i < front.len() implies is_wrong_guess(
            #[trigger] front[i],
            code,
        ) by {
            assert(front[i] == guesses[i]);
        }
        lemma_failures_are_counted(door, code, made, front);
        assert(is_wrong_guess(guesses[guesses.len() - 1], code));
    }
}

proof fn lemma_all_in_time(guesses: Seq<Guess>, made: nat)
    requires
        forall|i: int|
            0 <= i < guesses.len() ==> (#[trigger] guesses[i]).at < made + CODE_LIFETIME
                * 1_000_000_000,
    ensures
        in_time(guesses, made) == guesses.len(),
    decreases guesses.len(),
{
    if guesses.len() > 0 {
        let front = guesses.drop_last();
        assert forall|i: int| 0 <= i < front.len() implies (#[trigger] front[i]).at < made
            + CODE_LIFETIME * 1_000_000_000 by {
            assert(front[i] == guesses[i]);
        }
        lemma_all_in_time(front, made);
        assert(guesses[guesses.len() - 1].at < made + CODE_LIFETIME * 1_000_000_000);
    }
}

/// Wrong answers to an earlier code do not count against the next: it takes as
/// many again to shut it.
pub proof fn law_an_offer_clears_the_count(
    door: Door,
    earlier: Seq<char>,
    before: nat,
    wasted: Seq<Guess>,
    code: Seq<char>,
    made: nat,
    guesses: Seq<Guess>,
    then: nat,
)
    requires
        forall|i: int| 0 <= i < wasted.len() ==> is_wrong_guess(#[trigger] wasted[i], earlier),
        forall|i: int|
            0 <= i < guesses.len() ==> is_wrong_guess(#[trigger] guesses[i], code)
                && guesses[i].at < made + CODE_LIFETIME * 1_000_000_000,
        then < made + CODE_LIFETIME * 1_000_000_000,
    ensures
        ({
            let again = offering(guessed(offering(door, earlier, before), wasted), code, made);
            &&& open_at(guessed(again, guesses), then) <==> guesses.len() < MAX_ATTEMPTS
            &&& guessed(again, guesses).known == door.known
        }),
{
    let tried = guessed(offering(door, earlier, before), wasted);
    law_guessing_is_shut_down(door, earlier, before, wasted, then);
    law_guessing_is_shut_down(tried, code, made, guesses, then);
    lemma_all_in_time(guesses, made);
}

// -------------------------------------------------------------------- saving

/// A list of screens in the order of their ids is told by the screens in it: two
/// such lists of the same screens are the same.
proof fn lemma_one_list(a: Seq<Pairing>, b: Seq<Pairing>)
    requires
        ascending(a),
        ascending(b),
        by_id(a) == by_id(b),
    ensures
        a.len() == b.len(),
        forall|i: int|
            0 <= i < a.len() ==> (#[trigger] a[i]).peer_id@ == b[i].peer_id@ && paired_view(a[i])
                == paired_view(b[i]),
    decreases a.len(),
{
    lemma_by_id(a);
    lemma_by_id(b);
    if a.len() == 0 {
        if b.len() > 0 {
            assert(by_id(b).contains_key(b[0].peer_id@));
        }
    } else {
        assert(by_id(a).contains_key(a[0].peer_id@));
        assert(b.len() > 0);
        let (x, y) = (a[a.len() - 1], b[b.len() - 1]);
        assert(by_id(b).contains_key(x.peer_id@));
        assert(by_id(a).contains_key(y.peer_id@));
        let j = choose|j: int| 0 <= j < b.len() && (#[trigger] b[j]).peer_id@ == x.peer_id@;
        let i = choose|i: int| 0 <= i < a.len() && (#[trigger] a[i]).peer_id@ == y.peer_id@;
        lemma_precedes_total(x.peer_id@, y.peer_id@);
        lemma_precedes_total(y.peer_id@, x.peer_id@);
        if j < b.len() - 1 {
            assert(precedes(b[j].peer_id@, y.peer_id@));
            assert(i == a.len() - 1 || precedes(a[i].peer_id@, x.peer_id@));
        }
        assert(x.peer_id@ == y.peer_id@);
        assert(by_id(a)[a[a.len() - 1].peer_id@] == paired_view(x));
        assert(by_id(b)[b[b.len() - 1].peer_id@] == paired_view(y));
        let (front, back) = (a.drop_last(), b.drop_last());
        lemma_front(a);
        lemma_front(b);
        lemma_one_list(front, back);
        assert forall|k: int| 0 <= k < a.len() implies (#[trigger] a[k]).peer_id@ == b[k].peer_id@
            && paired_view(a[k]) == paired_view(b[k]) by {
            if k < front.len() {
                assert(front[k] == a[k] && back[k] == b[k]);
            }
        }
    }
}

proof fn lemma_front(list: Seq<Pairing>)
    requires
        ascending(list),
        list.len() > 0,
    ensures
        ascending(list.drop_last()),
        by_id(list.drop_last()) == by_id(list).remove(list.last().peer_id@),
{
    let front = list.drop_last();
    assert forall|i: int, j: int| 0 <= i < j < front.len() implies precedes(
        (#[trigger] front[i]).peer_id@,
        (#[trigger] front[j]).peer_id@,
    ) by {
        assert(front[i] == list[i] && front[j] == list[j]);
    }
    lemma_by_id(front);
    let id = list.last().peer_id@;
    if by_id(front).contains_key(id) {
        let i = choose|i: int| 0 <= i < front.len() && (#[trigger] front[i]).peer_id@ == id;
        assert(precedes(list[i].peer_id@, list[list.len() - 1].peer_id@));
        lemma_precedes_total(list[i].peer_id@, id);
    }
    assert(by_id(front) =~= by_id(list).remove(id));
}

/// The screens saved restore the door: one made of what a door gives to be saved
/// answers every screen as that door did, and gives the same to be saved again.
pub proof fn law_the_saved_screens_restore_the_door(
    door: Door,
    saved: Seq<Pairing>,
    again: Seq<Pairing>,
    reply: Reply,
    nonce: Seq<char>,
    now: nat,
)
    requires
        ascending(saved),
        by_id(saved) == door.known,
        ascending(again),
        by_id(again) == (Door { known: by_id(saved), offered: None }).known,
        reply is Hello,
    ensures
        judged(Door { known: by_id(saved), offered: None }, reply, nonce, now).0 == judged(
            door,
            reply,
            nonce,
            now,
        ).0,
        again.len() == saved.len(),
        forall|i: int|
            0 <= i < saved.len() ==> (#[trigger] saved[i]).peer_id@ == again[i].peer_id@
                && paired_view(saved[i]) == paired_view(again[i]),
{
    lemma_one_list(saved, again);
}

/// A proof is of one nonce: what it is computed over is different for every other,
/// so that what was overheard once is of no use again.
pub proof fn law_a_proof_is_of_one_nonce(a: Seq<char>, b: Seq<char>)
    requires
        proof_message(a) == proof_message(b),
    ensures
        a == b,
{
    let prefix = encode_utf8("castavox-mirror-proof-v1"@);
    lemma_same_rest(prefix, a, b);
}

/// A token is of one screen and one nonce: what it is computed over is different
/// for every other screen that was asked the same, and for every other nonce.
pub proof fn law_a_token_is_of_one_screen(
    peer_id: Seq<char>,
    other: Seq<char>,
    nonce: Seq<char>,
    later: Seq<char>,
)
    ensures
        token_message(peer_id, nonce) == token_message(other, nonce) ==> peer_id == other,
        token_message(peer_id, nonce) == token_message(peer_id, later) ==> nonce == later,
{
    let prefix = encode_utf8("castavox-mirror-token-v1"@);
    if token_message(peer_id, nonce) == token_message(peer_id, later) {
        lemma_same_rest(prefix + encode_utf8(peer_id), nonce, later);
    }
    if token_message(peer_id, nonce) == token_message(other, nonce) {
        let tail = encode_utf8(nonce);
        let a = prefix + encode_utf8(peer_id);
        let b = prefix + encode_utf8(other);
        assert(a.len() == (a + tail).len() - tail.len());
        assert(b.len() == (b + tail).len() - tail.len());
        assert((a + tail).take(a.len() as int) =~= a);
        assert((b + tail).take(b.len() as int) =~= b);
        lemma_same_rest(prefix, peer_id, other);
    }
}

proof fn lemma_same_rest(prefix: Seq<u8>, a: Seq<char>, b: Seq<char>)
    requires
        prefix + encode_utf8(a) == prefix + encode_utf8(b),
    ensures
        a == b,
{
    assert((prefix + encode_utf8(a)).skip(prefix.len() as int) =~= encode_utf8(a));
    assert((prefix + encode_utf8(b)).skip(prefix.len() as int) =~= encode_utf8(b));
    vstd::utf8::encode_utf8_decode_utf8(a);
    vstd::utf8::encode_utf8_decode_utf8(b);
}

/// Somebody who got the code wrong is told how many tries are left of five, until
/// there are none.
pub proof fn law_the_tries_left_are_told(
    door: Door,
    offer: Offered,
    id: Seq<char>,
    name: Seq<char>,
    given: Seq<char>,
    nonce: Seq<char>,
    now: nat,
)
    requires
        offer.failures < 5,
        now < offer.made + 300_000_000_000,
        given != proof_of(offer.code, nonce),
    ensures
        ({
            let open = Door { offered: Some(offer), ..door };
            let (ruling, after) = judged(open, Reply::Pair { id, name, proof: given }, nonce, now);
            &&& after.offered == Some(Offered { failures: offer.failures + 1, ..offer })
            &&& ruling matches Ruling::Refused { reason }
            &&& offer.failures < 4 ==> reason == "That code is not right. "@ + decimal(
                (4 - offer.failures) as nat,
            ) + " more tries."@
            &&& offer.failures == 4 ==> reason
                == "That code was wrong too many times. Ask the desk for a new one."@
        }),
{
}

/// What becomes of each character of a code that was typed: a letter is made a
/// capital, a capital or a figure stays, and anything else goes.
pub proof fn law_a_character_is_tidied(c: char)
    ensures
        'a' <= c <= 'z' ==> normalised(seq![c]).len() == 1 && normalised(seq![c])[0] as int == c
            as int - 32,
        'A' <= c <= 'Z' || '0' <= c <= '9' ==> normalised(seq![c]) == seq![c],
        !('a' <= c <= 'z') && !('A' <= c <= 'Z') && !('0' <= c <= '9') ==> normalised(seq![c]).len()
            == 0,
{
    let one = seq![c];
    assert(one.drop_last() =~= Seq::<char>::empty());
    assert(normalised(one.drop_last()).len() == 0);
    assert(one.last() == c);
    if 'A' <= c <= 'Z' || '0' <= c <= '9' {
        assert(normalised(one) =~= seq![c]);
    }
}

} // verus!
