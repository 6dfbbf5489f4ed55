//! A hosted subscription, from the app's side.
//!
//! Activation exchanges a licence key for a device token. Entitlement reports
//! what is left of the plan, so the operator can see the hours without starting
//! a service to find out. What is sent, and what is made of an answer, stands
//! here; the sending does not.
//!
//! A machine holds a device token and nothing else. It is a secret, so it
//! belongs in the platform's credential store and never in a settings file.

use crate::assistant::{status_line, status_words};
use crate::bytes::{bytes_of, lemma_little_endian_len, little_endian};
use crate::digest::{hex, hex_of, lemma_hex_len};
use crate::json::{branches, field, lemma_branches, lemma_named, Json, Tree};
use crate::random::random_bytes;
use crate::text::{
    blank, decimal, is_blank, is_char, lemma_blank, push_decimal, same_text, trim_back,
    trim_end_char, trim_text, trimmed, whitespace,
};
use vstd::prelude::*;

verus! {

/// Where the broker lives, unless the environment says otherwise.
pub const DEFAULT_BASE: &'static str = "https://castavox.com";

/// Long enough for a slow connection, short enough that a settings dialog is
/// not simply stuck. In seconds.
pub const TIMEOUT: u64 = 20;

/// Which product is asking. The broker meters the two separately.
#[derive(Debug, Clone, Copy, PartialEq, Eq, Structural)]
pub enum App {
    Castavox,
    Pulpitry,
}

pub open spec fn app_name(app: App) -> Seq<char> {
    match app {
        App::Castavox => "castavox"@,
        App::Pulpitry => "pulpitry"@,
    }
}

impl App {
    pub fn as_str(self) -> (r: &'static str)
        ensures
            r@ == app_name(self),
    {
        match self {
            App::Castavox => "castavox",
            App::Pulpitry => "pulpitry",
        }
    }
}

/// What went wrong, in the only three ways that lead anywhere different.
#[derive(Debug, PartialEq, Eq)]
pub enum Error {
    /// The broker answered and said no. The message was written for the person
    /// at the desk and is shown to them unchanged.
    Refused { reason: String, message: String },
    /// The broker could not be reached at all.
    Unreachable(String),
    /// It answered something we could not read.
    Unexpected(String),
}

/// An error as contracts speak of it.
pub enum Trouble {
    Refused { reason: Seq<char>, message: Seq<char> },
    Unreachable(Seq<char>),
    Unexpected(Seq<char>),
}

impl View for Error {
    type V = Trouble;

    open spec fn view(&self) -> Trouble {
        match *self {
            Error::Refused { reason, message } => Trouble::Refused {
                reason: reason@,
                message: message@,
            },
            Error::Unreachable(detail) => Trouble::Unreachable(detail@),
            Error::Unexpected(detail) => Trouble::Unexpected(detail@),
        }
    }
}

/// What the person at the desk is told.
pub open spec fn shown(trouble: Trouble) -> Seq<char> {
    match trouble {
        Trouble::Refused { reason: _, message } => message,
        Trouble::Unreachable(_) =>
            "Could not reach Castavox. Check the internet connection and try again."@,
        Trouble::Unexpected(_) =>
            "Castavox gave an answer this version did not understand. Try updating."@,
    }
}

impl Error {
    /// What the person at the desk is told.
    pub fn message(&self) -> (r: String)
        ensures
            r@ == shown(self@),
    {
        match self {
            Error::Refused { reason: _, message } => message.clone(),
            Error::Unreachable(_) =>
                "Could not reach Castavox. Check the internet connection and try again.".to_owned(),
            Error::Unexpected(_) =>
                "Castavox gave an answer this version did not understand. Try updating.".to_owned(),
        }
    }

    /// The machine-readable reason, for code that must tell refusals apart.
    pub fn reason(&self) -> (r: &str)
        ensures
            r@ == match self@ {
                Trouble::Refused { reason, message: _ } => reason,
                Trouble::Unreachable(_) => "unreachable"@,
                Trouble::Unexpected(_) => "unexpected"@,
            },
    {
        match self {
            Error::Refused { reason, message: _ } => reason.as_str(),
            Error::Unreachable(_) => "unreachable",
            Error::Unexpected(_) => "unexpected",
        }
    }

    /// Whether trying the same thing later might work.
    pub fn is_temporary(&self) -> (r: bool)
        ensures
            r == (self@ is Unreachable),
    {
        match self {
            Error::Unreachable(_) => true,
            _ => false,
        }
    }
}

// ------------------------------------------------------------- subscriptions

/// A fraction, by the bits of its binary64 form.
#[derive(Debug, Clone, Copy, Default, PartialEq, Eq, Structural)]
pub struct Fraction {
    pub bits: u64,
}

/// What a plan has left this period.
#[derive(Debug, Clone, Default, PartialEq, Eq)]
pub struct Remaining {
    pub speech_seconds: i64,
    pub assistant_requests: i64,
    /// 0 to 1, of the allowance rather than of the ceiling.
    pub speech_used_fraction: Fraction,
    pub assistant_used_fraction: Fraction,
    /// The highest warning threshold passed, or none while there is room.
    pub warn_at: Option<Fraction>,
    pub period_ends_at: i64,
}

/// What one product has spent, so an operator can see where the hours went.
#[derive(Debug, Clone, Default, PartialEq, Eq)]
pub struct AppUsage {
    pub speech_seconds: i64,
    pub assistant_requests: i64,
}

#[derive(Debug, Clone, Default, PartialEq, Eq)]
pub struct Usage {
    pub total: i64,
    /// By the name of the product.
    pub by_app: Vec<(String, AppUsage)>,
}

#[derive(Debug, Clone, Default, PartialEq, Eq)]
pub struct Entitlement {
    pub status: String,
    pub expires_at: Option<i64>,
    pub period_ends_at: i64,
    pub remaining: Remaining,
    pub usage: Usage,
}

impl Entitlement {
    /// Whether this subscription may be used at all.
    pub fn is_active(&self) -> (r: bool)
        ensures
            r == (self.status@ == "active"@),
    {
        same_text(self.status.as_str(), "active")
    }
}

/// The answer to activating a machine. The token is returned once, here.
#[derive(Debug, Clone, PartialEq, Eq)]
pub struct Activated {
    pub token: String,
    pub subscription_id: String,
}

// ------------------------------------------------------------------ machines

/// `std::time::SystemTime::elapsed` since 1970, in nanoseconds by the machine's
/// clock; nothing where the clock stands before that. Which number it is rests
/// on the time, and nothing is claimed of it.
#[verifier::external_body]
fn nanos_since_1970() -> (r: Option<u128>) {
    std::time::UNIX_EPOCH.elapsed().ok().map(|d| d.as_nanos())
}

pub open spec fn device_name(bytes: Seq<u8>) -> Seq<char> {
    "dev_"@ + hex_of(bytes)
}

/// The identifier that some bytes make.
pub fn device_id(bytes: &[u8]) -> (r: String)
    ensures
        r@ == device_name(bytes@),
{
    let mut id: String = "dev_".to_owned();
    id.push_str(hex(bytes).as_str());
    id
}

/// What an identifier is made of: the bytes that were drawn, or else those of
/// the time, the lowest first.
pub open spec fn drawn_bytes(raw: Option<Vec<u8>>, nanos: u128) -> Seq<u8> {
    match raw {
        Some(raw) => raw@,
        None => little_endian(nanos as nat, 16),
    }
}

/// The identifier that some drawn bytes make, or the time where none could be
/// drawn.
pub fn device_id_drawn(raw: Option<Vec<u8>>, nanos: u128) -> (r: String)
    ensures
        r@ == device_name(drawn_bytes(raw, nanos)),
{
    let bytes: Vec<u8> = match raw {
        Some(raw) => raw,
        None => bytes_of(nanos),
    };
    device_id(bytes.as_slice())
}

/// A stable identifier for this machine, made once and kept. Random rather than
/// derived from the hardware, so that it fingerprints nothing; where the
/// operating system has no randomness to give, made from the time.
pub fn new_device_id() -> (r: String)
    ensures
        exists|bytes: Seq<u8>| bytes.len() == 16 && r@ == #[trigger] device_name(bytes),
{
    let raw: Option<Vec<u8>> = random_bytes(16);
    let nanos: u128 = match nanos_since_1970() {
        Some(nanos) => nanos,
        None => 0,
    };
    let ghost bytes = drawn_bytes(raw, nanos);
    let id: String = device_id_drawn(raw, nanos);
    proof {
        lemma_little_endian_len(nanos as nat, 16);
        assert(id@ == device_name(bytes));
    }
    id
}

/// Every identifier has the same length, and its mark in front.
pub proof fn law_a_device_id_has_its_shape(bytes: Seq<u8>)
    requires
        bytes.len() == 16,
    ensures
        device_name(bytes).len() == 36,
        device_name(bytes).take(4) == "dev_"@,
{
    reveal_strlit("dev_");
    lemma_hex_len(bytes);
    assert(device_name(bytes).take(4) =~= "dev_"@);
}

// --------------------------------------------------------------------- hours

/// Hours and minutes in words. What is left is never less than nothing.
pub open spec fn hours_and_minutes(seconds: i64) -> Seq<char> {
    let left: int = if seconds < 0 {
        0
    } else {
        seconds as int
    };
    let hours = left / 3600;
    let minutes = (left % 3600) / 60;
    if hours == 0 && minutes == 0 {
        "none left"@
    } else if hours == 0 {
        decimal(minutes as nat) + " min"@
    } else if minutes == 0 {
        decimal(hours as nat) + " hr"@
    } else {
        decimal(hours as nat) + " hr "@ + decimal(minutes as nat) + " min"@
    }
}

/// Hours and minutes, the way both products say it.
pub fn readable(seconds: i64) -> (r: String)
    ensures
        r@ == hours_and_minutes(seconds),
{
    let left: u64 = if seconds < 0 {
        0
    } else {
        seconds as u64
    };
    let hours: u64 = left / 3600;
    let minutes: u64 = (left % 3600) / 60;
    if hours == 0 && minutes == 0 {
        return "none left".to_owned();
    }
    let mut out: String = String::new();
    if hours > 0 {
        push_decimal(&mut out, hours);
        out.push_str(" hr");
        if minutes > 0 {
            out.push_str(" ");
        }
    }
    if minutes > 0 {
        push_decimal(&mut out, minutes);
        out.push_str(" min");
    }
    proof {
        reveal_strlit(" hr");
        reveal_strlit(" hr ");
        reveal_strlit(" ");
        assert(" hr "@ =~= " hr"@ + " "@);
        assert(out@ =~= hours_and_minutes(seconds));
    }
    out
}

// -------------------------------------------------------------------- broker

/// The broker, as the app talks to it.
pub struct Broker {
    base: String,
}

impl View for Broker {
    type V = Seq<char>;

    closed spec fn view(&self) -> Seq<char> {
        self.base@
    }
}

/// An address without the slashes at its end.
pub open spec fn base_of(address: Seq<char>) -> Seq<char> {
    trim_back(address, is_char('/'))
}

/// The address a broker is at, given what the environment says.
pub open spec fn chosen_base(variable: Option<Seq<char>>) -> Seq<char> {
    match variable {
        Some(address) if !blank(address) => base_of(address),
        _ => base_of(DEFAULT_BASE@),
    }
}

pub open spec fn activation(
    licence: Seq<char>,
    device_id: Seq<char>,
    app: App,
    name: Seq<char>,
) -> Tree {
    Tree::Object(
        seq![
            ("licence"@, Tree::Text(trimmed(licence))),
            ("deviceId"@, Tree::Text(device_id)),
            ("app"@, Tree::Text(app_name(app))),
            ("name"@, Tree::Text(name)),
        ],
    )
}

impl Broker {
    /// Points at the live broker, or wherever `CASTAVOX_BROKER_URL` says; what
    /// it says is handed in.
    pub fn new(variable: Option<String>) -> (r: Broker)
        ensures
            r@ == chosen_base(
                match variable {
                    Some(address) => Some(address@),
                    None => None,
                },
            ),
    {
        match variable {
            Some(address) => if is_blank(address.as_str()) {
                Broker::at(DEFAULT_BASE)
            } else {
                Broker::at(address.as_str())
            },
            None => Broker::at(DEFAULT_BASE),
        }
    }

    pub fn at(base: &str) -> (r: Broker)
        ensures
            r@ == base_of(base@),
    {
        Broker { base: trim_end_char(base, '/') }
    }

    /// What the bridge should be told, so it can open its own session.
    pub fn base_url(&self) -> (r: &str)
        ensures
            r@ == self@,
    {
        self.base.as_str()
    }

    /// Where a licence key is exchanged for a device token.
    pub fn activation_url(&self) -> (r: String)
        ensures
            r@ == self@ + "/api/v1/activate"@,
    {
        let mut url: String = self.base.clone();
        url.push_str("/api/v1/activate");
        url
    }

    /// What is sent to exchange a licence key for a device token.
    pub fn activation_body(licence: &str, device_id: &str, app: App, name: &str) -> (r: Json)
        ensures
            r@ == activation(licence@, device_id@, app, name@),
    {
        let mut fields: Vec<(String, Json)> = Vec::new();
        fields.push(("licence".to_owned(), Json::Text(trim_text(licence))));
        fields.push(("deviceId".to_owned(), Json::Text(device_id.to_owned())));
        fields.push(("app".to_owned(), Json::Text(app.as_str().to_owned())));
        fields.push(("name".to_owned(), Json::Text(name.to_owned())));
        proof {
            lemma_branches(fields@);
            assert(branches(fields@) =~= activation(licence@, device_id@, app, name@)->Object_0);
        }
        Json::Object(fields)
    }

    /// Where a device token is told what is left of its plan.
    pub fn entitlement_url(&self) -> (r: String)
        ensures
            r@ == self@ + "/api/v1/entitlement"@,
    {
        let mut url: String = self.base.clone();
        url.push_str("/api/v1/entitlement");
        url
    }
}

// ------------------------------------------------------------------- answers

/// What a refusal says of itself, as far as it says anything.
#[derive(Debug, Clone, PartialEq, Eq)]
pub struct Refusal {
    pub error: Option<String>,
    pub message: Option<String>,
}

pub open spec fn worded(words: Option<String>, otherwise: Seq<char>) -> Seq<char> {
    match words {
        Some(words) => words@,
        None => otherwise,
    }
}

/// What an answer that is no success comes to, given the words for its status.
/// Without words of its own it is not dressed up as a refusal.
pub open spec fn refusal_of(status: Seq<char>, refusal: Option<Refusal>) -> Trouble {
    match refusal {
        Some(refusal) if refusal.message is Some || refusal.error is Some => Trouble::Refused {
            reason: worded(refusal.error, "refused"@),
            message: worded(refusal.message, "Castavox refused that request."@),
        },
        _ => Trouble::Unexpected("HTTP "@ + status),
    }
}

/// What an answer that is no success comes to, given the words for its status.
pub fn refused(status: &str, refusal: Option<Refusal>) -> (r: Error)
    ensures
        r@ == refusal_of(status@, refusal),
{
    match refusal {
        Some(refusal) => if refusal.message.is_some() || refusal.error.is_some() {
            return Error::Refused {
                reason: match refusal.error {
                    Some(reason) => reason,
                    None => "refused".to_owned(),
                },
                message: match refusal.message {
                    Some(message) => message,
                    None => "Castavox refused that request.".to_owned(),
                },
            };
        },
        None => {},
    }
    let mut detail: String = "HTTP ".to_owned();
    detail.push_str(status);
    Error::Unexpected(detail)
}

/// An answer's body where it is a success, and otherwise a refusal worth
/// showing. `refusal` is what the body says when it is read as a refusal.
pub fn read(status: u16, body: String, refusal: Option<Refusal>) -> (r: Result<String, Error>)
    ensures
        200 <= status < 300 ==> r == Ok::<String, Error>(body),
        !(200 <= status < 300) ==> (r matches Err(error) && error@ == refusal_of(
            status_words(status),
            refusal,
        )),
{
    if 200 <= status && status < 300 {
        Ok(body)
    } else {
        Err(refused(status_line(status).as_str(), refusal))
    }
}

/// A refusal's own words are shown to the operator word for word.
pub proof fn law_a_refusal_is_shown_word_for_word(status: Seq<char>, refusal: Refusal)
    requires
        refusal.message is Some,
    ensures
        shown(refusal_of(status, Some(refusal))) == refusal.message->0@,
{
}

/// Time is said in hours and minutes, whole ones, and neither is said where there
/// is none of it; less than a minute is none left, and so is less than nothing.
pub proof fn law_time_is_said_in_hours_and_minutes(hours: nat, minutes: nat, seconds: nat)
    requires
        minutes < 60,
        seconds < 60,
        3600 * hours + 60 * minutes + seconds <= i64::MAX,
    ensures
        hours_and_minutes((3600 * hours + 60 * minutes + seconds) as i64) == if hours == 0
            && minutes == 0 {
            "none left"@
        } else if hours == 0 {
            decimal(minutes) + " min"@
        } else if minutes == 0 {
            decimal(hours) + " hr"@
        } else {
            decimal(hours) + " hr "@ + decimal(minutes) + " min"@
        },
        forall|owed: i64| owed < 0 ==> hours_and_minutes(owed) == "none left"@,
{
    let left: int = 3600 * (hours as int) + 60 * (minutes as int) + seconds;
    assert(left / 3600 == hours && left % 3600 == 60 * minutes + seconds) by (nonlinear_arith)
        requires
            left == 3600 * (hours as int) + 60 * (minutes as int) + seconds,
            0 <= minutes < 60,
            0 <= seconds < 60,
            0 <= hours,
    ;
}

/// An activation says which licence, on which machine, for which product, each
/// under its own name; the licence goes without the space around it.
pub proof fn law_an_activation_says_whose_it_is(
    licence: Seq<char>,
    device_id: Seq<char>,
    app: App,
    name: Seq<char>,
)
    ensures
        ({
            let sent = activation(licence, device_id, app, name);
            &&& field(sent, "licence"@) == Some(Tree::Text(trimmed(licence)))
            &&& field(sent, "deviceId"@) == Some(Tree::Text(device_id))
            &&& field(sent, "app"@) == Some(
                Tree::Text(
                    match app {
                        App::Castavox => "castavox"@,
                        App::Pulpitry => "pulpitry"@,
                    },
                ),
            )
            &&& field(sent, "name"@) == Some(Tree::Text(name))
        }),
{
    reveal_strlit("licence");
    reveal_strlit("deviceId");
    reveal_strlit("app");
    reveal_strlit("name");
    assert("licence"@.len() == 7 && "deviceId"@.len() == 8 && "app"@.len() == 3 && "name"@.len() == 4);
    let list = activation(licence, device_id, app, name)->Object_0;
    lemma_named(list, 0);
    lemma_named(list, 1);
    lemma_named(list, 2);
    lemma_named(list, 3);
}

/// The broker is where the environment says, with or without a slash at the end,
/// and otherwise at its own address.
pub proof fn law_the_environment_may_name_the_broker(address: Seq<char>)
    requires
        address.len() > 0,
        address.last() != '/',
        !blank(address),
    ensures
        chosen_base(Some(address)) == address,
        chosen_base(Some(address + seq!['/'])) == address,
        chosen_base(Some(Seq::empty())) == "https://castavox.com"@,
        chosen_base(None) == "https://castavox.com"@,
{
    reveal_strlit("https://castavox.com");
    let own = "https://castavox.com"@;
    let drop = is_char('/');
    assert(own[own.len() - 1] == 'm');
    assert(!drop(own.last()));
    assert(trim_back(own, drop) == own);
    assert(!drop(address.last()));
    assert(trim_back(address, drop) == address);
    let longer = address + seq!['/'];
    assert(longer.drop_last() =~= address);
    assert(drop(longer.last()));
    lemma_blank(address);
    lemma_blank(longer);
    let k = choose|k: int| 0 <= k < address.len() && !whitespace(#[trigger] address[k]);
    assert(longer[k] == address[k]);
    lemma_blank(Seq::empty());
}

} // verus!
