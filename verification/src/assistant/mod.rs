//! Asking a language model for something.
//!
//! Underneath, every service takes a list of messages and returns a message.
//! What differs is the address, the header the key goes in and, for one of
//! them, where the system prompt lives. What is sent, what is made of the
//! answer, and when to ask again, is decided here; sending it is not.

pub mod asked;
pub mod exchange;
pub mod stretches;

pub use exchange::{content_of, received, request, retry_after, shaped, Asking, Request, Step};
pub use stretches::chunks;

use crate::text::{
    blank, chars_list, chars_of, contains, copy_range, ends_with, find, finishes, first_at,
    is_blank, is_char, lemma_prefix_step, lemma_split_on_nonempty, lowercase, same_text,
    split_at_char, split_on, starts_with, text_contains, text_ends_with, text_of, text_starts_with,
    texts, to_lowercase, trim_back, trim_end_char, trim_text, trimmed,
};
use vstd::prelude::*;

verus! {

/// The version of its API that Azure is asked for when none is named.
pub const DEFAULT_API_VERSION: &'static str = "2024-05-01-preview";

/// The version Anthropic requires in a header.
pub const ANTHROPIC_VERSION: &'static str = "2023-06-01";

/// Anthropic will not choose a length for us, so this does.
pub const ANTHROPIC_MAX_TOKENS: u64 = 8192;

/// The longest wait a busy service is given at once, in seconds.
pub const LONGEST_WAIT: u64 = 60;

// --------------------------------------------------------------------- types

/// Why a completion did not come back.
#[derive(Debug, PartialEq, Eq)]
pub enum Failure {
    /// Network, TLS, a timeout. Nothing a different body would fix.
    Unreachable(String),
    /// It answered, and said no.
    Refused { status: u16, payload: String },
    /// It answered with something that was not a completion.
    Unexpected(String),
}

/// A failure as contracts speak of it.
pub enum Fault {
    Unreachable(Seq<char>),
    Refused { status: u16, payload: Seq<char> },
    Unexpected(Seq<char>),
}

impl View for Failure {
    type V = Fault;

    open spec fn view(&self) -> Fault {
        match *self {
            Failure::Unreachable(detail) => Fault::Unreachable(detail@),
            Failure::Refused { status, payload } => Fault::Refused { status, payload: payload@ },
            Failure::Unexpected(detail) => Fault::Unexpected(detail@),
        }
    }
}

/// What is told of a reply: a text, or why there is none.
pub open spec fn told(r: Result<String, Failure>) -> Result<Seq<char>, Fault> {
    match r {
        Ok(text) => Ok(text@),
        Err(failure) => Err(failure@),
    }
}

/// How a service expects to be asked.
#[derive(Debug, Clone, Copy, PartialEq, Eq, Structural)]
pub enum Shape {
    /// `POST {base}/chat/completions`, key as a bearer token.
    OpenAi,
    /// The same body at `?api-version=`, key in an `api-key` header.
    Azure,
    /// `POST {base}/v1/messages`, the system prompt in a field of its own.
    Anthropic,
}

impl Default for Shape {
    fn default() -> (r: Self)
        ensures
            r == Shape::OpenAi,
    {
        Shape::OpenAi
    }
}

/// A church's own deployment.
#[derive(Debug, PartialEq, Eq)]
pub struct Deployment {
    /// e.g. `https://api.openai.com/v1`, or `http://localhost:11434/v1` for a
    /// model running on the machine itself.
    pub endpoint: String,
    /// Deployment or model name.
    pub model: String,
    /// Azure only, and ignored by the other two.
    pub api_version: String,
    pub shape: Shape,
}

impl Clone for Deployment {
    fn clone(&self) -> (r: Self)
        ensures
            r.endpoint@ == self.endpoint@,
            r.model@ == self.model@,
            r.api_version@ == self.api_version@,
            r.shape == self.shape,
    {
        Deployment {
            endpoint: self.endpoint.clone(),
            model: self.model.clone(),
            api_version: self.api_version.clone(),
            shape: self.shape,
        }
    }
}

impl Default for Deployment {
    fn default() -> (r: Self)
        ensures
            r.endpoint@.len() == 0,
            r.model@.len() == 0,
            r.api_version@.len() == 0,
            r.shape == Shape::OpenAi,
    {
        Deployment {
            endpoint: String::new(),
            model: String::new(),
            api_version: String::new(),
            shape: Shape::OpenAi,
        }
    }
}

/// Where a completion is sent, and on whose account.
pub enum Route<'a> {
    /// The church's own deployment and key.
    Own { deployment: &'a Deployment, key: &'a str },
    /// A hosted deployment, by way of the broker.
    Hosted { base: &'a str, device_token: &'a str },
}

pub open spec fn is_usable(route: Route) -> bool {
    match route {
        Route::Own { deployment, key } => !blank(deployment.endpoint@) && !blank(deployment.model@)
            && !blank(key@),
        Route::Hosted { base, device_token } => !blank(base@) && !blank(device_token@),
    }
}

impl<'a> Route<'a> {
    /// Whether this route has enough to be worth trying.
    pub fn usable(&self) -> (r: bool)
        ensures
            r == is_usable(*self),
    {
        match self {
            Route::Own { deployment, key } => {
                !is_blank(deployment.endpoint.as_str()) && !is_blank(deployment.model.as_str())
                    && !is_blank(key)
            },
            Route::Hosted { base, device_token } => !is_blank(base) && !is_blank(device_token),
        }
    }
}

/// A failure with its causes behind it, one after another.
pub open spec fn with_causes(said: Seq<char>, causes: Seq<Seq<char>>) -> Seq<char>
    decreases causes.len(),
{
    if causes.len() == 0 {
        said
    } else {
        with_causes(said, causes.drop_last()) + " \u{2014} "@ + causes.last()
    }
}

/// What a failure says, with the causes it hides behind one sentence: the first
/// five at most, because a log line is no place for an unbounded chain.
pub fn because(said: &str, causes: &[String]) -> (r: String)
    ensures
        r@ == with_causes(said@, if causes@.len() <= 5 {
            texts(causes@)
        } else {
            texts(causes@).take(5)
        }),
{
    let ghost all = texts(causes@);
    let mut out: String = said.to_owned();
    let mut i: usize = 0;
    assert(all.take(0) =~= Seq::empty());
    while i < causes.len() && i < 5
        invariant
            i <= causes.len(),
            i <= 5,
            all == texts(causes@),
            out@ == with_causes(said@, all.take(i as int)),
        decreases causes.len() - i,
    {
        proof {
            lemma_prefix_step(all, i as int);
        }
        out.push_str(" \u{2014} ");
        out.push_str(causes[i].as_str());
        i += 1;
    }
    if causes.len() <= 5 {
        assert(all.take(i as int) =~= all);
    }
    out
}

/// The words the `http` crate has for a status code.
pub uninterp spec fn status_words(status: u16) -> Seq<char>;

/// `reqwest::StatusCode`, written out: the code and its reason. What is written
/// depends on the code alone.
#[verifier::external_body]
pub(crate) fn status_line(status: u16) -> (r: String)
    ensures
        r@ == status_words(status),
{
    match reqwest::StatusCode::from_u16(status) {
        Ok(code) => code.to_string(),
        Err(error) => error.to_string(),
    }
}

/// The first characters of a payload, as many as fit a log line.
pub open spec fn shortened(payload: Seq<char>) -> Seq<char> {
    if payload.len() <= 300 {
        payload
    } else {
        payload.take(300)
    }
}

/// A failure in words, given those for its status.
pub open spec fn in_words(fault: Fault, status: Seq<char>) -> Seq<char> {
    match fault {
        Fault::Unreachable(detail) => "could not reach the model: "@ + detail,
        Fault::Refused { status: _, payload } => "the model returned "@ + status + ": "@
            + shortened(payload),
        Fault::Unexpected(detail) => detail,
    }
}

impl Failure {
    /// The failure in words, given those for its status.
    pub fn worded(&self, status: &str) -> (r: String)
        ensures
            r@ == in_words(self@, status@),
    {
        match self {
            Failure::Unreachable(detail) => {
                let mut out: String = "could not reach the model: ".to_owned();
                out.push_str(detail.as_str());
                out
            },
            Failure::Refused { status: _, payload } => {
                let mut out: String = "the model returned ".to_owned();
                out.push_str(status);
                out.push_str(": ");
                let chars: Vec<char> = chars_of(payload.as_str());
                let shown: usize = if chars.len() <= 300 {
                    chars.len()
                } else {
                    300
                };
                let part: String = text_of(copy_range(chars.as_slice(), 0, shown).as_slice());
                assert(part@ =~= shortened(payload@));
                out.push_str(part.as_str());
                out
            },
            Failure::Unexpected(detail) => detail.clone(),
        }
    }

    /// The failure in words, for a log.
    pub fn message(&self) -> (r: String)
        ensures
            match self@ {
                Fault::Refused { status, payload } => r@ == in_words(self@, status_words(status)),
                _ => r@ == in_words(self@, Seq::empty()),
            },
    {
        match self {
            Failure::Refused { status, payload: _ } => self.worded(status_line(*status).as_str()),
            _ => {
                let none: String = String::new();
                assert(none@ =~= Seq::empty());
                self.worded(none.as_str())
            },
        }
    }
}

// ----------------------------------------------------------------- addresses

/// What stands between the scheme of an address and the next slash.
pub open spec fn host_of(address: Seq<char>) -> Option<Seq<char>> {
    match first_at(address, "://"@, 0) {
        Some(at) => {
            let rest = address.skip(at + 3);
            let piece = match first_at(rest, "://"@, 0) {
                Some(end) => rest.take(end),
                None => rest,
            };
            Some(split_on(piece, '/')[0])
        },
        None => None,
    }
}

pub open spec fn is_foundry(base: Seq<char>) -> bool {
    host_of(base) matches Some(host) && ends_with(host, ".services.ai.azure.com"@)
}

/// An address as it was typed, without the space around it or the slashes at
/// its end.
pub open spec fn base_of(endpoint: Seq<char>) -> Seq<char> {
    trim_back(trimmed(endpoint), is_char('/'))
}

/// Where Anthropic takes messages.
pub open spec fn messages_url(base: Seq<char>) -> Seq<char> {
    if ends_with(base, "/messages"@) {
        base
    } else if ends_with(base, "/v1"@) {
        base + "/messages"@
    } else {
        base + "/v1/messages"@
    }
}

/// Where everybody else takes a chat completion. A Foundry resource gains the
/// `/models` segment unless a route was already named.
pub open spec fn completions_url(base: Seq<char>) -> Seq<char> {
    let routed = contains(base, "/models"@) || contains(base, "/openai/"@);
    let base = if is_foundry(base) && !routed {
        base + "/models"@
    } else {
        base
    };
    if ends_with(base, "/chat/completions"@) {
        base
    } else {
        base + "/chat/completions"@
    }
}

pub open spec fn version_of(api_version: Seq<char>) -> Seq<char> {
    if blank(api_version) {
        DEFAULT_API_VERSION@
    } else {
        trimmed(api_version)
    }
}

/// Where a completion is asked for. Only Azure versions its API in the query.
pub open spec fn url_of(endpoint: Seq<char>, api_version: Seq<char>, shape: Shape) -> Seq<char> {
    let base = base_of(endpoint);
    match shape {
        Shape::Anthropic => messages_url(base),
        Shape::OpenAi => completions_url(base),
        Shape::Azure => completions_url(base) + "?api-version="@ + version_of(api_version),
    }
}

fn host_part(address: &str) -> (r: Option<Vec<char>>)
    ensures
        match host_of(address@) {
            Some(host) => r matches Some(h) && h@ == host,
            None => r is None,
        },
{
    let chars: Vec<char> = chars_of(address);
    let mark: Vec<char> = chars_of("://");
    proof {
        reveal_strlit("://");
    }
    match find(chars.as_slice(), mark.as_slice()) {
        Some(at) => {
            let rest: Vec<char> = copy_range(chars.as_slice(), at + 3, chars.len());
            assert(rest@ =~= address@.skip(at + 3));
            let end: usize = match find(rest.as_slice(), mark.as_slice()) {
                Some(end) => end,
                None => rest.len(),
            };
            let piece: Vec<char> = copy_range(rest.as_slice(), 0, end);
            assert(piece@ =~= rest@.take(end as int));
            assert(rest@.take(rest@.len() as int) =~= rest@);
            let parts: Vec<Vec<char>> = split_at_char(piece.as_slice(), '/');
            let host: Vec<char> = copy_range(parts[0].as_slice(), 0, parts[0].len());
            assert(host@ =~= parts@[0]@);
            assert(chars_list(parts@)[0] == parts@[0]@);
            Some(host)
        },
        None => None,
    }
}

/// The address a completion is asked for at, tolerating the resource root or a
/// full path, with or without a trailing slash.
pub fn endpoint_url(endpoint: &str, api_version: &str, shape: Shape) -> (r: String)
    ensures
        r@ == url_of(endpoint@, api_version@, shape),
{
    let base: String = trim_end_char(trim_text(endpoint).as_str(), '/');
    if shape == Shape::Anthropic {
        let mut out: String = base.clone();
        if text_ends_with(base.as_str(), "/messages") {
        } else if text_ends_with(base.as_str(), "/v1") {
            out.push_str("/messages");
        } else {
            out.push_str("/v1/messages");
        }
        return out;
    }
    let foundry: bool = match host_part(base.as_str()) {
        Some(host) => finishes(
            host.as_slice(),
            chars_of(".services.ai.azure.com").as_slice(),
        ),
        None => false,
    };
    let routed: bool = text_contains(base.as_str(), "/models") || text_contains(
        base.as_str(),
        "/openai/",
    );
    let mut path: String = base;
    if foundry && !routed {
        path.push_str("/models");
    }
    if !text_ends_with(path.as_str(), "/chat/completions") {
        path.push_str("/chat/completions");
    }
    if shape == Shape::Azure {
        path.push_str("?api-version=");
        if is_blank(api_version) {
            path.push_str(DEFAULT_API_VERSION);
        } else {
            path.push_str(trim_text(api_version).as_str());
        }
    }
    path
}

pub open spec fn is_this_machine(host: Seq<char>) -> bool {
    host == "localhost"@ || host == "127.0.0.1"@ || host == "[::1]"@ || host == "::1"@
}

/// Whether a character ends the part of an address that names who is spoken to.
/// A backslash does, because an http address reads it as a slash.
pub open spec fn ends_authority(c: char) -> bool {
    c == '/' || c == '?' || c == '#' || c == '\\'
}

/// Where the part of an address that names who is spoken to ends.
pub open spec fn authority_end(rest: Seq<char>, from: int) -> int
    decreases rest.len() - from,
{
    if from < 0 || from >= rest.len() || ends_authority(rest[from]) {
        from
    } else {
        authority_end(rest, from + 1)
    }
}

/// Where the first closing bracket stands, or the end.
pub open spec fn bracket_end(name: Seq<char>, from: int) -> int
    decreases name.len() - from,
{
    if from < 0 || from >= name.len() || name[from] == ']' {
        from
    } else {
        bracket_end(name, from + 1)
    }
}

/// A host without the port behind it. One in brackets is read whole.
pub open spec fn without_port(name: Seq<char>) -> Seq<char> {
    if name.len() > 0 && name[0] == '[' {
        let close = bracket_end(name, 0);
        if close + 1 < name.len() && name[close + 1] == ':' {
            name.take(close + 1)
        } else {
            name
        }
    } else {
        split_on(name, ':')[0]
    }
}

/// The host an address speaks to, given what follows its scheme: what stands
/// before an at sign is for whoever answers there, and is no part of it.
pub open spec fn host_named(rest: Seq<char>) -> Seq<char> {
    without_port(split_on(rest.take(authority_end(rest, 0)), '@').last())
}

/// Whether an address may be used: over https, or over http to this machine.
pub open spec fn is_safe(endpoint: Seq<char>) -> bool {
    let address = trimmed(endpoint);
    ||| starts_with(address, "https://"@)
    ||| starts_with(address, "http://"@) && is_this_machine(host_named(address.skip(7)))
}

fn drop_port(name: &[char]) -> (r: Vec<char>)
    ensures
        r@ == without_port(name@),
{
    if name.len() > 0 && name[0] == '[' {
        let mut close: usize = 0;
        while close < name.len() && name[close] != ']'
            invariant
                close <= name.len(),
                bracket_end(name@, 0) == bracket_end(name@, close as int),
            decreases name.len() - close,
        {
            close += 1;
        }
        assert(bracket_end(name@, 0) == close);
        if close < name.len() && close + 1 < name.len() && name[close + 1] == ':' {
            let r: Vec<char> = copy_range(name, 0, close + 1);
            assert(r@ =~= name@.take(close + 1));
            return r;
        }
    } else {
        let parts: Vec<Vec<char>> = split_at_char(name, ':');
        let r: Vec<char> = copy_range(parts[0].as_slice(), 0, parts[0].len());
        assert(chars_list(parts@)[0] == parts@[0]@);
        assert(r@ =~= parts@[0]@);
        return r;
    }
    let r: Vec<char> = copy_range(name, 0, name.len());
    assert(r@ =~= name@);
    r
}

/// The host an address speaks to, given what follows its scheme.
pub fn host(rest: &[char]) -> (r: String)
    ensures
        r@ == host_named(rest@),
{
    let mut end: usize = 0;
    while end < rest.len() && !(rest[end] == '/' || rest[end] == '?' || rest[end] == '#'
        || rest[end] == '\\')
        invariant
            end <= rest.len(),
            authority_end(rest@, 0) == authority_end(rest@, end as int),
        decreases rest.len() - end,
    {
        end += 1;
    }
    let authority: Vec<char> = copy_range(rest, 0, end);
    assert(authority@ =~= rest@.take(authority_end(rest@, 0)));
    let parts: Vec<Vec<char>> = split_at_char(authority.as_slice(), '@');
    proof {
        lemma_split_on_nonempty(authority@, '@');
        assert(chars_list(parts@).len() == parts@.len());
        assert(chars_list(parts@).last() == parts@[parts@.len() - 1]@);
    }
    let name: Vec<char> = drop_port(parts[parts.len() - 1].as_slice());
    text_of(name.as_slice())
}

/// Whether an endpoint may be plain HTTP: only for a model on this machine.
pub fn transport_is_safe(endpoint: &str) -> (r: bool)
    ensures
        r == is_safe(endpoint@),
{
    let address: String = trim_text(endpoint);
    if text_starts_with(address.as_str(), "https://") {
        return true;
    }
    if !text_starts_with(address.as_str(), "http://") {
        return false;
    }
    proof {
        reveal_strlit("http://");
    }
    let chars: Vec<char> = chars_of(address.as_str());
    let rest: Vec<char> = copy_range(chars.as_slice(), 7, chars.len());
    assert(rest@ =~= address@.skip(7));
    let host: String = host(rest.as_slice());
    same_text(host.as_str(), "localhost") || same_text(host.as_str(), "127.0.0.1") || same_text(
        host.as_str(),
        "[::1]",
    ) || same_text(host.as_str(), "::1")
}

/// A key and a sermon do not cross a network in clear: an address that is not
/// https is used only where the host it speaks to is this machine.
pub proof fn law_plain_http_is_for_this_machine_only(endpoint: Seq<char>)
    requires
        is_safe(endpoint),
        !starts_with(trimmed(endpoint), "https://"@),
    ensures
        starts_with(trimmed(endpoint), "http://"@),
        is_this_machine(host_named(trimmed(endpoint).skip(7))),
{
}

proof fn lemma_shifted_end(whole: Seq<char>, rest: Seq<char>, by: int, from: int)
    requires
        0 <= by,
        0 <= from <= rest.len(),
        whole.len() == by + rest.len(),
        whole.skip(by) == rest,
    ensures
        authority_end(whole, by + from) == by + authority_end(rest, from),
        from <= authority_end(rest, from) <= rest.len(),
    decreases rest.len() - from,
{
    if from < rest.len() {
        assert(whole.skip(by)[from] == whole[by + from]);
        lemma_shifted_end(whole, rest, by, from + 1);
    }
}

proof fn lemma_passed(whole: Seq<char>, upto: int, from: int)
    requires
        0 <= from <= upto <= whole.len(),
        forall|i: int| 0 <= i < upto ==> !ends_authority(#[trigger] whole[i]),
    ensures
        authority_end(whole, from) == authority_end(whole, upto),
    decreases upto - from,
{
    if from < upto {
        lemma_passed(whole, upto, from + 1);
    }
}

proof fn lemma_last_part(before: Seq<char>, after: Seq<char>, separator: char)
    ensures
        split_on(before.push(separator) + after, separator).last() == split_on(
            after,
            separator,
        ).last(),
    decreases after.len(),
{
    let whole = before.push(separator) + after;
    lemma_split_on_nonempty(whole, separator);
    lemma_split_on_nonempty(after, separator);
    if after.len() == 0 {
        assert(whole =~= before.push(separator));
        assert(whole.drop_last() =~= before);
    } else {
        lemma_last_part(before, after.drop_last(), separator);
        assert(whole.drop_last() =~= before.push(separator) + after.drop_last());
        assert(whole.last() == after.last());
        lemma_split_on_nonempty(whole.drop_last(), separator);
        lemma_split_on_nonempty(after.drop_last(), separator);
    }
}

/// What stands before an at sign is no host, whatever it looks like: the host
/// is the one named behind it.
pub proof fn law_user_information_is_no_host(user: Seq<char>, rest: Seq<char>)
    requires
        forall|i: int| 0 <= i < user.len() ==> !ends_authority(#[trigger] user[i]),
    ensures
        host_named(user.push('@') + rest) == host_named(rest),
{
    let whole = user.push('@') + rest;
    let by = user.len() + 1;
    assert(whole.skip(by as int) =~= rest);
    assert forall|i: int| 0 <= i < by implies !ends_authority(#[trigger] whole[i]) by {
        if i < user.len() {
            assert(whole[i] == user[i]);
        }
    }
    lemma_passed(whole, by as int, 0);
    lemma_shifted_end(whole, rest, by as int, 0);
    let end = authority_end(rest, 0);
    assert(whole.take(by + end) =~= user.push('@') + rest.take(end));
    lemma_last_part(user, rest.take(end), '@');
}

// ------------------------------------------------------------------ refusals

/// Whether a lower-case payload names the shape that was asked for.
pub open spec fn names_the_format(lower: Seq<char>) -> bool {
    ||| contains(lower, "response_format"@)
    ||| contains(lower, "json_object"@)
    ||| contains(lower, "json mode"@)
    ||| contains(lower, "json_schema"@)
    ||| contains(lower, "structured output"@)
}

/// Whether a lower-case payload complains of length.
pub open spec fn names_the_length(lower: Seq<char>) -> bool {
    ||| contains(lower, "context_length_exceeded"@)
    ||| contains(lower, "string_above_max_length"@)
    ||| contains(lower, "maximum context length"@)
    ||| contains(lower, "context length"@)
    ||| contains(lower, "prompt is too long"@)
    ||| contains(lower, "too many tokens"@)
    ||| contains(lower, "reduce the length"@)
    ||| contains(lower, "max_tokens exceed"@)
    ||| contains(lower, "too_long"@)
}

/// Whether lower-case words are those of an untrusted certificate.
pub open spec fn names_a_certificate(lower: Seq<char>) -> bool {
    ||| contains(lower, "unknownissuer"@)
    ||| contains(lower, "invalid peer certificate"@)
    ||| contains(lower, "certificate verify failed"@)
    ||| contains(lower, "self-signed certificate"@)
    ||| contains(lower, "unable to get local issuer"@)
}

/// Whether a lower-case payload names the safety filter.
pub open spec fn names_the_filter(lower: Seq<char>) -> bool {
    ||| contains(lower, "content_filter"@)
    ||| contains(lower, "responsibleaipolicy"@)
    ||| contains(lower, "content management policy"@)
    ||| contains(lower, "\"filtered\""@)
}

/// Whether a lower-case payload names the shape that was asked for.
pub fn speaks_of_format(lower: &str) -> (r: bool)
    ensures
        r == names_the_format(lower@),
{
    text_contains(lower, "response_format") || text_contains(lower, "json_object")
        || text_contains(lower, "json mode") || text_contains(lower, "json_schema")
        || text_contains(lower, "structured output")
}

/// Whether a lower-case payload complains of length.
pub fn speaks_of_length(lower: &str) -> (r: bool)
    ensures
        r == names_the_length(lower@),
{
    text_contains(lower, "context_length_exceeded") || text_contains(
        lower,
        "string_above_max_length",
    ) || text_contains(lower, "maximum context length") || text_contains(lower, "context length")
        || text_contains(lower, "prompt is too long") || text_contains(lower, "too many tokens")
        || text_contains(lower, "reduce the length") || text_contains(lower, "max_tokens exceed")
        || text_contains(lower, "too_long")
}

/// Whether lower-case words are those of an untrusted certificate.
pub fn speaks_of_certificate(lower: &str) -> (r: bool)
    ensures
        r == names_a_certificate(lower@),
{
    text_contains(lower, "unknownissuer") || text_contains(lower, "invalid peer certificate")
        || text_contains(lower, "certificate verify failed") || text_contains(
        lower,
        "self-signed certificate",
    ) || text_contains(lower, "unable to get local issuer")
}

/// Whether a lower-case payload names the safety filter.
pub fn speaks_of_filter(lower: &str) -> (r: bool)
    ensures
        r == names_the_filter(lower@),
{
    text_contains(lower, "content_filter") || text_contains(lower, "responsibleaipolicy")
        || text_contains(lower, "content management policy") || text_contains(
        lower,
        "\"filtered\"",
    )
}

/// Whether a refusal was about `response_format` rather than about us.
pub fn is_response_format_refusal(payload: &str) -> (r: bool)
    ensures
        r == names_the_format(lowercase(payload@)),
{
    speaks_of_format(to_lowercase(payload).as_str())
}

/// Whether a refusal is the model saying the transcript was too long.
pub fn is_too_long_refusal(payload: &str) -> (r: bool)
    ensures
        r == names_the_length(lowercase(payload@)),
{
    speaks_of_length(to_lowercase(payload).as_str())
}

/// Whether the connection was intercepted rather than merely failing.
pub fn is_intercepted(detail: &str) -> (r: bool)
    ensures
        r == names_a_certificate(lowercase(detail@)),
{
    speaks_of_certificate(to_lowercase(detail).as_str())
}

/// Whether the model's safety filter objected to the request.
pub fn is_filtered_refusal(payload: &str) -> (r: bool)
    ensures
        r == names_the_filter(lowercase(payload@)),
{
    speaks_of_filter(to_lowercase(payload).as_str())
}

} // verus!
