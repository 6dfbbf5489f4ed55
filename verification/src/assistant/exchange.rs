//! What is sent to a model, what is made of its reply, and when it is asked
//! again.

use crate::assistant::{
    endpoint_url, is_safe, names_the_format, speaks_of_format, told, transport_is_safe, url_of,
    Failure, Fault, Route, Shape, ANTHROPIC_MAX_TOKENS, ANTHROPIC_VERSION, LONGEST_WAIT,
};
use crate::json::{
    branches, field, field_from, field_in, first_in, get_in, json_of, lemma_branches,
    lemma_place_of, lemma_trees, not_named, position, read_json, remove_field, set_field,
    text_in, tree, trees, with_field, without_field, Figure, Json, Numeral, Tree,
};
use crate::text::{
    chars_of, is_char, join_texts, joined, lemma_prefix_step, lowercase, parse_u64, push_text,
    same_text, texts, to_lowercase, trim_back, trim_end_char, unsigned_value,
};
use vstd::prelude::*;

verus! {

// ------------------------------------------------------------------- replies

/// The seconds a reply asks for, if it names a number.
pub open spec fn wait_in(reply: Tree) -> Option<u64> {
    let named = match field(reply, "retryAfter"@) {
        Some(value) => Some(value),
        None => field(reply, "retry_after"@),
    };
    match named {
        Some(Tree::Number(Figure::Unsigned(n))) => Some(n),
        Some(Tree::Text(text)) => match unsigned_value(text, u64::MAX as int) {
            Some(n) => Some(n as u64),
            None => None,
        },
        _ => None,
    }
}

/// The seconds a reply asks for, once it has been read as JSON.
pub fn wait_of(reply: &Json) -> (r: Option<u64>)
    ensures
        r == wait_in(reply@),
{
    let named: Option<&Json> = match reply.get("retryAfter") {
        Some(value) => Some(value),
        None => reply.get("retry_after"),
    };
    match named {
        Some(Json::Number(Numeral::Unsigned(n))) => Some(*n),
        Some(Json::Text(text)) => parse_u64(chars_of(text.as_str()).as_slice()),
        _ => None,
    }
}

/// The seconds a payload asks for: none where it is not JSON.
pub open spec fn wait_asked(payload: Seq<char>) -> Option<u64> {
    match json_of(payload) {
        Ok(reply) => wait_in(reply),
        Err(_) => None,
    }
}

/// Seconds the service asked us to wait, if it named a number.
pub fn retry_after(payload: &str) -> (r: Option<u64>)
    ensures
        r == wait_asked(payload@),
{
    match read_json(payload) {
        Ok(reply) => wait_of(&reply),
        Err(_) => None,
    }
}

/// What a block of a reply says: nothing where the model was thinking aloud.
pub open spec fn block_says(block: Tree) -> Seq<char> {
    if text_in(field(block, "type"@)) == Some("thinking"@) {
        Seq::empty()
    } else {
        match text_in(field(block, "text"@)) {
            Some(text) => text,
            None => Seq::empty(),
        }
    }
}

/// What the blocks of a reply say, one after another.
pub open spec fn blocks_say(blocks: Seq<Tree>) -> Seq<char>
    decreases blocks.len(),
{
    if blocks.len() == 0 {
        Seq::empty()
    } else {
        blocks_say(blocks.drop_last()) + block_says(blocks.last())
    }
}

/// The answer in a reply: where most services put it, or else where Anthropic
/// does, or else nothing.
pub open spec fn answer_in(reply: Tree) -> Seq<char> {
    let choice = first_in(field(reply, "choices"@));
    match text_in(field_in(field_in(choice, "message"@), "content"@)) {
        Some(text) => text,
        None => match field(reply, "content"@) {
            Some(Tree::List(blocks)) => blocks_say(blocks),
            _ => Seq::empty(),
        },
    }
}

fn has_text(json: Option<&Json>, wanted: &str) -> (r: bool)
    ensures
        r == (json matches Some(j) && text_in(Some(j@)) == Some(wanted@)),
{
    match json {
        Some(Json::Text(text)) => same_text(text.as_str(), wanted),
        _ => false,
    }
}

/// The answer in a reply, once it has been read as JSON.
pub fn answer_of(reply: &Json) -> (r: String)
    ensures
        r@ == answer_in(reply@),
{
    let choice: Option<&Json> = match reply.get("choices") {
        Some(choices) => choices.first(),
        None => None,
    };
    let content: Option<&Json> = get_in(get_in(choice, "message"), "content");
    if let Some(Json::Text(text)) = content {
        return text.clone();
    }
    let mut out: String = String::new();
    if let Some(Json::List(blocks)) = reply.get("content") {
        let ghost all = trees(blocks@);
        proof {
            lemma_trees(blocks@);
        }
        assert(out@ =~= blocks_say(all.take(0)));
        let mut i: usize = 0;
        while i < blocks.len()
            invariant
                i <= blocks.len(),
                all.len() == blocks@.len(),
                forall|k: int| 0 <= k < blocks@.len() ==> #[trigger] all[k] == tree(blocks@[k]),
                out@ == blocks_say(all.take(i as int)),
            decreases blocks.len() - i,
        {
            proof {
                lemma_prefix_step(all, i as int);
                assert(all[i as int] == blocks@[i as int]@);
            }
            if !has_text(blocks[i].get("type"), "thinking") {
                if let Some(Json::Text(text)) = blocks[i].get("text") {
                    out.push_str(text.as_str());
                }
            }
            assert(out@ =~= blocks_say(all.take(i + 1)));
            i += 1;
        }
        assert(all.take(all.len() as int) =~= all);
    } else {
        assert(out@ =~= Seq::empty());
    }
    out
}

/// What a payload comes to: the answer in it, or that it is not JSON.
pub open spec fn answer_to(payload: Seq<char>) -> Result<Seq<char>, Fault> {
    match json_of(payload) {
        Ok(reply) => Ok(answer_in(reply)),
        Err(error) => Err(Fault::Unexpected("the model response was not JSON: "@ + error)),
    }
}

/// Digs the message content out of a chat completion.
pub fn content_of(payload: &str) -> (r: Result<String, Failure>)
    ensures
        told(r) == answer_to(payload@),
{
    match read_json(payload) {
        Ok(reply) => Ok(answer_of(&reply)),
        Err(error) => {
            let mut detail: String = "the model response was not JSON: ".to_owned();
            detail.push_str(error.as_str());
            Err(Failure::Unexpected(detail))
        },
    }
}

// ------------------------------------------------------------------- shaping

pub open spec fn is_system(message: Tree) -> bool {
    text_in(field(message, "role"@)) == Some("system"@)
}

/// What the system messages among some say.
pub open spec fn system_prompts(messages: Seq<Tree>) -> Seq<Seq<char>>
    decreases messages.len(),
{
    if messages.len() == 0 {
        Seq::empty()
    } else {
        let before = system_prompts(messages.drop_last());
        match text_in(field(messages.last(), "content"@)) {
            Some(text) if is_system(messages.last()) => before.push(text),
            _ => before,
        }
    }
}

pub open spec fn from_others(messages: Seq<Tree>) -> Seq<Tree> {
    messages.filter(|m: Tree| !is_system(m))
}

/// A body's fields with the system prompt in a field of its own.
pub open spec fn prompt_lifted(fields: Seq<(Seq<char>, Tree)>) -> Seq<(Seq<char>, Tree)> {
    match field_from(fields, "messages"@, 0) {
        Some(Tree::List(messages)) => {
            let fields = with_field(fields, "messages"@, Tree::List(from_others(messages)));
            let prompts = system_prompts(messages);
            if prompts.len() == 0 {
                fields
            } else {
                with_field(fields, "system"@, Tree::Text(joined(prompts, "\n\n"@)))
            }
        },
        _ => fields,
    }
}

/// A body's fields with a length, which is the caller's where there is one.
pub open spec fn length_given(fields: Seq<(Seq<char>, Tree)>) -> Seq<(Seq<char>, Tree)> {
    if field_from(fields, "max_tokens"@, 0) is Some {
        fields
    } else {
        with_field(fields, "max_tokens"@, Tree::Number(Figure::Unsigned(ANTHROPIC_MAX_TOKENS)))
    }
}

/// A body as Anthropic expects it.
pub open spec fn for_anthropic(body: Tree) -> Tree {
    match body {
        Tree::Object(fields) => Tree::Object(
            without_field(length_given(prompt_lifted(fields)), "response_format"@),
        ),
        _ => body,
    }
}

pub open spec fn speaks_anthropic(route: Route) -> bool {
    route matches Route::Own { deployment, .. } && deployment.shape == Shape::Anthropic
}

/// A body addressed the way a route expects.
pub open spec fn shaped_for(route: Route, body: Tree) -> Tree {
    if speaks_anthropic(route) {
        for_anthropic(body)
    } else {
        body
    }
}

/// Parts messages into what the system ones say and the others.
fn part_messages(messages: &Vec<Json>) -> (r: (Vec<String>, Vec<Json>))
    ensures
        texts(r.0@) == system_prompts(trees(messages@)),
        trees(r.1@) == from_others(trees(messages@)),
{
    let ghost all = trees(messages@);
    let ghost keep = |m: Tree| !is_system(m);
    let mut prompts: Vec<String> = Vec::new();
    let mut others: Vec<Json> = Vec::new();
    proof {
        lemma_trees(messages@);
        reveal(Seq::filter);
        assert(texts(prompts@) =~= system_prompts(all.take(0)));
        assert(trees(others@) =~= all.take(0).filter(keep));
    }
    let mut i: usize = 0;
    while i < messages.len()
        invariant
            i <= messages.len(),
            all.len() == messages@.len(),
            forall|k: int| 0 <= k < messages@.len() ==> #[trigger] all[k] == tree(messages@[k]),
            keep == (|m: Tree| !is_system(m)),
            texts(prompts@) == system_prompts(all.take(i as int)),
            trees(others@) == all.take(i as int).filter(keep),
        decreases messages.len() - i,
    {
        proof {
            lemma_prefix_step(all, i as int);
            reveal(Seq::filter);
            assert(all[i as int] == messages@[i as int]@);
        }
        if has_text(messages[i].get("role"), "system") {
            if let Some(Json::Text(text)) = messages[i].get("content") {
                push_text(&mut prompts, text.clone());
            }
        } else {
            let ghost before = others@;
            others.push(messages[i].clone());
            assert(others@.drop_last() =~= before);
        }
        i += 1;
    }
    assert(all.take(all.len() as int) =~= all);
    (prompts, others)
}

/// The same request, addressed the way this service expects. Anthropic needs
/// the system message lifted out into a field of its own, and a `max_tokens`
/// that it will not default.
pub fn shaped(route: &Route<'_>, body: &Json) -> (r: Json)
    ensures
        r@ == shaped_for(*route, body@),
{
    let anthropic: bool = match route {
        Route::Own { deployment, .. } => deployment.shape == Shape::Anthropic,
        Route::Hosted { .. } => false,
    };
    if !anthropic {
        return body.clone();
    }
    match body.clone() {
        Json::Object(mut fields) => {
            let ghost given = branches(fields@);
            proof {
                lemma_branches(fields@);
                lemma_place_of(given, "messages"@, 0);
            }
            let parted: Option<(Vec<String>, Vec<Json>)> = match position(&fields, "messages") {
                Some(at) => {
                    assert(given[at as int] == (fields@[at as int].0@, tree(fields@[at as int].1)));
                    match &fields[at].1 {
                        Json::List(messages) => Some(part_messages(messages)),
                        _ => None,
                    }
                },
                None => None,
            };
            if let Some((prompts, others)) = parted {
                set_field(&mut fields, "messages", Json::List(others));
                if prompts.len() > 0 {
                    let prompt: String = join_texts(prompts.as_slice(), "\n\n");
                    set_field(&mut fields, "system", Json::Text(prompt));
                }
            }
            assert(branches(fields@) == prompt_lifted(given));
            proof {
                lemma_place_of(branches(fields@), "max_tokens"@, 0);
            }
            if position(&fields, "max_tokens").is_none() {
                set_field(
                    &mut fields,
                    "max_tokens",
                    Json::Number(Numeral::Unsigned(ANTHROPIC_MAX_TOKENS)),
                );
            }
            Json::Object(remove_field(fields, "response_format"))
        },
        other => other,
    }
}

/// Whatever Anthropic is sent, no system message is left among the others.
pub proof fn law_no_system_message_stays(messages: Seq<Tree>, i: int)
    requires
        0 <= i < from_others(messages).len(),
    ensures
        !is_system(from_others(messages)[i]),
        messages.contains(from_others(messages)[i]),
    decreases messages.len(),
{
    reveal(Seq::filter);
    let keep = |m: Tree| !is_system(m);
    let before = messages.drop_last();
    if i < from_others(before).len() {
        law_no_system_message_stays(before, i);
        let at = choose|k: int| 0 <= k < before.len() && before[k] == from_others(before)[i];
        assert(messages[at] == from_others(messages)[i]);
    } else {
        assert(messages[messages.len() - 1] == from_others(messages)[i]);
    }
}

proof fn lemma_without_field(fields: Seq<(Seq<char>, Tree)>, name: Seq<char>, i: int)
    requires
        0 <= i,
    ensures
        field_from(without_field(fields, name), name, i) is None,
    decreases without_field(fields, name).len() - i,
{
    if i < without_field(fields, name).len() {
        fields.lemma_filter_pred(not_named(name), i);
        lemma_without_field(fields, name, i + 1);
    }
}

/// Anthropic is never sent a response format, which is not a parameter it
/// knows.
pub proof fn law_anthropic_is_sent_no_response_format(body: Tree)
    requires
        body is Object,
    ensures
        field(for_anthropic(body), "response_format"@) is None,
{
    lemma_without_field(length_given(prompt_lifted(body->Object_0)), "response_format"@, 0);
}

// ------------------------------------------------------------------- sending

/// A request, ready to be posted.
#[derive(Debug, PartialEq, Eq)]
pub struct Request {
    pub url: String,
    /// Header names and values.
    pub headers: Vec<(String, String)>,
    /// The bearer token, where one is sent.
    pub bearer: Option<String>,
    pub body: Json,
}

/// A request as contracts speak of it.
pub struct Post {
    pub url: Seq<char>,
    pub headers: Seq<(Seq<char>, Seq<char>)>,
    pub bearer: Option<Seq<char>>,
    pub body: Tree,
}

pub open spec fn header_list(headers: Seq<(String, String)>) -> Seq<(Seq<char>, Seq<char>)> {
    headers.map_values(|h: (String, String)| (h.0@, h.1@))
}

impl View for Request {
    type V = Post;

    open spec fn view(&self) -> Post {
        Post {
            url: self.url@,
            headers: header_list(self.headers@),
            bearer: match self.bearer {
                Some(token) => Some(token@),
                None => None,
            },
            body: self.body@,
        }
    }
}

/// What an operator is told of an address in clear.
pub open spec fn not_https() -> Seq<char> {
    "That address is not https. A model on this machine may use http://localhost; anywhere else the key and the sermon would cross the network in clear."@
}

pub open spec fn json_header() -> (Seq<char>, Seq<char>) {
    ("content-type"@, "application/json"@)
}

/// The request that carries a body on a route. An address in clear is refused
/// here, so that the operator is told why.
pub open spec fn post_of(route: Route, body: Tree) -> Result<Post, Fault> {
    match route {
        Route::Own { deployment, key } => {
            let url = url_of(deployment.endpoint@, deployment.api_version@, deployment.shape);
            if !is_safe(deployment.endpoint@) {
                Err(Fault::Unexpected(not_https()))
            } else {
                Ok(
                    Post {
                        url,
                        headers: match deployment.shape {
                            Shape::Azure => seq![("api-key"@, key@), json_header()],
                            Shape::OpenAi => seq![json_header()],
                            Shape::Anthropic => seq![
                                ("x-api-key"@, key@),
                                ("anthropic-version"@, ANTHROPIC_VERSION@),
                                json_header(),
                            ],
                        },
                        bearer: if deployment.shape == Shape::Anthropic {
                            None
                        } else {
                            Some(key@)
                        },
                        body: shaped_for(route, body),
                    },
                )
            }
        },
        Route::Hosted { base, device_token } => Ok(
            Post {
                url: trim_back(base@, is_char('/')) + "/api/v1/assist"@,
                headers: seq![json_header()],
                bearer: Some(device_token@),
                body,
            },
        ),
    }
}

/// The request that carries a body on a route, or why none may be sent.
pub fn request(route: &Route<'_>, body: &Json) -> (r: Result<Request, Failure>)
    ensures
        match post_of(*route, body@) {
            Ok(post) => r matches Ok(request) && request@ == post,
            Err(fault) => r matches Err(failure) && failure@ == fault,
        },
{
    let ghost wanted = post_of(*route, body@);
    let mut headers: Vec<(String, String)> = Vec::new();
    match route {
        Route::Own { deployment, key } => {
            if !transport_is_safe(deployment.endpoint.as_str()) {
                return Err(
                    Failure::Unexpected(
                        "That address is not https. A model on this machine may use http://localhost; anywhere else the key and the sermon would cross the network in clear.".to_owned(),
                    ),
                );
            }
            let url: String = endpoint_url(
                deployment.endpoint.as_str(),
                deployment.api_version.as_str(),
                deployment.shape,
            );
            let mut bearer: Option<String> = None;
            match deployment.shape {
                Shape::Azure => {
                    headers.push(("api-key".to_owned(), (*key).to_owned()));
                    bearer = Some((*key).to_owned());
                },
                Shape::OpenAi => {
                    bearer = Some((*key).to_owned());
                },
                Shape::Anthropic => {
                    headers.push(("x-api-key".to_owned(), (*key).to_owned()));
                    headers.push(("anthropic-version".to_owned(), ANTHROPIC_VERSION.to_owned()));
                },
            }
            headers.push(("content-type".to_owned(), "application/json".to_owned()));
            let request = Request { url, headers, bearer, body: shaped(route, body) };
            assert(request@.headers =~= wanted->Ok_0.headers);
            Ok(request)
        },
        Route::Hosted { base, device_token } => {
            let mut url: String = trim_end_char(base, '/');
            url.push_str("/api/v1/assist");
            headers.push(("content-type".to_owned(), "application/json".to_owned()));
            let request = Request {
                url,
                headers,
                bearer: Some((*device_token).to_owned()),
                body: body.clone(),
            };
            assert(request@.headers =~= wanted->Ok_0.headers);
            Ok(request)
        },
    }
}

/// What a response comes to. A redirect that changes host drops the
/// credential, so none is followed.
pub open spec fn outcome(status: u16, payload: Seq<char>) -> Result<Seq<char>, Fault> {
    if 300 <= status < 400 {
        Err(
            Fault::Unexpected("the model endpoint redirected; it must name the canonical host"@),
        )
    } else if 200 <= status < 300 {
        Ok(payload)
    } else {
        Err(Fault::Refused { status, payload })
    }
}

/// What a response comes to: its payload, or why it is no answer.
pub fn received(status: u16, payload: String) -> (r: Result<String, Failure>)
    ensures
        told(r) == outcome(status, payload@),
{
    if 300 <= status && status < 400 {
        Err(
            Failure::Unexpected(
                "the model endpoint redirected; it must name the canonical host".to_owned(),
            ),
        )
    } else if 200 <= status && status < 300 {
        Ok(payload)
    } else {
        Err(Failure::Refused { status, payload })
    }
}

// -------------------------------------------------------------------- asking

/// How often a busy model is waited for.
pub const BUSY_ATTEMPTS: u8 = 3;

/// How long the next wait for a busy model is, in seconds, when the service
/// does not say.
pub open spec fn busy_wait(attempt: u8) -> u64 {
    if attempt == 0 {
        3
    } else if attempt == 1 {
        8
    } else {
        20
    }
}

/// The wait before asking a busy model again: what it asked for, within reason.
pub open spec fn wait_before(attempt: u8, asked: Option<u64>) -> u64 {
    let seconds = match asked {
        Some(n) => n,
        None => busy_wait(attempt),
    };
    if seconds <= LONGEST_WAIT {
        seconds
    } else {
        LONGEST_WAIT
    }
}

/// A question that is being asked of a model.
#[derive(Debug, PartialEq, Eq)]
pub struct Asking {
    /// The body to send next, before it is shaped for its route.
    pub body: Json,
    /// Whether a shape was asked for, by us or by the caller.
    pub shape_asked: bool,
    /// Whether it is being asked again without one.
    pub retried: bool,
    /// How often a busy model has been waited for.
    pub waited: u8,
}

/// A question as contracts speak of it.
pub struct Question {
    pub body: Tree,
    pub shape_asked: bool,
    pub retried: bool,
    pub waited: u8,
}

/// What to do with a question next.
#[derive(Debug, PartialEq, Eq)]
pub enum Step {
    /// It has been answered, or it has failed.
    Done(Result<String, Failure>),
    /// Wait so many seconds and send it again.
    Wait(u64),
    /// Send it again at once, as it now stands.
    Resend,
}

/// A step as contracts speak of it.
pub enum Move {
    Done(Result<Seq<char>, Fault>),
    Wait(u64),
    Resend,
}

impl View for Step {
    type V = Move;

    open spec fn view(&self) -> Move {
        match *self {
            Step::Done(result) => Move::Done(told(result)),
            Step::Wait(seconds) => Move::Wait(seconds),
            Step::Resend => Move::Resend,
        }
    }
}

impl View for Asking {
    type V = Question;

    open spec fn view(&self) -> Question {
        Question {
            body: self.body@,
            shape_asked: self.shape_asked,
            retried: self.retried,
            waited: self.waited,
        }
    }
}

pub open spec fn any_json() -> Tree {
    Tree::Object(seq![("type"@, Tree::Text("json_object"@))])
}

/// A body that asks for JSON, unless it already asks for a shape of its own. A
/// null body becomes one that asks for nothing else.
pub open spec fn strict(body: Tree) -> Tree {
    match body {
        Tree::Object(fields) if field(body, "response_format"@) is None => Tree::Object(
            with_field(fields, "response_format"@, any_json()),
        ),
        Tree::Null => Tree::Object(
            with_field(Seq::empty(), "response_format"@, any_json()),
        ),
        _ => body,
    }
}

/// A body with the name of a church's own model filled in, where the caller
/// named none. The broker knows what it is running.
pub open spec fn model_named(route: Route, body: Tree) -> Tree {
    match (route, body) {
        (Route::Own { deployment, .. }, Tree::Object(fields)) if field(body, "model"@) is None =>
            Tree::Object(with_field(fields, "model"@, Tree::Text(deployment.model@))),
        _ => body,
    }
}

pub open spec fn first_question(route: Route, body: Tree, strict_json: bool) -> Question {
    let body = if strict_json {
        strict(body)
    } else {
        body
    };
    Question {
        body: model_named(route, body),
        shape_asked: field(body, "response_format"@) is Some,
        retried: false,
        waited: 0,
    }
}

pub open spec fn without_shape(body: Tree) -> Tree {
    match body {
        Tree::Object(fields) => Tree::Object(without_field(fields, "response_format"@)),
        _ => body,
    }
}

/// What becomes of a question when a reply comes.
pub open spec fn after_reply(
    question: Question,
    reply: Result<Seq<char>, Fault>,
) -> (Question, Move) {
    match reply {
        Ok(payload) => (question, Move::Done(answer_to(payload))),
        Err(Fault::Refused { status, payload }) => {
            if status == 429 && question.waited < BUSY_ATTEMPTS {
                (
                    Question { waited: (question.waited + 1) as u8, ..question },
                    Move::Wait(wait_before(question.waited, wait_asked(payload))),
                )
            } else if question.shape_asked && !question.retried && names_the_format(
                lowercase(payload),
            ) {
                (
                    Question {
                        body: without_shape(question.body),
                        retried: true,
                        waited: 0,
                        ..question
                    },
                    Move::Resend,
                )
            } else {
                (question, Move::Done(Err(Fault::Refused { status, payload })))
            }
        },
        Err(fault) => (question, Move::Done(Err(fault))),
    }
}

impl Asking {
    /// A question for a model. `strict_json` asks for a JSON object; a caller
    /// that has asked for a shape of its own keeps it.
    pub fn new(route: &Route<'_>, body: Json, strict_json: bool) -> (r: Asking)
        requires
            strict_json ==> body is Object || body is Null,
        ensures
            r@ == first_question(*route, body@, strict_json),
    {
        let ghost given = body@;
        let mut body: Json = body;
        if strict_json {
            let mut fields: Vec<(String, Json)> = match body {
                Json::Object(fields) => fields,
                _ => Vec::new(),
            };
            proof {
                lemma_place_of(branches(fields@), "response_format"@, 0);
            }
            if position(&fields, "response_format").is_none() {
                let mut kind: Vec<(String, Json)> = Vec::new();
                kind.push(("type".to_owned(), Json::Text("json_object".to_owned())));
                proof {
                    lemma_branches(kind@);
                    assert(branches(kind@) =~= seq![("type"@, Tree::Text("json_object"@))]);
                }
                set_field(&mut fields, "response_format", Json::Object(kind));
            }
            body = Json::Object(fields);
            assert(body@ == strict(given));
        }
        let shape_asked: bool = body.get("response_format").is_some();
        if let Route::Own { deployment, .. } = route {
            if body.get("model").is_none() {
                body = match body {
                    Json::Object(mut fields) => {
                        set_field(&mut fields, "model", Json::Text(deployment.model.clone()));
                        Json::Object(fields)
                    },
                    other => other,
                };
            }
        }
        Asking { body, shape_asked, retried: false, waited: 0 }
    }

    /// What to do now that a reply has come.
    pub fn next(&mut self, reply: Result<String, Failure>) -> (r: Step)
        ensures
            (final(self)@, r@) == after_reply(old(self)@, told(reply)),
    {
        match reply {
            Ok(payload) => Step::Done(content_of(payload.as_str())),
            Err(Failure::Refused { status, payload }) => {
                if status == 429 && self.waited < BUSY_ATTEMPTS {
                    let seconds: u64 = match retry_after(payload.as_str()) {
                        Some(n) => n,
                        None => if self.waited == 0 {
                            3
                        } else if self.waited == 1 {
                            8
                        } else {
                            20
                        },
                    };
                    self.waited = self.waited + 1;
                    Step::Wait(
                        if seconds <= LONGEST_WAIT {
                            seconds
                        } else {
                            LONGEST_WAIT
                        },
                    )
                } else if self.shape_asked && !self.retried && speaks_of_format(
                    to_lowercase(payload.as_str()).as_str(),
                ) {
                    let mut body: Json = Json::Null;
                    std::mem::swap(&mut body, &mut self.body);
                    self.body = match body {
                        Json::Object(fields) => Json::Object(
                            remove_field(fields, "response_format"),
                        ),
                        other => other,
                    };
                    self.retried = true;
                    self.waited = 0;
                    Step::Resend
                } else {
                    Step::Done(Err(Failure::Refused { status, payload }))
                }
            },
            Err(failure) => Step::Done(Err(failure)),
        }
    }
}

/// How often a question may still be sent again.
pub open spec fn patience(question: Question) -> nat {
    let rounds: nat = if question.retried {
        0
    } else {
        BUSY_ATTEMPTS as nat + 1
    };
    if question.waited <= BUSY_ATTEMPTS {
        rounds + (BUSY_ATTEMPTS - question.waited) as nat
    } else {
        rounds
    }
}

/// Asking ends: a fresh question is sent again seven times at the most, and
/// each time it is sent again leaves one time fewer.
pub proof fn law_asking_ends(
    route: Route,
    body: Tree,
    strict_json: bool,
    question: Question,
    reply: Result<Seq<char>, Fault>,
)
    requires
        question.waited <= BUSY_ATTEMPTS,
    ensures
        patience(first_question(route, body, strict_json)) == 7,
        after_reply(question, reply).1 !is Done ==> patience(after_reply(question, reply).0)
            < patience(question),
        after_reply(question, reply).0.waited <= BUSY_ATTEMPTS,
{
}

/// A busy model is never waited for longer than a minute at a time.
pub proof fn law_a_wait_is_bounded(question: Question, reply: Result<Seq<char>, Fault>)
    ensures
        after_reply(question, reply).1 matches Move::Wait(seconds) ==> seconds <= LONGEST_WAIT,
{
}

/// A shape that was refused is not asked for again, and nothing else of the
/// question changes.
pub proof fn law_a_refused_shape_is_dropped(
    question: Question,
    reply: Result<Seq<char>, Fault>,
    name: Seq<char>,
)
    requires
        after_reply(question, reply).1 is Resend,
        name != "response_format"@,
    ensures
        field(after_reply(question, reply).0.body, "response_format"@) is None,
        field(after_reply(question, reply).0.body, name) == field(question.body, name),
{
    if let Tree::Object(fields) = question.body {
        lemma_without_field(fields, "response_format"@, 0);
        lemma_other_fields_stay(fields, "response_format"@, name);
    }
}

/// The first value under a name, when a field is put before others.
proof fn lemma_field_from_front(
    first: (Seq<char>, Tree),
    rest: Seq<(Seq<char>, Tree)>,
    name: Seq<char>,
    i: int,
)
    requires
        0 <= i,
    ensures
        field_from(seq![first] + rest, name, i + 1) == field_from(rest, name, i),
    decreases rest.len() - i,
{
    let all = seq![first] + rest;
    if i < rest.len() {
        assert(all[i + 1] == rest[i]);
        lemma_field_from_front(first, rest, name, i + 1);
    }
}

proof fn lemma_other_fields_stay(
    fields: Seq<(Seq<char>, Tree)>,
    removed: Seq<char>,
    name: Seq<char>,
)
    requires
        name != removed,
    ensures
        field_from(without_field(fields, removed), name, 0) == field_from(fields, name, 0),
    decreases fields.len(),
{
    let keep = not_named(removed);
    if fields.len() == 0 {
        reveal(Seq::filter);
    } else {
        let rest = fields.skip(1);
        let kept = rest.filter(keep);
        lemma_other_fields_stay(rest, removed, name);
        assert(fields =~= seq![fields[0]] + rest);
        rest.lemma_filter_prepend(fields[0], keep);
        lemma_field_from_front(fields[0], rest, name, 0);
        lemma_field_from_front(fields[0], kept, name, 0);
        assert(Seq::empty() + kept =~= kept);
    }
}

} // verus!
