//! A report from a church, sent to us rather than to their mail client.
//!
//! Unlike the check-in and the tally, somebody is watching this one: they
//! pressed send. A silent failure leaves a church believing they reported
//! something nobody will ever read, so every failure has its sentence.

use crate::json::{branches, field, field_from, lemma_branches, lemma_named, text_in, Json, Tree};
use crate::text::{blank, is_blank};
use vstd::prelude::*;

verus! {

/// Long enough for a hall's connection, short enough that nobody is left
/// watching a spinner. In seconds.
pub const TIMEOUT: u64 = 20;

/// What the operator filled in, and what it is filled in from.
pub struct Report<'a> {
    /// What the operator chose it was: a fault, a suggestion.
    pub kind: &'a str,
    pub app: &'a str,
    pub version: &'a str,
    pub platform: &'a str,
    /// May be empty: a church that does not want a reply should not have to
    /// invent an address.
    pub email: &'a str,
    pub text: &'a str,
}

pub open spec fn body_of(report: Report) -> Tree {
    Tree::Object(
        seq![
            ("kind"@, Tree::Text(report.kind@)),
            ("app"@, Tree::Text(report.app@)),
            ("version"@, Tree::Text(report.version@)),
            ("platform"@, Tree::Text(report.platform@)),
            ("email"@, Tree::Text(report.email@)),
            ("text"@, Tree::Text(report.text@)),
        ],
    )
}

/// What is sent of a report. One with nothing in it is refused here rather than
/// posted and rejected.
pub fn body(report: &Report<'_>) -> (r: Result<Json, String>)
    ensures
        blank(report.text@) ==> (r matches Err(words) && words@
            == "There is nothing in the report to send."@),
        !blank(report.text@) ==> (r matches Ok(json) && json@ == body_of(*report)),
{
    if is_blank(report.text) {
        return Err("There is nothing in the report to send.".to_owned());
    }
    let mut fields: Vec<(String, Json)> = Vec::new();
    fields.push(("kind".to_owned(), Json::Text(report.kind.to_owned())));
    fields.push(("app".to_owned(), Json::Text(report.app.to_owned())));
    fields.push(("version".to_owned(), Json::Text(report.version.to_owned())));
    fields.push(("platform".to_owned(), Json::Text(report.platform.to_owned())));
    fields.push(("email".to_owned(), Json::Text(report.email.to_owned())));
    fields.push(("text".to_owned(), Json::Text(report.text.to_owned())));
    proof {
        lemma_branches(fields@);
        assert(branches(fields@) =~= body_of(*report)->Object_0);
    }
    Ok(Json::Object(fields))
}

/// What a church is told of a report that was not taken: the broker's own words
/// where it has any.
pub open spec fn refusal_words(reply: Option<Tree>) -> Seq<char> {
    match reply {
        Some(reply) => match text_in(field(reply, "error"@)) {
            Some(words) => words,
            None => "That could not be sent just now."@,
        },
        None => "That could not be sent just now."@,
    }
}

/// What became of a report. `reply` is the answer's body where it is JSON.
pub fn outcome(status: u16, reply: Option<&Json>) -> (r: Result<(), String>)
    ensures
        r is Ok <==> 200 <= status < 300,
        r matches Err(words) ==> words@ == refusal_words(
            match reply {
                Some(reply) => Some(reply@),
                None => None,
            },
        ),
{
    if 200 <= status && status < 300 {
        return Ok(());
    }
    if let Some(reply) = reply {
        if let Some(Json::Text(words)) = reply.get("error") {
            return Err(words.clone());
        }
    }
    Err("That could not be sent just now.".to_owned())
}

/// What a church is told when the broker could not be reached.
pub fn not_reached(error: &str) -> (r: String)
    ensures
        r@ == "That could not be sent. "@ + error@,
{
    let mut words: String = "That could not be sent. ".to_owned();
    words.push_str(error);
    words
}

/// A report is sent as it was filled in, each part under its own name.
pub proof fn law_a_report_is_sent_as_it_was_filled_in(report: Report)
    ensures
        body_of(report)->Object_0.len() == 6,
        field(body_of(report), "kind"@) == Some(Tree::Text(report.kind@)),
        field(body_of(report), "app"@) == Some(Tree::Text(report.app@)),
        field(body_of(report), "version"@) == Some(Tree::Text(report.version@)),
        field(body_of(report), "platform"@) == Some(Tree::Text(report.platform@)),
        field(body_of(report), "email"@) == Some(Tree::Text(report.email@)),
        field(body_of(report), "text"@) == Some(Tree::Text(report.text@)),
{
    reveal_strlit("kind");
    reveal_strlit("app");
    reveal_strlit("version");
    reveal_strlit("platform");
    reveal_strlit("email");
    reveal_strlit("text");
    assert("kind"@[0] == 'k' && "text"@[0] == 't');
    assert("kind"@.len() == 4 && "app"@.len() == 3 && "version"@.len() == 7 && "platform"@.len() == 8 && "email"@.len() == 5 && "text"@.len() == 4);
    let list = body_of(report)->Object_0;
    lemma_named(list, 0);
    lemma_named(list, 1);
    lemma_named(list, 2);
    lemma_named(list, 3);
    lemma_named(list, 4);
    lemma_named(list, 5);
}

/// A church is told why in the words of the reply, where it has any under
/// `error`, and otherwise that it could not be sent.
pub proof fn law_a_refusal_is_told_in_its_own_words(words: Seq<char>)
    ensures
        refusal_words(Some(Tree::Object(seq![("error"@, Tree::Text(words))]))) == words,
        refusal_words(None) == "That could not be sent just now."@,
{
    let list = seq![("error"@, Tree::Text(words))];
    assert(field_from(list, "error"@, 0) == Some(Tree::Text(words)));
}

} // verus!
