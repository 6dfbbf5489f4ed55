//! How much a church has made, counted locally and sent when it can be.
//!
//! Informational: nothing here is billed, nothing is compared against a plan,
//! and nothing may refuse work because of a number in it. It is counted locally
//! first, because a summary written in a hall with no working wifi still
//! happened. Nothing about what was made is recorded.

use crate::json::{branches, field, lemma_branches, lemma_named, Figure, Json, Numeral, Tree};
use vstd::prelude::*;

verus! {

/// Short enough that a broker having a bad morning costs a launch nothing. In
/// seconds.
pub const TIMEOUT: u64 = 5;

/// What a machine has made, and how much of it the broker has heard about.
///
/// Two counters that only ever go up, rather than one that goes down as it is
/// reported: what is waiting to be sent is the difference between them.
#[derive(Debug, Clone, Copy, PartialEq, Eq, Structural)]
pub struct Tally {
    /// Made on this machine, ever.
    pub summaries: u32,
    pub slides: u32,
    /// How much of that has reached the broker.
    pub sent_summaries: u32,
    pub sent_slides: u32,
}

impl Default for Tally {
    fn default() -> (r: Self)
        ensures
            r == nothing_made(),
    {
        Tally { summaries: 0, slides: 0, sent_summaries: 0, sent_slides: 0 }
    }
}

pub open spec fn nothing_made() -> Tally {
    Tally { summaries: 0, slides: 0, sent_summaries: 0, sent_slides: 0 }
}

/// A sum that stops at the greatest number there is.
pub open spec fn capped(a: u32, b: u32) -> u32 {
    if a + b > u32::MAX {
        u32::MAX
    } else {
        (a + b) as u32
    }
}

/// A difference that stops at nothing.
pub open spec fn excess(a: u32, b: u32) -> u32 {
    if a > b {
        (a - b) as u32
    } else {
        0
    }
}

/// What has not reached the broker yet.
pub open spec fn waiting(tally: Tally) -> (u32, u32) {
    (excess(tally.summaries, tally.sent_summaries), excess(tally.slides, tally.sent_slides))
}

pub open spec fn recorded(tally: Tally, summaries: u32, slides: u32) -> Tally {
    Tally {
        summaries: capped(tally.summaries, summaries),
        slides: capped(tally.slides, slides),
        ..tally
    }
}

pub open spec fn reported(tally: Tally, summaries: u32, slides: u32) -> Tally {
    Tally {
        sent_summaries: capped(tally.sent_summaries, summaries),
        sent_slides: capped(tally.sent_slides, slides),
        ..tally
    }
}

fn add_capped(a: u32, b: u32) -> (r: u32)
    ensures
        r == capped(a, b),
{
    if b > u32::MAX - a {
        u32::MAX
    } else {
        a + b
    }
}

impl Tally {
    /// What has not reached the broker yet. A file edited by hand can claim
    /// more sent than made, and then there is nothing to send.
    pub fn unsent(&self) -> (r: (u32, u32))
        ensures
            r == waiting(*self),
    {
        (
            if self.summaries > self.sent_summaries {
                self.summaries - self.sent_summaries
            } else {
                0
            },
            if self.slides > self.sent_slides {
                self.slides - self.sent_slides
            } else {
                0
            },
        )
    }

    pub fn nothing_to_send(&self) -> (r: bool)
        ensures
            r == (waiting(*self) == (0u32, 0u32)),
    {
        let (summaries, slides) = self.unsent();
        summaries == 0 && slides == 0
    }
}

/// Adds what was made, whether or not it will ever be reported.
pub fn record(tally: Tally, summaries: u32, slides: u32) -> (r: Tally)
    ensures
        r == recorded(tally, summaries, slides),
{
    Tally {
        summaries: add_capped(tally.summaries, summaries),
        slides: add_capped(tally.slides, slides),
        sent_summaries: tally.sent_summaries,
        sent_slides: tally.sent_slides,
    }
}

/// Notes that the broker took a report. Only the sent counters advance.
pub fn report_taken(tally: Tally, summaries: u32, slides: u32) -> (r: Tally)
    ensures
        r == reported(tally, summaries, slides),
{
    Tally {
        summaries: tally.summaries,
        slides: tally.slides,
        sent_summaries: add_capped(tally.sent_summaries, summaries),
        sent_slides: add_capped(tally.sent_slides, slides),
    }
}

/// What a report carries.
pub open spec fn report_of(install: Seq<char>, app: Seq<char>, sent: (u32, u32)) -> Tree {
    Tree::Object(
        seq![
            ("install"@, Tree::Text(install)),
            ("app"@, Tree::Text(app)),
            ("summaries"@, Tree::Number(Figure::Unsigned(sent.0 as u64))),
            ("slides"@, Tree::Number(Figure::Unsigned(sent.1 as u64))),
        ],
    )
}

/// The report that is due, where there is anything to send.
pub fn report(install: &str, app: &str, tally: Tally) -> (r: Option<Json>)
    ensures
        r is Some <==> waiting(tally) != (0u32, 0u32),
        r matches Some(body) ==> body@ == report_of(install@, app@, waiting(tally)),
{
    if tally.nothing_to_send() {
        return None;
    }
    let (summaries, slides) = tally.unsent();
    let mut fields: Vec<(String, Json)> = Vec::new();
    fields.push(("install".to_owned(), Json::Text(install.to_owned())));
    fields.push(("app".to_owned(), Json::Text(app.to_owned())));
    fields.push(("summaries".to_owned(), Json::Number(Numeral::Unsigned(summaries as u64))));
    fields.push(("slides".to_owned(), Json::Number(Numeral::Unsigned(slides as u64))));
    proof {
        lemma_branches(fields@);
        assert(branches(fields@) =~= report_of(install@, app@, waiting(tally))->Object_0);
    }
    Some(Json::Object(fields))
}

/// A total survives being reported: what an operator is shown is what the
/// church has made, and reporting takes nothing of it away.
pub proof fn law_a_total_survives_being_reported(tally: Tally, summaries: u32, slides: u32)
    ensures
        reported(tally, summaries, slides).summaries == tally.summaries,
        reported(tally, summaries, slides).slides == tally.slides,
{
}

/// What was reported is not reported twice, and what was made while the report
/// was on its way still waits.
pub proof fn law_work_done_meanwhile_still_waits(tally: Tally, summaries: u32, slides: u32)
    requires
        tally.sent_summaries <= tally.summaries,
        tally.sent_slides <= tally.slides,
        tally.summaries + summaries <= u32::MAX,
        tally.slides + slides <= u32::MAX,
    ensures
        waiting(
            reported(recorded(tally, summaries, slides), waiting(tally).0, waiting(tally).1),
        ) == (summaries, slides),
{
}

/// The counters only ever go up.
pub proof fn law_counters_only_go_up(tally: Tally, summaries: u32, slides: u32)
    ensures
        recorded(tally, summaries, slides).summaries >= tally.summaries,
        recorded(tally, summaries, slides).slides >= tally.slides,
        reported(tally, summaries, slides).sent_summaries >= tally.sent_summaries,
        reported(tally, summaries, slides).sent_slides >= tally.sent_slides,
{
}

/// What was made is added to what had been made, each to its own, and only that:
/// up to the greatest number there is nothing of it is lost, and all of it waits.
pub proof fn law_what_was_made_is_counted(tally: Tally, summaries: u32, slides: u32)
    requires
        tally.sent_summaries <= tally.summaries,
        tally.sent_slides <= tally.slides,
        tally.summaries + summaries <= u32::MAX,
        tally.slides + slides <= u32::MAX,
    ensures
        recorded(tally, summaries, slides).summaries == tally.summaries + summaries,
        recorded(tally, summaries, slides).slides == tally.slides + slides,
        waiting(recorded(tally, summaries, slides)).0 == waiting(tally).0 + summaries,
        waiting(recorded(tally, summaries, slides)).1 == waiting(tally).1 + slides,
        waiting(reported(tally, waiting(tally).0, waiting(tally).1)) == (0u32, 0u32),
{
}

/// A report says whose it is and how much of each is new.
pub proof fn law_a_report_says_what_is_new(install: Seq<char>, app: Seq<char>, tally: Tally)
    requires
        tally.sent_summaries <= tally.summaries,
        tally.sent_slides <= tally.slides,
    ensures
        ({
            let report = report_of(install, app, waiting(tally));
            &&& field(report, "install"@) == Some(Tree::Text(install))
            &&& field(report, "app"@) == Some(Tree::Text(app))
            &&& field(report, "summaries"@) == Some(
                Tree::Number(Figure::Unsigned((tally.summaries - tally.sent_summaries) as u64)),
            )
            &&& field(report, "slides"@) == Some(
                Tree::Number(Figure::Unsigned((tally.slides - tally.sent_slides) as u64)),
            )
        }),
{
    reveal_strlit("install");
    reveal_strlit("app");
    reveal_strlit("summaries");
    reveal_strlit("slides");
    assert("install"@.len() == 7 && "app"@.len() == 3 && "summaries"@.len() == 9 && "slides"@.len() == 6);
    let list = report_of(install, app, waiting(tally))->Object_0;
    lemma_named(list, 0);
    lemma_named(list, 1);
    lemma_named(list, 2);
    lemma_named(list, 3);
}

} // verus!
