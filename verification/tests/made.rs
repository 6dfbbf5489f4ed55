use castavox_core::json::{Json, Numeral};
use castavox_core::made::{record, report, report_taken, Tally};

#[test]
fn a_total_survives_being_reported() {
    let tally = record(Tally::default(), 3, 1);
    assert_eq!(tally.unsent(), (3, 1));

    let after = report_taken(tally, 3, 1);
    assert_eq!(after.summaries, 3, "the total was taken away by reporting");
    assert_eq!(after.unsent(), (0, 0), "something was reported twice");

    let later = record(after, 1, 0);
    assert_eq!(later.summaries, 4);
    assert_eq!(later.unsent(), (1, 0));
}

#[test]
fn a_tally_accumulates_across_launches() {
    let tally = record(record(record(Tally::default(), 1, 0), 0, 2), 1, 0);
    assert_eq!(tally.summaries, 2);
    assert_eq!(tally.slides, 2);
}

#[test]
fn work_done_while_a_report_was_on_its_way_still_waits() {
    let before = record(Tally::default(), 5, 0);
    let (summaries, slides) = before.unsent();
    let during = record(before, 2, 1);
    assert_eq!(report_taken(during, summaries, slides).unsent(), (2, 1));
}

#[test]
fn a_tally_that_claims_too_much_sends_nothing() {
    let odd = Tally { summaries: 1, slides: 0, sent_summaries: 7, sent_slides: 0 };
    assert_eq!(odd.unsent(), (0, 0));
    assert!(odd.nothing_to_send());
    assert!(report("i", "castavox", odd).is_none());
}

#[test]
fn counting_stops_at_the_top() {
    let full = record(Tally { summaries: u32::MAX, ..Tally::default() }, 5, 0);
    assert_eq!(full.summaries, u32::MAX);
}

#[test]
fn a_report_carries_counts_and_nothing_of_what_was_made() {
    let body = report("an-install", "pulpitry", record(Tally::default(), 3, 1)).unwrap();
    assert_eq!(body.get("install"), Some(&Json::Text("an-install".into())));
    assert_eq!(body.get("app"), Some(&Json::Text("pulpitry".into())));
    assert_eq!(body.get("summaries"), Some(&Json::Number(Numeral::Unsigned(3))));
    assert_eq!(body.get("slides"), Some(&Json::Number(Numeral::Unsigned(1))));
    let Json::Object(fields) = body else { panic!("not an object") };
    assert_eq!(fields.len(), 4);
}
