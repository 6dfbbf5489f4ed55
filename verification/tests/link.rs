use castavox_core::mirror::link::{
    read_failure, Attempt, Desk, Event, Incoming, Line, Message, Next, ReadEnd, Retry, Screen,
    Secret, Shown, Table, Wound, HEARTBEAT, RETRY_LONGEST, SILENCE_MEANS_GONE,
};
use castavox_core::mirror::pairing::{derive_token, new_nonce, Moment};

const STILL: Wound = Wound { bits: 0 };

fn now() -> Moment {
    Moment { nanos: 1_000_000_000 }
}

fn psalm() -> Shown {
    Shown::Scripture {
        reference: "John 3:16".into(),
        translation: "KJV".into(),
        lines: vec![Line { number: 16, text: "For God so loved the world".into() }],
    }
}

/// Connects a screen to a desk and returns everything the screen reports until
/// it has been told what is staged, or has been refused.
fn connect(desk: &mut Desk, screen: &mut Screen) -> Vec<Event> {
    let nonce = new_nonce().expect("randomness");
    let challenge = desk.challenge(nonce.clone(), now());
    let mut seen = Vec::new();
    let step = screen.take(Incoming::Challenge(challenge));
    seen.extend(step.events);
    let Some(answer) = step.answer else { return seen };
    let verdict = desk.judge(&answer, &nonce, now());
    seen.extend(screen.take(Incoming::Verdict(verdict)).events);
    if screen.is_over() {
        return seen;
    }
    assert!(desk.can_join());
    let (_, first) = desk.join();
    seen.extend(screen.take(Incoming::Message(first)).events);
    seen
}

/// Pairs a screen against a desk and returns the token the desk kept.
fn pair(desk: &mut Desk) -> (String, Vec<Event>, Screen) {
    let code = desk.offer_code(now()).expect("randomness");
    let mut screen = Screen::new("screen-1", "Stream machine", Secret::Code(code));
    let seen = connect(desk, &mut screen);
    let token = desk.pairings().first().map(|p| p.token.clone()).unwrap_or_default();
    (token, seen, screen)
}

#[test]
fn a_comparison_as_lines_keeps_its_headings() {
    let table = Table {
        header: vec!["Activity".into(), "Progress".into()],
        rows: vec![vec!["Keeps busy".into(), "Arrives".into()]],
    };
    assert_eq!(table.as_lines(), vec!["Activity: Keeps busy \u{b7} Progress: Arrives"]);
}

#[test]
fn a_screen_pairs_and_is_told_what_is_staged() {
    let mut desk = Desk::new("The Desk", Vec::new());
    desk.stage(psalm(), STILL);

    let (token, seen, _) = pair(&mut desk);

    assert!(!token.is_empty(), "the desk should have remembered the pairing");
    assert!(matches!(seen.first(), Some(Event::Paired { .. })));
    assert!(seen.contains(&Event::Connected { desk: "The Desk".into() }));
    assert_eq!(seen.last(), Some(&Event::Staged(psalm(), STILL)));
}

#[test]
fn what_is_already_staged_arrives_before_anything_changes() {
    let mut desk = Desk::new("The Desk", Vec::new());
    desk.stage(psalm(), STILL);
    let (_, seen, _) = pair(&mut desk);

    let staged: Vec<&Event> = seen.iter().filter(|e| matches!(e, Event::Staged(..))).collect();
    assert_eq!(staged.len(), 1, "exactly one push, without the desk staging again");
}

#[test]
fn a_remembered_screen_needs_no_code() {
    let mut desk = Desk::new("The Desk", Vec::new());
    let (token, _, _) = pair(&mut desk);
    desk.withdraw_code();

    let mut again = Screen::new("screen-1", "Stream machine", Secret::Token(token));
    let seen = connect(&mut desk, &mut again);
    assert!(matches!(seen.first(), Some(Event::Connected { .. })), "got {seen:?}");
}

#[test]
fn a_screen_that_was_never_paired_is_told_so_and_does_not_retry() {
    let mut desk = Desk::new("The Desk", Vec::new());
    let mut screen =
        Screen::new("stranger", "Somebody's laptop", Secret::Token("made-up".into()));
    let seen = connect(&mut desk, &mut screen);
    assert!(matches!(seen.first(), Some(Event::Rejected { .. })), "got {seen:?}");
    assert!(screen.is_over());
    assert_eq!(desk.watching(), 0);
}

#[test]
fn staging_reaches_a_connected_screen() {
    let mut desk = Desk::new("The Desk", Vec::new());
    let (_, seen, mut screen) = pair(&mut desk);
    assert_eq!(seen.last(), Some(&Event::Staged(Shown::Nothing, STILL)));

    let sent = desk.stage(psalm(), STILL);
    assert_eq!(screen.take(Incoming::Message(sent)).events, vec![Event::Staged(psalm(), STILL)]);

    let sent = desk.stage(Shown::Nothing, STILL);
    assert_eq!(
        screen.take(Incoming::Message(sent)).events,
        vec![Event::Staged(Shown::Nothing, STILL)]
    );
}

#[test]
fn the_screen_is_given_the_token_it_will_need_tomorrow() {
    let mut desk = Desk::new("The Desk", Vec::new());
    let (_, seen, _) = pair(&mut desk);
    let Some(Event::Paired { token }) = seen.first() else {
        panic!("expected the token first, got {seen:?}");
    };
    assert_eq!(*token, desk.pairings()[0].token);
    assert!(!token.is_empty());
}

#[test]
fn a_dropped_link_never_produces_a_blank() {
    let mut desk = Desk::new("The Desk", Vec::new());
    let (_, _, mut screen) = pair(&mut desk);
    let sent = desk.stage(psalm(), STILL);
    assert_eq!(screen.take(Incoming::Message(sent)).events, vec![Event::Staged(psalm(), STILL)]);

    let reason = read_failure(&ReadEnd::Closed);
    let after = screen.take(Incoming::Failed { reason });
    assert_eq!(after.events.len(), 1);
    assert!(matches!(after.events[0], Event::Dropped { .. }), "got {:?}", after.events);
    assert!(screen.is_over());
    let late = screen.take(Incoming::Message(Message::Staged {
        shown: Shown::Nothing,
        progress: STILL,
    }));
    assert!(late.events.is_empty(), "a dropped link must never blank the overlay");
}

#[test]
fn a_refusal_stops_the_loop_rather_than_spinning_against_a_no() {
    let mut retry = Retry::new();
    assert!(matches!(retry.after(Attempt::Refused), Next::Stop));
}

#[test]
fn it_keeps_trying_while_the_desk_is_away() {
    let mut retry = Retry::new();
    let mut waits = Vec::new();
    for _ in 0..6 {
        match retry.after(Attempt::Failed { reason: "nobody is there".into() }) {
            Next::Retry { events, seconds } => {
                assert!(matches!(events[0], Event::Dropped { .. }));
                assert_eq!(events[1], Event::Reconnecting { seconds });
                waits.push(seconds);
            }
            Next::Stop => panic!("gave up"),
        }
    }
    assert_eq!(waits, vec![1, 2, 4, 8, 8, 8]);
    assert!(waits.iter().all(|wait| *wait <= RETRY_LONGEST));
}

#[test]
fn the_token_is_derived_identically_at_both_ends() {
    let nonce = new_nonce().expect("randomness");
    assert_eq!(
        derive_token("ABC234", "screen-1", &nonce),
        derive_token("ABC234", "screen-1", &nonce),
    );
}

#[test]
fn a_code_that_is_not_on_offer_is_said_to_be() {
    let desk = Desk::new("The Desk", Vec::new());
    let mut screen = Screen::new("screen-1", "Stream", Secret::Code("ABC234".into()));
    let step = screen.take(Incoming::Challenge(desk.challenge("n".into(), now())));
    assert!(step.answer.is_none());
    assert_eq!(
        step.events,
        vec![Event::Rejected {
            reason: "That desk is not offering a code. Press Pair on it first.".into()
        }]
    );
}

#[test]
fn a_beat_changes_nothing() {
    let mut desk = Desk::new("The Desk", Vec::new());
    let (_, _, mut screen) = pair(&mut desk);
    assert_eq!(desk.beat(), Message::Beat);
    assert!(screen.take(Incoming::Message(desk.beat())).events.is_empty());
    assert!(!screen.is_over());
    assert!(SILENCE_MEANS_GONE > 3 * HEARTBEAT);
}

#[test]
fn a_screen_that_went_away_is_forgotten() {
    let mut desk = Desk::new("The Desk", Vec::new());
    let (first, _) = desk.join();
    let (second, _) = desk.join();
    assert_ne!(first, second);
    assert_eq!(desk.screens(), vec![first, second]);
    desk.keep(&[second]);
    assert_eq!(desk.screens(), vec![second]);
    desk.stop();
    assert_eq!(desk.watching(), 0);
}

#[test]
fn a_machine_the_desk_forgets_is_shut_out() {
    let mut desk = Desk::new("The Desk", Vec::new());
    let (token, _, _) = pair(&mut desk);
    assert!(desk.forget("screen-1"));
    let mut again = Screen::new("screen-1", "Stream machine", Secret::Token(token));
    let seen = connect(&mut desk, &mut again);
    assert!(matches!(seen.first(), Some(Event::Rejected { .. })), "got {seen:?}");
}

#[test]
fn a_link_that_failed_says_why() {
    assert_eq!(read_failure(&ReadEnd::TimedOut), "the desk stopped answering");
    assert_eq!(
        read_failure(&ReadEnd::Failed { error: "reset".into() }),
        "the connection failed: reset"
    );
    assert!(Shown::Nothing.is_nothing());
    assert!(!psalm().is_nothing());
}

#[test]
fn a_connection_that_breaks_before_it_is_made_is_a_failure_and_not_a_drop() {
    let mut screen = Screen::new("s", "Screen", Secret::Token("t".into()));
    let step = screen.take(Incoming::Failed { reason: "gone".into() });
    assert_eq!(step.failure.as_deref(), Some("gone"));
    assert!(step.events.is_empty() && screen.is_over());

    let mut screen = Screen::new("s", "Screen", Secret::Token("t".into()));
    let step = screen.take(Incoming::Message(Message::Beat));
    assert_eq!(step.failure.as_deref(), Some("could not read what the other end sent"));
}

#[test]
fn a_desk_offers_the_code_that_was_drawn_or_none() {
    let mut desk = Desk::new("Desk", Vec::new());
    assert_eq!(desk.offer_drawn(None, now()), None);
    assert!(!desk.challenge("n".into(), now()).pairing_open);
    assert_eq!(desk.offer_drawn(Some("ABC234".into()), now()).as_deref(), Some("ABC234"));
    assert!(desk.challenge("n".into(), now()).pairing_open);
}
