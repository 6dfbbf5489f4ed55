use castavox_core::mirror::pairing::{
    code_drawn, code_from, derive_token, new_code, new_nonce, nonce_drawn, normalise, prove, same,
    Answer, Doorkeeper, Moment, Pairing, Verdict, CODE_LENGTH, CODE_LIFETIME, MAX_ATTEMPTS,
};

const ALPHABET: &[u8] = b"ABCDEFGHJKMNPQRSTUVWXYZ23456789";

fn now() -> Moment {
    at(0)
}

fn at(seconds: u64) -> Moment {
    Moment { nanos: 1_000_000_000_000 + seconds * 1_000_000_000 }
}

fn nonce() -> String {
    new_nonce().expect("randomness")
}

#[test]
fn a_code_avoids_the_characters_people_confuse() {
    for _ in 0..200 {
        let code = new_code().expect("randomness");
        assert_eq!(code.len(), CODE_LENGTH);
        for c in code.chars() {
            assert!(!"01OIL".contains(c), "{code} contains a character that gets mistyped");
            assert!(ALPHABET.contains(&(c as u8)), "{code} left the alphabet");
        }
    }
}

#[test]
fn a_typed_code_is_read_however_it_was_typed() {
    assert_eq!(normalise("abc234"), "ABC234");
    assert_eq!(normalise("ABC-234"), "ABC234");
    assert_eq!(normalise(" a b c 2 3 4 "), "ABC234");
}

#[test]
fn there_is_nothing_to_map_a_confusable_character_to() {
    for c in "OIL01".chars() {
        assert!(!ALPHABET.contains(&(c as u8)), "{c} should never be issued");
    }
    assert_eq!(normalise("o0i1l"), "O0I1L");
}

#[test]
fn the_secret_never_appears_in_what_is_sent() {
    let nonce = nonce();
    let proof = prove("ABC234", &nonce);
    assert!(!proof.contains("ABC234"));
    assert_ne!(proof, "ABC234");
    assert_ne!(proof, prove("ABC234", &new_nonce().expect("randomness")));
}

#[test]
fn both_ends_derive_the_same_token_without_sending_it() {
    let nonce = nonce();
    let desk = derive_token("ABC234", "screen-1", &nonce);
    let screen = derive_token("ABC234", "screen-1", &nonce);
    assert_eq!(desk, screen);

    assert_ne!(desk, derive_token("ABC235", "screen-1", &nonce));
    assert_ne!(desk, derive_token("ABC234", "screen-2", &nonce));
    assert_ne!(desk, derive_token("ABC234", "screen-1", &new_nonce().expect("randomness")));
}

#[test]
fn a_proof_of_one_thing_is_not_a_proof_of_another() {
    let nonce = nonce();
    assert_ne!(prove("ABC234", &nonce), derive_token("ABC234", "", &nonce));
}

#[test]
fn pairing_admits_the_machine_somebody_walked_the_code_to() {
    let mut door = Doorkeeper::new(Vec::new());
    let code = door.offer(now()).expect("randomness");
    let first = nonce();

    let verdict = door.judge(
        &Answer::Pair {
            id: "screen-1".into(),
            name: "Stream machine".into(),
            proof: prove(&code, &first),
        },
        &first,
        now(),
    );

    assert_eq!(verdict, Verdict::Ready { you: "Stream machine".into() });
    assert_eq!(door.pairings().len(), 1);

    let later = nonce();
    let token = door.pairings()[0].token.clone();
    assert_eq!(
        door.judge(
            &Answer::Hello { id: "screen-1".into(), proof: prove(&token, &later) },
            &later,
            now(),
        ),
        Verdict::Ready { you: "Stream machine".into() },
    );
}

#[test]
fn one_code_pairs_one_machine() {
    let mut door = Doorkeeper::new(Vec::new());
    let code = door.offer(now()).expect("randomness");
    let first = nonce();
    door.judge(
        &Answer::Pair { id: "screen-1".into(), name: "One".into(), proof: prove(&code, &first) },
        &first,
        now(),
    );

    let second = nonce();
    let verdict = door.judge(
        &Answer::Pair { id: "screen-2".into(), name: "Two".into(), proof: prove(&code, &second) },
        &second,
        now(),
    );
    assert!(matches!(verdict, Verdict::Refused { .. }));
    assert_eq!(door.pairings().len(), 1);
}

#[test]
fn guessing_is_shut_down_before_it_gets_anywhere() {
    let mut door = Doorkeeper::new(Vec::new());
    door.offer(now());

    for _ in 0..MAX_ATTEMPTS {
        let nonce = nonce();
        let verdict = door.judge(
            &Answer::Pair {
                id: "intruder".into(),
                name: "?".into(),
                proof: prove("WRONG1", &nonce),
            },
            &nonce,
            now(),
        );
        assert!(matches!(verdict, Verdict::Refused { .. }));
    }

    assert!(!door.pairing_open(now()), "should have closed after the attempts");

    door.offer(now());
    assert!(door.pairing_open(now()));
}

#[test]
fn a_code_left_on_a_screen_goes_stale() {
    let mut door = Doorkeeper::new(Vec::new());
    let code = door.offer(now()).expect("randomness");
    assert!(door.pairing_open(now()));
    assert!(!door.pairing_open(at(CODE_LIFETIME + 1)));

    let nonce = nonce();
    let verdict = door.judge(
        &Answer::Pair { id: "late".into(), name: "?".into(), proof: prove(&code, &nonce) },
        &nonce,
        at(CODE_LIFETIME + 1),
    );
    assert!(matches!(verdict, Verdict::Refused { .. }));
}

#[test]
fn a_captured_proof_is_worth_nothing_on_the_next_connection() {
    let mut door = Doorkeeper::new(Vec::new());
    let code = door.offer(now()).expect("randomness");
    let first = nonce();
    let captured = prove(&code, &first);
    door.judge(
        &Answer::Pair { id: "screen-1".into(), name: "One".into(), proof: captured.clone() },
        &first,
        now(),
    );

    let second = nonce();
    let verdict = door.judge(
        &Answer::Hello { id: "screen-1".into(), proof: captured },
        &second,
        now(),
    );
    assert!(matches!(verdict, Verdict::Refused { .. }));
}

#[test]
fn an_unknown_machine_and_a_bad_proof_are_refused_the_same_way() {
    let mut door = Doorkeeper::new(vec![Pairing {
        peer_id: "known".into(),
        name: "Known".into(),
        token: "a-token".into(),
    }]);
    let nonce = nonce();

    let unknown = door.judge(
        &Answer::Hello { id: "stranger".into(), proof: prove("a-token", &nonce) },
        &nonce,
        now(),
    );
    let wrong = door.judge(
        &Answer::Hello { id: "known".into(), proof: prove("guessed", &nonce) },
        &nonce,
        now(),
    );
    assert_eq!(unknown, wrong);
}

#[test]
fn forgetting_a_machine_shuts_it_out() {
    let mut door = Doorkeeper::new(vec![Pairing {
        peer_id: "old".into(),
        name: "Sold laptop".into(),
        token: "a-token".into(),
    }]);
    assert!(door.forget("old"));
    assert!(!door.forget("old"));

    let nonce = nonce();
    let verdict = door.judge(
        &Answer::Hello { id: "old".into(), proof: prove("a-token", &nonce) },
        &nonce,
        now(),
    );
    assert!(matches!(verdict, Verdict::Refused { .. }));
}

#[test]
fn bytes_pick_the_characters_of_a_code() {
    assert_eq!(code_from(&[0, 1, 2, 30, 31, 255]), "ABC9AH");
}

#[test]
fn an_issued_code_is_already_tidy() {
    let code = new_code().expect("randomness");
    assert_eq!(normalise(&code), code);
}

#[test]
fn a_proof_is_sixty_four_hexadecimal_digits() {
    let proof = prove("ABC234", "nonce");
    assert_eq!(proof.len(), 64);
    assert!(proof.chars().all(|c| c.is_ascii_hexdigit()));
    assert_eq!(proof, prove("ABC234", "nonce"));
    assert!(same(&proof, &prove("ABC234", "nonce")));
    assert!(!same(&proof, &prove("ABC234", "other")));
}

#[test]
fn nonces_are_fresh() {
    assert_ne!(nonce(), nonce());
    assert_eq!(nonce().len(), 64);
}

#[test]
fn a_withdrawn_code_is_not_on_offer() {
    let mut door = Doorkeeper::new(Vec::new());
    door.offer_code("ABC234", now());
    assert!(door.pairing_open(at(CODE_LIFETIME - 1)));
    door.withdraw();
    assert!(!door.pairing_open(now()));
}

#[test]
fn proofs_and_tokens_are_the_codes_they_are_published_to_be() {
    assert_eq!(
        prove("ABC234", "nonce"),
        "9f429ed4092d3c9d438117da6a07d649365dcbfbef6054b9d62dd459a5e48bd5"
    );
    assert_eq!(
        derive_token("ABC234", "screen-1", "nonce"),
        "1341108c9e174912cee3abea4ce99ff5a39c54761a4e499235d145affbd757e0"
    );
}

#[test]
fn a_machine_without_randomness_offers_nothing_rather_than_something_predictable() {
    assert_eq!(code_drawn(None), None);
    assert_eq!(nonce_drawn(None), None);
    assert_eq!(code_drawn(Some(vec![0, 1, 2, 30, 31, 32])).as_deref(), Some("ABC9AB"));
    assert_eq!(nonce_drawn(Some(vec![0, 255, 16])).as_deref(), Some("00ff10"));

    let mut door = Doorkeeper::new(Vec::new());
    assert_eq!(door.offer_drawn(None, now()), None);
    assert!(!door.pairing_open(now()));
    assert_eq!(door.offer_drawn(Some("ABC234".into()), now()).as_deref(), Some("ABC234"));
    assert!(door.pairing_open(now()));
}

fn pair(code: &str, nonce: &str) -> Answer {
    Answer::Pair { id: "screen-1".into(), name: "Booth".into(), proof: prove(code, nonce) }
}

#[test]
fn an_offer_replaces_the_last_and_clears_its_count() {
    let mut desk = Doorkeeper::new(Vec::new());
    desk.offer_code("ABC234", now());
    for _ in 0..MAX_ATTEMPTS {
        assert!(matches!(desk.judge(&pair("WRONG2", "n"), "n", now()), Verdict::Refused { .. }));
    }
    assert!(!desk.pairing_open(now()));

    desk.offer_code("XYZ789", at(10));
    assert!(desk.pairing_open(at(10 + CODE_LIFETIME - 1)));
    for second in 0..u64::from(MAX_ATTEMPTS) - 1 {
        let old = desk.judge(&pair("ABC234", "n"), "n", at(11 + second));
        assert!(matches!(old, Verdict::Refused { .. }), "the earlier code is worth nothing");
        assert!(desk.pairing_open(at(20)), "and the earlier count is gone");
    }
    assert!(desk.pairings().is_empty());
    let late = at(10 + CODE_LIFETIME - 1);
    assert_eq!(desk.judge(&pair("XYZ789", "n"), "n", late), Verdict::Ready { you: "Booth".into() });
}

#[test]
fn an_answer_that_comes_too_late_is_not_counted() {
    let mut desk = Doorkeeper::new(Vec::new());
    desk.offer_code("ABC234", now());
    for _ in 0..MAX_ATTEMPTS {
        desk.judge(&pair("WRONG2", "n"), "n", at(CODE_LIFETIME));
    }
    assert!(desk.pairing_open(at(1)));
    for second in 0..u64::from(MAX_ATTEMPTS) {
        assert!(desk.pairing_open(at(second)));
        desk.judge(&pair("WRONG2", "n"), "n", at(second));
    }
    assert!(!desk.pairing_open(now()));
    assert!(desk.pairings().is_empty());
}

#[test]
fn the_saved_screens_restore_the_door() {
    let screen = |id: &str, token: &str| Pairing {
        peer_id: id.into(),
        name: format!("the {id}"),
        token: token.into(),
    };
    let desk = Doorkeeper::new(vec![screen("b", "two"), screen("a", "one"), screen("b", "three")]);
    let saved = desk.pairings();
    assert_eq!(saved, vec![screen("a", "one"), screen("b", "three")]);
    let mut again = Doorkeeper::new(saved.clone());
    assert_eq!(again.pairings(), saved);
    let hello = Answer::Hello { id: "b".into(), proof: prove("three", "n") };
    assert_eq!(again.judge(&hello, "n", now()), Verdict::Ready { you: "the b".into() });
}

#[test]
fn tidying_goes_piece_by_piece_and_once_is_enough() {
    let typed = " ab-c 2";
    assert_eq!(normalise(&normalise(typed)), normalise(typed));
    assert_eq!(normalise(typed) + &normalise("3-4"), normalise(" ab-c 23-4"));
}
