use castavox_core::commands::{Command, Listener, Phrase};

fn translations() -> Vec<(String, String)> {
    [
        ("KJV", "King James Version"),
        ("ESV", "English Standard Version"),
        ("NKJV", "New King James Version"),
        ("NIV", "New International Version"),
    ]
    .iter()
    .map(|(id, name)| (id.to_string(), name.to_string()))
    .collect()
}

fn books() -> Vec<String> {
    ["Genesis", "John", "1 John", "Psalms", "Song of Solomon", "Romans", "Jude"]
        .iter()
        .map(|book| book.to_string())
        .collect()
}

fn listener() -> Listener {
    Listener::new("Castavox", &translations(), &books(), &[])
}

#[test]
fn hears_the_plain_instructions() {
    let mut ear = listener();
    assert_eq!(ear.hear("castavox next verse", false), Some(Command::NextVerse));
    ear.forget();
    assert_eq!(ear.hear("Castavox, previous verse.", false), Some(Command::PreviousVerse));
    ear.forget();
    assert_eq!(ear.hear("castavox clear the screen", false), Some(Command::Clear));
}

#[test]
fn a_sermon_is_not_a_command() {
    let mut ear = listener();
    assert_eq!(ear.hear("and the next verse says something remarkable", false), None);
    assert_eq!(ear.hear("let us go back to what Paul wrote", false), None);
    assert_eq!(ear.hear("I want to clear the screen of my mind", false), None);
    assert_eq!(ear.hear("switch to the King James for a moment", false), None);
}

#[test]
fn a_settling_transcript_does_not_repeat_the_command() {
    let mut ear = listener();
    assert_eq!(ear.hear("castavox next", false), None);
    assert_eq!(ear.hear("castavox next verse", false), Some(Command::NextVerse));
    assert_eq!(ear.hear("castavox next verse", false), None);
    assert_eq!(ear.hear("castavox next verse.", false), None);
}

#[test]
fn a_command_does_not_fire_again_as_more_is_said_after_it() {
    let mut ear = listener();
    assert_eq!(ear.hear("castavox next verse", false), Some(Command::NextVerse));
    assert_eq!(ear.hear("castavox next verse and", false), None);
    assert_eq!(ear.hear("castavox next verse and then", false), None);
    assert_eq!(ear.hear("castavox next verse and then he said", false), None);
}

#[test]
fn the_wake_word_is_not_matched_inside_another_word() {
    let mut ear = Listener::new("bee", &translations(), &books(), &[]);
    assert_eq!(ear.hear("the beef next verse", false), None);
    assert_eq!(ear.hear("bee next verse", false), Some(Command::NextVerse));
}

#[test]
fn a_translation_is_not_matched_inside_another_word() {
    let mut ear = listener();
    assert_eq!(ear.hear("castavox tell the university about it", false), None);
}

#[test]
fn the_same_instruction_twice_is_two_instructions() {
    let mut ear = listener();
    assert_eq!(ear.hear("next verse", true), Some(Command::NextVerse));
    assert_eq!(ear.hear("next verse", true), Some(Command::NextVerse));
    assert_eq!(ear.hear("next verse", true), Some(Command::NextVerse));
}

#[test]
fn a_settling_utterance_is_still_only_obeyed_once() {
    let mut ear = listener();
    assert_eq!(ear.hear("next", false), None);
    assert_eq!(ear.hear("next verse", false), Some(Command::NextVerse));
    assert_eq!(ear.hear("next verse", false), None);
    assert_eq!(ear.hear("next verse and", false), None);
    assert_eq!(ear.hear("next verse and then he said", true), None);
    assert_eq!(ear.hear("next verse", true), Some(Command::NextVerse));
}

#[test]
fn hears_a_chapter_moved_by_one() {
    let mut ear = listener();
    assert_eq!(ear.hear("next chapter", false), Some(Command::Passage { book: None, chapter: None, by: 1, verse: None }));
    ear.forget();
    assert_eq!(ear.hear("previous chapter", false), Some(Command::Passage { book: None, chapter: None, by: -1, verse: None }));
    ear.forget();
    assert_eq!(ear.hear("castavox last chapter", false), Some(Command::Passage { book: None, chapter: None, by: -1, verse: None }));
}

#[test]
fn hears_a_chapter_by_number() {
    for said in ["chapter four", "chapter 4"] {
        let mut ear = listener();
        assert_eq!(ear.hear(said, false), Some(Command::Passage { book: None, chapter: Some(4), by: 0, verse: None }), "{said}");
    }
}

#[test]
fn a_spoken_number_is_one_number() {
    let mut ear = listener();
    assert_eq!(
        ear.hear("chapter twenty eight", false),
        Some(Command::Passage { book: None, chapter: Some(28), by: 0, verse: None })
    );
}

#[test]
fn hears_a_chapter_and_a_verse() {
    let mut ear = listener();
    assert_eq!(
        ear.hear("chapter four verse nine", false),
        Some(Command::Passage { book: None, chapter: Some(4), by: 0, verse: Some(9) })
    );
}

#[test]
fn hears_a_verse_on_its_own() {
    let mut ear = listener();
    assert_eq!(
        ear.hear("verse sixteen", false),
        Some(Command::Passage { book: None, chapter: None, by: 0, verse: Some(16) })
    );
}

#[test]
fn a_wake_word_still_takes_a_passage_mid_sentence() {
    let mut ear = listener();
    assert_eq!(
        ear.hear("castavox chapter four verse nine please", false),
        Some(Command::Passage { book: None, chapter: Some(4), by: 0, verse: Some(9) })
    );
}

#[test]
fn a_chapter_mentioned_in_preaching_is_not_a_command() {
    let mut ear = listener();
    for said in [
        "in chapter four Paul writes about this",
        "if you look at the next chapter you will see",
        "we read chapter twenty eight last week",
        "the previous chapter ends with a question",
        "verse sixteen is the one everybody knows",
    ] {
        assert_eq!(ear.hear(said, false), None, "{said}");
    }
}

#[test]
fn a_chapter_with_no_number_asks_for_nothing() {
    let mut ear = listener();
    assert_eq!(ear.hear("chapter", false), None);
    assert_eq!(ear.hear("castavox chapter", false), None);
}

#[test]
fn a_different_chapter_is_a_different_instruction() {
    let mut ear = listener();
    assert_eq!(ear.hear("chapter four", false), Some(Command::Passage { book: None, chapter: Some(4), by: 0, verse: None }));
    assert_eq!(ear.hear("chapter four", false), None);
    assert_eq!(ear.hear("chapter five", false), Some(Command::Passage { book: None, chapter: Some(5), by: 0, verse: None }));
}

#[test]
fn a_long_number_is_still_the_whole_instruction() {
    let mut ear = listener();
    assert_eq!(
        ear.hear("chapter one hundred nineteen", false),
        Some(Command::Passage { book: None, chapter: Some(119), by: 0, verse: None })
    );
}

#[test]
fn hears_a_chapter_step_with_a_verse() {
    let mut ear = listener();
    assert_eq!(
        ear.hear("next chapter verse nine", false),
        Some(Command::Passage { book: None, chapter: None, by: 1, verse: Some(9) })
    );
    ear.forget();
    assert_eq!(
        ear.hear("previous chapter verse two", false),
        Some(Command::Passage { book: None, chapter: None, by: -1, verse: Some(2) })
    );
}

#[test]
fn hears_a_reference_however_it_is_said() {
    for said in ["John nine eight", "John nine verse eight", "John chapter nine verse eight"] {
        let mut ear = listener();
        assert_eq!(
            ear.hear(said, false),
            Some(Command::Passage {
                book: Some("John".into()),
                chapter: Some(9),
                by: 0,
                verse: Some(8),
            }),
            "{said}"
        );
    }
}

#[test]
fn hears_a_book_and_chapter() {
    let mut ear = listener();
    assert_eq!(
        ear.hear("Romans eight", false),
        Some(Command::Passage {
            book: Some("Romans".into()),
            chapter: Some(8),
            by: 0,
            verse: None,
        })
    );
}

#[test]
fn hears_a_numbered_book_spoken() {
    for said in ["first John four eight", "one john four eight"] {
        let mut ear = listener();
        assert_eq!(
            ear.hear(said, false),
            Some(Command::Passage {
                book: Some("1 John".into()),
                chapter: Some(4),
                by: 0,
                verse: Some(8),
            }),
            "{said}"
        );
    }
}

#[test]
fn a_longer_book_name_wins() {
    let mut ear = listener();
    assert_eq!(
        ear.hear("song of solomon two one", false),
        Some(Command::Passage {
            book: Some("Song of Solomon".into()),
            chapter: Some(2),
            by: 0,
            verse: Some(1),
        })
    );
}

#[test]
fn a_book_on_its_own_asks_for_nothing() {
    let mut ear = listener();
    assert_eq!(ear.hear("John", false), None);
    assert_eq!(ear.hear("the book of Romans", false), None);
}

#[test]
fn a_reference_in_a_sentence_is_not_a_command() {
    let mut ear = listener();
    for said in [
        "turn with me to John nine eight",
        "as we read in Romans eight this morning",
        "John nine eight is where we finished last week",
        "look at first John four eight with me",
    ] {
        assert_eq!(ear.hear(said, false), None, "{said}");
    }
}

#[test]
fn a_wake_word_takes_a_reference_mid_sentence() {
    let mut ear = listener();
    assert_eq!(
        ear.hear("castavox John nine eight please", false),
        Some(Command::Passage {
            book: Some("John".into()),
            chapter: Some(9),
            by: 0,
            verse: Some(8),
        })
    );
}

#[test]
fn the_same_words_later_are_heard_again() {
    let mut ear = listener();
    assert_eq!(ear.hear("castavox next verse", false), Some(Command::NextVerse));
    assert_eq!(ear.hear("castavox clear the screen", false), Some(Command::Clear));
    assert_eq!(ear.hear("castavox next verse", false), Some(Command::NextVerse));
}

#[test]
fn only_the_tail_counts() {
    let mut ear = listener();
    let long = "castavox next verse ".to_string()
        + &"and then he said to them all of this and much more besides ".repeat(2);
    assert_eq!(ear.hear(&long, false), None);
}

#[test]
fn names_a_translation_however_it_is_said() {
    for said in [
        "castavox switch to the ESV",
        "castavox give me the English Standard Version",
        "castavox read from english standard",
    ] {
        let mut ear = listener();
        assert_eq!(
            ear.hear(said, false),
            Some(Command::Switch { translation: "ESV".into() }),
            "{said}"
        );
    }
}

#[test]
fn the_longer_name_wins() {
    let mut ear = listener();
    assert_eq!(
        ear.hear("castavox switch to the new king james", false),
        Some(Command::Switch { translation: "NKJV".into() })
    );
}

#[test]
fn a_church_can_teach_it_their_own_words() {
    let custom = vec![Phrase { said: "shema".into(), does: Command::NextVerse }];
    let mut ear = Listener::new("Castavox", &translations(), &books(), &custom);
    assert_eq!(ear.hear("castavox shema", false), Some(Command::NextVerse));
}

#[test]
fn a_churchs_own_phrase_wins() {
    let custom = vec![Phrase { said: "next verse".into(), does: Command::Clear }];
    let mut ear = Listener::new("Castavox", &translations(), &books(), &custom);
    assert_eq!(ear.hear("castavox next verse", false), Some(Command::Clear));
}

#[test]
fn the_last_wake_word_is_the_one_that_counts() {
    let mut ear = listener();
    assert_eq!(
        ear.hear("castavox next verse castavox clear the screen", false),
        Some(Command::Clear)
    );
}

#[test]
fn without_a_wake_word_a_bare_instruction_still_works() {
    let mut ear = Listener::new("", &translations(), &books(), &[]);
    assert_eq!(ear.hear("next verse", false), Some(Command::NextVerse));
    ear.forget();
    assert_eq!(ear.hear("previous verse", false), Some(Command::PreviousVerse));
    ear.forget();
    assert_eq!(ear.hear("clear the screen", false), Some(Command::Clear));
    ear.forget();
    assert_eq!(
        ear.hear("give me the King James", false),
        Some(Command::Switch { translation: "KJV".into() })
    );
}

#[test]
fn without_a_wake_word_a_sermon_is_still_not_a_command() {
    let mut ear = Listener::new("", &translations(), &books(), &[]);
    for said in [
        "and the next verse says something remarkable",
        "let us go back to what Paul wrote",
        "I want to clear the screen of my mind",
        "switch to the King James for a moment",
        "the King James is clearer here",
        "he read the next verse and then stopped",
        "we will come back to that",
    ] {
        assert_eq!(ear.hear(said, false), None, "{said}");
    }
}

#[test]
fn a_wake_word_does_not_stop_a_bare_instruction() {
    let mut ear = listener();
    assert_eq!(ear.hear("next verse", false), Some(Command::NextVerse));
    ear.forget();
    assert_eq!(ear.hear("castavox next verse", false), Some(Command::NextVerse));
    ear.forget();
    assert_eq!(
        ear.hear("give me the King James", false),
        Some(Command::Switch { translation: "KJV".into() })
    );
}

#[test]
fn a_wake_word_does_not_make_a_sermon_dangerous() {
    let mut ear = listener();
    for said in [
        "and the next verse says something remarkable",
        "the King James is clearer here",
        "we will come back to that",
    ] {
        assert_eq!(ear.hear(said, false), None, "{said}");
    }
}

#[test]
fn a_bare_custom_phrase_works() {
    let custom = vec![Phrase { said: "shema".into(), does: Command::NextVerse }];
    let mut ear = Listener::new("", &translations(), &books(), &custom);
    assert_eq!(ear.hear("shema", false), Some(Command::NextVerse));
    ear.forget();
    assert_eq!(ear.hear("and then he said shema to them", false), None);
}

#[test]
fn the_wake_word_on_its_own_asks_for_nothing() {
    let mut ear = listener();
    assert_eq!(ear.hear("we run this on castavox", false), None);
}
