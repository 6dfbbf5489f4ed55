use castavox_core::transcripts::{
    duration_ms, import, list, read_topics, removal, search_phrase, split, write_topics, Closing,
    Recorder, Session, Wipe, LINE_WORDS,
};

#[test]
fn keeps_what_was_said() {
    let mut recorder = Recorder::new();
    assert_eq!(recorder.begin(1_000), None);
    recorder.began(7, 1_000);
    let first = recorder.append("For God so loved the world", 1_500).unwrap();
    let second = recorder.append("  that he gave his only begotten Son ", 2_500).unwrap();
    assert_eq!(first.text, "For God so loved the world");
    assert_eq!(second.text, "that he gave his only begotten Son");
    assert_eq!((first.session, first.at_ms), (7, 500));
    assert_eq!(second.at_ms, 1_500);
    assert_eq!(first.words + second.words, 13);
    assert_eq!(recorder.end(3_000), Some(Closing { id: 7, at: 3_000 }));
}

#[test]
fn words_spoken_after_stop_are_not_kept() {
    let mut recorder = Recorder::new();
    recorder.began(1, 0);
    recorder.end(10);
    assert_eq!(recorder.append("a stray half sentence", 20), None);
    assert_eq!(recorder.end(30), None);
}

#[test]
fn a_session_left_open_is_closed_by_the_next_one() {
    let mut recorder = Recorder::new();
    recorder.began(1, 0);
    recorder.append("last week", 5);

    assert_eq!(recorder.begin(100), Some(Closing { id: 1, at: 100 }));
    recorder.began(2, 100);
    assert_eq!(recorder.append("this week", 105).unwrap().session, 2);
}

#[test]
fn a_blank_utterance_is_nothing() {
    let mut recorder = Recorder::new();
    recorder.began(1, 0);
    assert_eq!(recorder.append("  \n ", 5), None);
}

#[test]
fn punctuation_in_a_search_does_not_break_it() {
    assert_eq!(search_phrase("said: it is").as_deref(), Some("\"said: it is\""));
    assert_eq!(search_phrase(" he said \"go\" ").as_deref(), Some("\"he said go\""));
    assert_eq!(search_phrase("   "), None);
}

#[test]
fn deleting_a_session_takes_its_words_out_of_the_index() {
    assert_eq!(removal(), vec![Wipe::Index, Wipe::Lines, Wipe::Session]);
}

#[test]
fn an_imported_file_becomes_a_service_with_every_word_kept() {
    let text = "First line of the service.\n\nSecond line, after a blank.\nThird line.";
    let service = import(" Sunday teaching ", text, 1_000).unwrap();
    assert_eq!(service.title, "Sunday teaching");
    assert_eq!(service.word_count, 12, "the count must match what was stored");
    assert_eq!(service.started_at, 1_000);
    assert_eq!(service.ended_at, 1_000 + 12 * 400);

    assert_eq!(service.lines.len(), 3, "blank lines are separators, not utterances");
    let joined =
        service.lines.iter().map(|l| l.text.as_str()).collect::<Vec<_>>().join(" ");
    for word in ["First", "Second", "Third", "blank."] {
        assert!(joined.contains(word), "{word} was lost on the way in");
    }
}

#[test]
fn importing_does_not_disturb_a_service_being_recorded() {
    let mut recorder = Recorder::new();
    recorder.began(1, 0);
    import("From a file", "some words in a file", 5).unwrap();
    assert_eq!(recorder.append("still recording", 10).unwrap().session, 1);
}

#[test]
fn one_unbroken_wall_of_text_is_broken_into_utterances() {
    let wall = (0..500).map(|i| format!("word{i}.")).collect::<Vec<_>>().join(" ");
    let lines = import("Wall", &wall, 0).unwrap().lines;
    assert!(lines.len() > 1, "a 500-word paragraph became a single line");
    assert!(
        lines.iter().all(|l| l.text.split_whitespace().count() <= LINE_WORDS * 2),
        "a line grew without limit"
    );
    let total: usize = lines.iter().map(|l| l.text.split_whitespace().count()).sum();
    assert_eq!(total, 500, "words were lost in the breaking");
}

#[test]
fn a_wall_without_a_sentence_end_is_broken_anyway() {
    let wall = (0..200).map(|i| format!("word{i}")).collect::<Vec<_>>().join(" ");
    let lengths: Vec<usize> =
        split(&wall).iter().map(|l| l.split_whitespace().count()).collect();
    assert_eq!(lengths, vec![80, 80, 40]);
}

#[test]
fn a_file_with_no_words_is_refused_rather_than_stored() {
    assert_eq!(
        import("Empty", "   \n\n  ", 0),
        Err("there are no words in that file".to_string())
    );
}

#[test]
fn imported_lines_advance_in_time_so_the_service_has_a_length() {
    let lines =
        import("Paced", "one two three four five.\nsix seven eight nine ten.", 0).unwrap().lines;
    assert_eq!(lines[0].at_ms, 0);
    assert!(lines[1].at_ms > 0, "every line claimed to be spoken at once");
    assert_eq!(lines[1].at_ms, duration_ms(5));
    assert_eq!(duration_ms(150), 60_000);
}

#[test]
fn short_lines_are_kept_as_they_were_written() {
    assert_eq!(split("  one  two \r\nthree"), vec!["one  two", "three"]);
}

#[test]
fn a_title_the_operator_typed_survives() {
    let topics = vec!["grace".to_string(), "ret\"urn\\".to_string()];
    assert_eq!(read_topics(&write_topics(&topics)), topics);
    assert_eq!(write_topics(&["a".to_string()]), r#"["a"]"#);
    assert!(read_topics("[]").is_empty());
    assert!(read_topics("not json").is_empty());
    assert!(read_topics(r#"["a", 1]"#).is_empty());
    assert!(read_topics(r#"{"a":"b"}"#).is_empty());
}

#[test]
fn sessions_are_listed_most_recent_first() {
    let session = |id: i64, started_at: i64| Session { started_at, ..Session::empty(id) };
    let all = vec![session(1, 10), session(2, 30), session(3, 30), session(4, 20)];
    let ids = |limit: i64| -> Vec<i64> {
        list(all.clone(), limit).into_iter().map(|s| s.id).collect()
    };
    assert_eq!(ids(10), vec![3, 2, 4, 1]);
    assert_eq!(ids(2), vec![3, 2]);
    assert_eq!(ids(-1), vec![3, 2, 4, 1]);
    assert!(ids(0).is_empty());
}

#[test]
fn a_placeholder_carries_nothing_but_an_id() {
    let empty = Session::empty(5);
    assert_eq!(empty.id, 5);
    assert_eq!(empty.word_count, 0);
    assert!(empty.title.is_empty() && empty.topics.is_empty() && empty.ended_at.is_none());
}
