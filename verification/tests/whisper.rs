use castavox_core::json::read_json;
use castavox_core::whisper::models::{
    decoding_threads, download_url, ended, is_installed, kept_in, published_models,
};
use castavox_core::whisper::session::{
    decoded, interim_pace, model_loaded, plan_model, remedy, worth_decoding, Cut, Heard,
    ModelPlan, INTERIM_EVERY, INTERIM_FASTEST, INTERIM_SLOWEST, NANOS,
};
use castavox_core::whisper::speech::language_code;
use castavox_core::whisper::{
    catalogue, clean, decode_language, describe, larger_than, likely_keeps_up, model_path,
    recommended, smaller_than, ModelInfo, Session, Sustained,
};

#[test]
fn interims_go_as_fast_as_the_machine_affords_and_no_faster() {
    assert_eq!(interim_pace(0), INTERIM_EVERY);

    assert_eq!(interim_pace(120), INTERIM_FASTEST);

    assert_eq!(interim_pace(400), 1_200);

    assert_eq!(interim_pace(5_000), INTERIM_SLOWEST);
    assert_eq!(interim_pace(usize::MAX), INTERIM_SLOWEST);
}

#[test]
fn falling_behind_names_the_next_size_down() {
    assert_eq!(smaller_than("ggml-small.en.bin").as_deref(), Some("ggml-base.en.bin"));
    assert_eq!(smaller_than("ggml-medium.bin").as_deref(), Some("ggml-small.bin"));
    assert_eq!(smaller_than("ggml-base.en.bin").as_deref(), Some("ggml-tiny.en.bin"));
    assert_eq!(smaller_than("ggml-tiny.en.bin"), None);

    assert_eq!(larger_than("ggml-tiny.en.bin").as_deref(), Some("ggml-base.en.bin"));
    assert_eq!(larger_than("ggml-base.en.bin").as_deref(), Some("ggml-small.en.bin"));
    assert_eq!(larger_than("ggml-small.bin").as_deref(), Some("ggml-medium.bin"));
    assert_eq!(larger_than("ggml-medium.en.bin"), None);
    assert_eq!(larger_than("ggml-large-v3-turbo.bin"), None);
    assert_eq!(smaller_than("ggml-large-v3-turbo.bin"), None);
}

#[test]
fn a_quantised_build_is_not_on_the_ladder() {
    for file in [
        "ggml-base.en-q5_1.bin",
        "ggml-base-q5_1.bin",
        "ggml-small.en-tdrz.bin",
        "ggml-base.en.en.bin",
    ] {
        assert_eq!(smaller_than(file), None, "{file}");
        assert_eq!(larger_than(file), None, "{file}");
    }
}

#[test]
fn strips_the_sounds_nobody_said() {
    assert_eq!(clean(" [BLANK_AUDIO] "), "");
    assert_eq!(clean("(wind blowing) and he said"), "and he said");
    assert_eq!(clean("For God [MUSIC] so loved the world"), "For God so loved the world");
}

#[test]
fn collapses_the_padding_whisper_adds() {
    assert_eq!(clean("   For   God so loved   "), "For God so loved");
}

#[test]
fn an_unclosed_bracket_does_not_eat_the_rest() {
    assert_eq!(clean("he said [unfinished"), "he said");
}

#[test]
fn language_is_the_bare_code_whisper_knows() {
    for (locale, code) in [
        ("en-US", "en"),
        ("en-NG", "en"),
        ("fr-FR", "fr"),
        ("yo-NG", "yo"),
        ("zh-CN", "zh"),
        ("pt_BR", "pt"),
        ("YO", "yo"),
    ] {
        assert_eq!(language_code(locale), code);
        assert_eq!(decode_language(false, Some(code)), code);
    }
}

#[test]
fn an_english_only_model_is_never_asked_for_anything_else() {
    assert_eq!(decode_language(true, Some("yo")), "en");
    assert_eq!(decode_language(true, Some("fr")), "en");
}

#[test]
fn an_unknown_locale_falls_back_rather_than_failing() {
    assert_eq!(language_code(""), "");
    assert_eq!(language_code("qq-ZZ"), "qq");
    assert_eq!(decode_language(false, None), "en");
}

#[test]
fn a_thin_laptop_is_never_handed_a_model_it_cannot_carry() {
    for cores in 0..64 {
        let chosen = recommended("en-GB", cores, false);
        assert!(
            chosen.contains("tiny") || chosen.contains("base"),
            "{chosen} is too large to choose unattended on this architecture",
        );
    }
    assert_eq!(recommended("en-GB", 10, true), "ggml-small.en.bin");
    assert_eq!(recommended("en-GB", 9, true), "ggml-base.en.bin");
}

#[test]
fn the_capability_guess_is_about_the_processor() {
    assert!(likely_keeps_up(1, true));
    assert!(!likely_keeps_up(12, false));
    assert!(likely_keeps_up(16, false));
}

#[test]
fn the_recommendation_is_a_model_that_exists() {
    for cores in [1, 4, 12, 32] {
        for apple in [true, false] {
            let english = recommended("en-NG", cores, apple);
            assert!(english.starts_with("ggml-") && english.ends_with(".en.bin"), "{english}");
            assert!(
                ["tiny", "base", "small", "medium"]
                    .iter()
                    .any(|size| english == format!("ggml-{size}.en.bin")),
                "{english} is not on the ladder",
            );
            assert_ne!(english, "ggml-medium.en.bin");
        }
    }
}

#[test]
fn a_church_not_working_in_english_is_not_given_an_english_only_model() {
    assert!(!recommended("yo-NG", 8, false).contains(".en."));
    assert!(!recommended("fr-FR", 8, true).contains(".en."));
    assert!(recommended("", 8, false).contains(".en."));
}

#[test]
fn the_catalogue_is_smallest_first_and_keeps_what_is_on_disk() {
    let reply = read_json(
        r#"[{"path":"ggml-base.en.bin","size":200},{"path":"README.md","size":1},
            {"path":"ggml-tiny-q5_1.bin","size":100},{"path":"ggml-base.bin","size":200},
            {"path":"ggml-odd.bin"}]"#,
    )
    .unwrap();
    let published = published_models(&reply);
    assert_eq!(published.len(), 4);
    let listed: Vec<ModelInfo> =
        published.iter().map(|(file, bytes)| describe(file, *bytes, false)).collect();
    let here = vec![describe("ggml-base.bin", 200, true), describe("ggml-mine.bin", 150, true)];
    let found = catalogue(listed, here);
    let labels: Vec<&str> = found.iter().map(|m| m.label.as_str()).collect();
    assert_eq!(labels, vec!["odd", "tiny-q5_1", "mine", "base", "base.en"]);
    assert!(found[1].quantised && !found[1].english_only);
    assert!(found[4].english_only);
    assert!(found[2].installed);
}

fn heard(held_ms: u64, speech: bool) -> Heard {
    Heard {
        samples: 1_600,
        span: 100 * NANOS,
        held: held_ms * NANOS,
        speech,
        finished: 0,
        since_interim: 0,
        last_decode_ms: 0,
        busy: false,
    }
}

#[test]
fn a_pause_ends_an_utterance() {
    let mut session = Session::new();
    assert_eq!(session.hear(heard(1_000, true)), Cut::Keep);
    for held in [1_100, 1_200, 1_300, 1_400, 1_500, 1_600] {
        assert_eq!(session.hear(heard(held, false)), Cut::Keep);
    }
    assert_eq!(session.hear(heard(1_700, false)), Cut::Settle { behind: false });
    assert_eq!(session.waiting, 1);
    assert!(!session.spoke);
}

#[test]
fn a_speaker_who_never_pauses_is_cut() {
    let mut session = Session::new();
    assert_eq!(session.hear(heard(17_900, true)), Cut::Keep);
    assert_eq!(session.hear(heard(18_000, true)), Cut::Settle { behind: false });
}

#[test]
fn silence_is_no_utterance() {
    let mut session = Session::new();
    for _ in 0..50 {
        assert_eq!(session.hear(heard(5_000, false)), Cut::Keep);
    }
    assert!(!session.stop(5_000 * NANOS));
    assert_eq!(session.hear(Heard { samples: 0, ..heard(20_000, true) }), Cut::Keep);
    assert!(!session.spoke);
}

#[test]
fn an_interim_is_shown_when_the_machine_affords_it() {
    let mut session = Session::new();
    let ready = Heard { since_interim: 600 * NANOS, last_decode_ms: 120, ..heard(1_000, true) };
    assert_eq!(session.hear(Heard { busy: true, ..ready }), Cut::Keep);
    assert_eq!(session.hear(Heard { since_interim: 599 * NANOS, ..ready }), Cut::Keep);
    assert_eq!(session.hear(ready), Cut::Interim);
    assert!(session.stop(900 * NANOS));
    assert!(!session.stop(899 * NANOS));
}

#[test]
fn a_backlog_is_told_once() {
    let mut session = Session::new();
    let long = heard(18_000, true);
    assert_eq!(session.hear(long), Cut::Settle { behind: false });
    assert_eq!(session.hear(long), Cut::Settle { behind: false });
    assert_eq!(session.hear(long), Cut::Settle { behind: true });
    assert_eq!(session.hear(long), Cut::Settle { behind: false });
    assert_eq!(session.hear(Heard { finished: 9, ..heard(100, true) }), Cut::Keep);
    assert_eq!(session.waiting, 0);
}

#[test]
fn falling_behind_steps_down_to_what_is_on_disk() {
    let done = remedy(Some("ggml-base.en.bin"), true, 3);
    assert_eq!(done.switch_to.as_deref(), Some("ggml-base.en.bin"));
    assert!(done.note.contains("has switched to ggml-base.en.bin"));
    let not_here = remedy(Some("ggml-base.en.bin"), false, 4);
    assert_eq!(not_here.switch_to, None);
    assert!(not_here.note.contains("4 utterances") && not_here.note.contains("not downloaded yet"));
    let none = remedy(None, false, 5);
    assert!(none.note.contains("already the smallest model"));
}

#[test]
fn room_to_spare_is_said_once() {
    let mut session = Session::new();
    assert_eq!(session.offer_larger(false, Some("m")), None);
    let said = session.offer_larger(true, Some("ggml-small.bin")).unwrap();
    assert!(said.contains("ggml-small.bin would be more accurate"), "{said}");
    assert_eq!(session.offer_larger(true, Some("ggml-small.bin")), None);
}

#[test]
fn what_was_settled_is_always_decoded() {
    assert!(worth_decoding(true, true));
    assert!(worth_decoding(false, false));
    assert!(!worth_decoding(true, false));
    let settled = decoded(true, Some("words"));
    assert!(settled.record && settled.count && settled.report && !settled.time);
    let partial = decoded(false, Some(""));
    assert!(!partial.record && !partial.count && !partial.report && partial.time);
    assert!(!decoded(true, None).report);
    assert!(!decoded(true, Some("  ")).record);
}

#[test]
fn a_pace_is_told_after_a_minute() {
    let mut sustained = Sustained::default();
    sustained.record(6_000, 16_000 * 59);
    assert_eq!(sustained.sustained(), None);
    sustained.record(100, 16_000);
    assert_eq!(sustained.sustained(), Some((6_100, 60_000)));
}

#[test]
fn a_bad_choice_of_model_keeps_the_good_one() {
    assert_eq!(plan_model("a", Some("a"), false), ModelPlan::InUse);
    assert_eq!(plan_model("b", Some("a"), true), ModelPlan::Load);
    assert_eq!(
        plan_model("b", Some("a"), false),
        ModelPlan::KeepInstead { note: "b is not downloaded; still using a.".into() }
    );
    assert_eq!(
        plan_model("b", None, false),
        ModelPlan::Refuse { words: "b has not been downloaded".into() }
    );
    assert_eq!(model_loaded("b", Some("a"), None), Ok(("b".into(), "Using b.".into())));
    assert_eq!(
        model_loaded("b", Some("a"), Some("bad file")),
        Ok(("a".into(), "b could not be loaded (bad file); still using a.".into()))
    );
    assert_eq!(model_loaded("b", None, Some("bad file")), Err("could not load b: bad file".into()));
}

#[test]
fn a_download_that_ended_early_is_not_installed() {
    assert_eq!(ended(5, 5), Ok(()));
    assert_eq!(ended(5, 0), Ok(()));
    assert_eq!(ended(5, 9), Err("the download ended early: 5 of 9 bytes".to_string()));
    assert!(is_installed(Some(1)) && !is_installed(Some(0)) && !is_installed(None));
    assert!(download_url("ggml-tiny.bin").ends_with("/resolve/main/ggml-tiny.bin"));
    assert_eq!(decoding_threads(Some(1)), 1);
    assert_eq!(decoding_threads(Some(6)), 5);
    assert_eq!(decoding_threads(Some(64)), 8);
    assert_eq!(decoding_threads(None), 4);
}

#[test]
fn cleaning_twice_changes_nothing() {
    for text in ["a (b [c) d] e", "one ) two", "  x  ", "((nested) still) out"] {
        let once = clean(text);
        assert_eq!(clean(&once), once);
        assert!(!once.contains(['[', ']', '(', ')']), "{once}");
    }
    assert_eq!(clean("((nested) still) out"), "out");
}

#[test]
fn a_remote_listing_does_not_choose_where_we_write() {
    assert_eq!(model_path("ggml-base.en.bin"), vec!["models", "ggml-base.en.bin"]);
    assert_eq!(model_path("../../etc/ggml-evil.bin"), vec!["models", "ggml-evil.bin"]);
    assert_eq!(model_path("/etc/passwd"), vec!["models", "passwd"]);
    assert_eq!(model_path("../../etc/passwd"), vec!["models", "passwd"]);
    assert_eq!(model_path(".."), vec!["models", ""]);
    assert_eq!(model_path("a/b/./"), vec!["models", "b"]);
    assert_eq!(model_path("/"), vec!["models", ""]);
    assert_eq!(model_path("./."), vec!["models", ""]);
    assert_eq!(model_path("models/.."), vec!["models", ""]);
    assert_eq!(model_path(""), vec!["models", ""]);
    assert_eq!(kept_in(None), vec!["models", ""]);
    assert_eq!(kept_in(Some("x".into())), vec!["models", "x"]);
}
