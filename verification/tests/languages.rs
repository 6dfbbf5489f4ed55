use castavox_core::languages::{find, languages, warning};

#[test]
fn every_code_is_unique_and_regioned() {
    let mut seen = Vec::new();
    for language in languages() {
        assert!(!seen.contains(&language.code), "{} listed twice", language.code);
        assert!(language.code.contains('-'), "{} has no region", language.code);
        seen.push(language.code);
    }
}

#[test]
fn yoruba_is_local_only_and_says_so() {
    let said = warning("yo-NG", true).expect("a subscription cannot do Yoruba");
    assert!(said.contains("Yoruba"), "{said}");
    assert!(said.contains("this machine"), "{said}");

    assert!(warning("yo-NG", false).is_none(), "locally it works");
}

#[test]
fn swahili_is_local_only_now_that_azure_is_gone() {
    let said = warning("sw-KE", true).expect("Deepgram's multi has no Swahili");
    assert!(said.contains("this machine"), "{said}");
    assert!(!said.contains("Azure"), "the Azure engine is withdrawn: {said}");
}

#[test]
fn zulu_says_nothing_can_hear_it() {
    let said = warning("zu-ZA", true).expect("nothing transcribes Zulu now");
    assert!(said.contains("nor can the others"), "{said}");
    assert!(warning("zu-ZA", false).is_some(), "not locally either");
}

#[test]
fn the_ordinary_case_costs_no_words() {
    for code in ["en-NG", "en-US", "fr-FR", "es-ES", "pt-BR"] {
        assert!(warning(code, true).is_none(), "{code} is hosted-capable");
    }
}

#[test]
fn a_language_no_engine_knows_is_not_offered_for_listening() {
    assert!(find("ig-NG").is_none(), "Igbo must not be offered as a spoken language");
}

#[test]
fn an_unknown_locale_warns_about_nothing() {
    assert!(warning("xx-YY", true).is_none());
}
