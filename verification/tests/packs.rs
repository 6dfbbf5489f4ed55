use castavox_core::packs::{
    arrived, catalogue_refused, download_refused, download_url, expected, Pack,
};

fn pack() -> Pack {
    Pack {
        id: "TEST".into(),
        name: "A Test Translation".into(),
        year: 2026,
        file: "TEST.tsv.gz".into(),
        verse_count: 3,
        checksum: "abcd".into(),
        sha256: String::new(),
        bytes: 0,
        language: "English".into(),
        note: None,
        missing_verses: 0,
        licence: None,
        attribution: None,
    }
}

#[test]
fn a_pack_with_no_published_hash_is_refused() {
    let error = download_url(&pack(), "https://example.invalid").unwrap_err();
    assert!(
        error.contains("no published checksum"),
        "refused for the wrong reason: {error}"
    );
}

#[test]
fn a_pack_is_downloaded_from_beside_its_catalogue() {
    let entry = Pack { sha256: "aa".into(), ..pack() };
    assert_eq!(
        download_url(&entry, "https://example.invalid/packs//").unwrap(),
        "https://example.invalid/packs/TEST.tsv.gz"
    );
}

#[test]
fn what_arrived_is_what_was_published_or_is_discarded() {
    let hash = " BA7816BF8F01CFEA414140DE5DAE2223B00361A396177A9CB410FF61F20015AD ";
    let entry = Pack { sha256: hash.into(), ..pack() };
    assert_eq!(arrived(&entry, b"abc"), Ok(()));
    assert_eq!(
        arrived(&entry, b"abd"),
        Err("A Test Translation did not arrive intact and has been discarded. Try again, or check the connection.".to_string())
    );
}

#[test]
fn a_server_that_says_no_is_reported() {
    assert_eq!(
        download_refused(&pack(), 404).as_deref(),
        Some("A Test Translation could not be downloaded (404 Not Found)")
    );
    assert_eq!(download_refused(&pack(), 206), None);
    assert_eq!(
        catalogue_refused(503).as_deref(),
        Some("the translation catalogue answered 503 Service Unavailable")
    );
    assert_eq!(catalogue_refused(200), None);
}

#[test]
fn the_size_to_expect_is_the_servers_word_or_the_catalogues() {
    let entry = Pack { bytes: 70, ..pack() };
    assert_eq!(expected(&entry, Some(90)), 90);
    assert_eq!(expected(&entry, None), 70);
}
