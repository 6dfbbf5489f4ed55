use castavox_core::library::{
    attributions, backfill_licence, import, import_plan, install, is_current, must_refill, next_ordinal, read_verses,
    remove, unpack, Change, Flaw, Row, Verse, SCHEMA_VERSION,
};
use castavox_core::packs::Pack;
use std::io::Write;

/// A pack as a download would have left one.
fn packed(verses: &[(i64, &str, i64, i64, &str)]) -> Vec<u8> {
    let mut encoder =
        flate2::write::GzEncoder::new(Vec::new(), flate2::Compression::fast());
    for (number, book, chapter, verse, text) in verses {
        let line = format!("{number}\t{book}\t{chapter}\t{verse}\t{text}\n");
        encoder.write_all(line.as_bytes()).unwrap();
    }
    encoder.finish().unwrap()
}

fn pack(id: &str, verse_count: i64) -> Pack {
    Pack {
        id: id.into(),
        name: format!("{id} Version"),
        year: 1611,
        file: format!("{id}.tsv.gz"),
        verse_count,
        checksum: format!("{id}-checksum"),
        sha256: String::new(),
        bytes: 0,
        language: "English".into(),
        note: None,
        missing_verses: 0,
        licence: None,
        attribution: None,
    }
}

#[test]
fn installs_a_pack_and_indexes_it() {
    let bytes = packed(&[(43, "John", 3, 16, "For God so loved the world")]);
    let entry = pack("AAA", 1);
    let verses = unpack(&bytes, &entry).unwrap();
    assert_eq!(
        verses,
        vec![Verse {
            book_number: 43,
            book: "John".into(),
            chapter: 3,
            verse: 16,
            text: "For God so loved the world".into(),
        }]
    );

    let plan = install(&entry, None, &bytes).unwrap();
    assert_eq!(plan.together.len(), 3);
    assert_eq!(plan.together[0], Change::DropVerses { id: "AAA".into() });
    assert!(matches!(&plan.together[1], Change::AddVerses { id, verses } if id == "AAA" && verses.len() == 1));
    assert_eq!(
        plan.together[2],
        Change::List {
            row: Row {
                id: "AAA".into(),
                name: "AAA Version".into(),
                year: 1611,
                ordinal: 0,
                checksum: "AAA-checksum".into(),
                verse_count: 1,
                licence: String::new(),
                attribution: String::new(),
            }
        }
    );
    assert_eq!(plan.afterwards, vec![Change::Reindex, Change::Welcome { id: "AAA".into() }]);
}

#[test]
fn an_attribution_survives_being_downloaded_rather_than_bundled() {
    let mut entry = pack("FBV", 1);
    entry.licence = Some("CC BY-SA 4.0".into());
    entry.attribution = Some("Free Bible Version © Dr. Jonathan Gallagher".into());
    let bytes = packed(&[(1, "Genesis", 1, 1, "In the beginning")]);
    let plan = install(&entry, None, &bytes).unwrap();
    let Change::List { row } = &plan.together[2] else { panic!("not listed") };
    assert_eq!(
        attributions(&[(row.attribution.clone(), row.licence.clone())]),
        ["Free Bible Version © Dr. Jonathan Gallagher — CC BY-SA 4.0"]
    );
}

#[test]
fn attributions_are_deduplicated() {
    let row =
        ("Biblica® open edition © Biblica, Inc.".to_string(), "CC BY-SA 4.0".to_string());
    let rows = vec![row.clone(), row.clone(), row];
    assert_eq!(attributions(&rows).len(), 1);
}

#[test]
fn attributions_are_in_order_and_only_where_there_is_somebody_to_name() {
    let text = |s: &str| s.to_string();
    let rows = vec![
        (text("b"), text("L")),
        (text(""), text("L")),
        (text("a"), text("L")),
        (text("c"), text("")),
    ];
    assert_eq!(attributions(&rows), ["a — L", "b — L"]);
}

#[test]
fn backfills_a_licence_recorded_before_there_was_anywhere_to_put_it() {
    assert_eq!(backfill_licence(&pack("FBV", 1), ""), None);

    let mut entry = pack("FBV", 1);
    entry.licence = Some("CC BY-SA 4.0".into());
    entry.attribution = Some("Free Bible Version © Dr. Jonathan Gallagher".into());
    assert_eq!(
        backfill_licence(&entry, ""),
        Some(("CC BY-SA 4.0".into(), "Free Bible Version © Dr. Jonathan Gallagher".into()))
    );
    assert_eq!(backfill_licence(&entry, "CC0"), None);
}

#[test]
fn refuses_a_pack_that_does_not_match_its_count() {
    let bytes = packed(&[(1, "Genesis", 1, 1, "In the beginning")]);
    let flaw = unpack(&bytes, &pack("BBB", 31102)).unwrap_err();
    assert_eq!(flaw, Flaw::Count { imported: 1, expected: 31102 });
    assert_eq!(flaw.message("BBB.tsv.gz"), "BBB.tsv.gz yielded 1 verses but 31102 were expected");
    assert!(unpack(&bytes, &pack("BBB", -1)).is_err());
}

#[test]
fn removes_one_translation_and_leaves_the_rest() {
    let plan = remove("AAA", 2, 1).unwrap();
    assert_eq!(
        plan.together,
        vec![
            Change::DropVectors { id: "AAA".into() },
            Change::DropVerses { id: "AAA".into() },
            Change::Unlist { id: "AAA".into() },
            Change::Decline { id: "AAA".into() },
        ]
    );
    assert_eq!(plan.afterwards, vec![Change::Reindex]);
}

#[test]
fn what_is_not_installed_is_not_remembered_as_removed() {
    let not = remove("CCC", 2, 0).unwrap_err();
    assert_eq!(not.words, "CCC is not installed");
    assert_eq!(
        not.together,
        vec![
            Change::DropVectors { id: "CCC".into() },
            Change::DropVerses { id: "CCC".into() },
            Change::Unlist { id: "CCC".into() },
        ],
        "what an unfinished copy left is cleared away"
    );
    assert!(remove("CCC", 2, 1).is_ok());
}

#[test]
fn will_not_remove_the_only_translation() {
    for verses in [0, 1] {
        let not = remove("AAA", 1, verses).unwrap_err();
        assert_eq!(
            not.words,
            "this is the only translation installed, so it cannot be removed"
        );
        assert!(not.together.is_empty());
    }
}

#[test]
fn a_removal_is_remembered() {
    let gone = remove("AAA", 2, 1).unwrap();
    assert!(gone.together.contains(&Change::Decline { id: "AAA".into() }));
    let bytes = packed(&[(1, "Genesis", 1, 1, "In the beginning")]);
    let back = install(&pack("AAA", 1), Some(4), &bytes).unwrap();
    assert!(back.afterwards.contains(&Change::Welcome { id: "AAA".into() }));
    assert!(matches!(&back.together[2], Change::List { row } if row.ordinal == 5));
}

#[test]
fn notices_whether_the_installed_copy_is_current() {
    let entry = pack("AAA", 1);
    let installed = || Some((entry.checksum.clone(), 1));
    assert!(is_current(installed(), 1, &entry));

    let mut corrected = entry.clone();
    corrected.checksum = "different".into();
    assert!(!is_current(installed(), 1, &corrected));
    assert!(!is_current(installed(), 0, &entry), "an import that was interrupted");
    assert!(!is_current(None, 0, &entry));
    assert!(!is_current(Some((entry.checksum.clone(), 0)), 0, &entry));
}

#[test]
fn a_flawed_line_is_named() {
    assert_eq!(read_verses("1\tGenesis\t1\n"), Err(Flaw::TooFewFields { line: 1 }));
    assert_eq!(
        read_verses("\n1\tGenesis\t1\t1\tyes\nshort").unwrap_err().message("p"),
        "p: line 3 has too few fields"
    );
    assert_eq!(read_verses("x\tGenesis\t1\t1\tyes"), Err(Flaw::BookNumber));
    assert_eq!(read_verses("1\tGenesis\tx\t1\tyes"), Err(Flaw::Chapter));
    assert_eq!(read_verses("1\tGenesis\t1\tx\tyes"), Err(Flaw::Verse));
    assert_eq!(Flaw::BookNumber.message("p"), "bad book number");
    assert_eq!(Flaw::Chapter.message("p"), "bad chapter number");
    assert_eq!(Flaw::Verse.message("p"), "bad verse number");
}

#[test]
fn a_verse_keeps_its_tabs() {
    let verses = read_verses("1\tGenesis\t1\t1\tIn\tthe\tbeginning\r\n").unwrap();
    assert_eq!(verses[0].text, "In\tthe\tbeginning");
}

#[test]
fn what_is_not_gzip_is_no_pack() {
    assert_eq!(unpack(b"not gzip", &pack("AAA", 0)), Err(Flaw::Compressed));
    assert_eq!(Flaw::Compressed.message("p"), "could not decompress p");
}

#[test]
fn a_translation_arrives_after_the_others() {
    assert_eq!(next_ordinal(None), 0);
    assert_eq!(next_ordinal(Some(-1)), 0);
    assert_eq!(next_ordinal(Some(6)), 7);
    assert_eq!(next_ordinal(Some(i64::MAX)), 0);
    assert!(must_refill(SCHEMA_VERSION - 1));
    assert!(!must_refill(SCHEMA_VERSION));
}

#[test]
fn an_import_keeps_the_place_it_is_given_and_welcomes_nothing() {
    let bytes = packed(&[(1, "Genesis", 1, 1, "In the beginning")]);
    let plan = import(&pack("AAA", 1), 7, &bytes).unwrap();
    assert!(matches!(&plan.together[2], Change::List { row } if row.ordinal == 7));
    assert_eq!(plan.afterwards, vec![Change::Reindex]);
    assert_eq!(plan, import_plan(&pack("AAA", 1), 7, unpack(&bytes, &pack("AAA", 1)).unwrap()));
    assert_eq!(import(&pack("AAA", 2), 7, &bytes), Err(Flaw::Count { imported: 1, expected: 2 }));
    assert_eq!(install(&pack("AAA", 1), None, b"not gzip"), Err(Flaw::Compressed));
}
