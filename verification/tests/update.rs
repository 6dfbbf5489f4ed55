use castavox_core::update::{due, newer_than, parts, read_reply, stamp, wanted, EVERY};

#[test]
fn versions_compare_as_numbers_not_as_text() {
    assert!(newer_than("0.10.0", "0.9.0"), "ten is after nine");
    assert!(newer_than("1.0.0", "0.99.9"));
    assert!(newer_than("0.6.1", "0.6.0"));
    assert!(!newer_than("0.6.0", "0.6.0"), "the same is not newer");
    assert!(!newer_than("0.5.0", "0.6.0"));
    assert!(!newer_than("0.6", "0.6.0"));
    assert!(newer_than("0.6.1", "0.6"));
}

const LIST: &str = r#"[
    {"tag_name":"castavox-v0.9.0","draft":false},
    {"tag_name":"pulpitry-v2.0.0"},
    {"tag_name":"castavox-v0.10.0","draft":false},
    {"tag_name":"castavox-v9.0.0","draft":true},
    {"tag_name":"castavox-v0.8.0"}
]"#;

#[test]
fn the_newest_release_of_the_product_is_offered() {
    let newer = read_reply(LIST, "castavox", "0.9.0").unwrap().unwrap();
    assert_eq!(newer.version, "0.10.0");
    assert_eq!(
        newer.url,
        "https://github.com/aysmart/castavox-downloads/releases/tag/castavox-v0.10.0"
    );
    assert_eq!(read_reply(LIST, "castavox", "0.10.0"), Some(None));
    assert_eq!(read_reply(LIST, "castavox", "1.0"), Some(None));
    assert_eq!(read_reply(LIST, "nothing", "0.0.1"), Some(None));
}

#[test]
fn a_reply_that_cannot_be_read_says_nothing() {
    assert_eq!(read_reply("not json", "castavox", "0.1.0"), None);
    assert_eq!(read_reply(r#"{"message":"rate limit"}"#, "castavox", "0.1.0"), None);
    assert_eq!(read_reply(r#"[{"name":"x"}]"#, "castavox", "0.1.0"), None);
    assert_eq!(read_reply(r#"[{"name":"x","draft":true}]"#, "castavox", "0.1.0"), Some(None));
}

#[test]
fn update_a_switch_that_is_off_does_nothing_at_all() {
    assert!(!wanted(false, None, 5));
    assert!(wanted(true, None, 5));
}

#[test]
fn one_look_a_day() {
    let left = stamp(1_000_000);
    assert_eq!(left, "1000000");
    assert!(!due(Some(&left), 1_000_000 + EVERY - 1));
    assert!(due(Some(&left), 1_000_000 + EVERY));
    assert!(!due(Some(&left), 5));
    assert!(due(Some("?"), 5));
}

#[test]
fn a_version_is_read_part_by_part() {
    assert_eq!(parts("0.10. 3"), vec![0, 10, 3]);
    assert_eq!(parts("1.x"), vec![1, 0]);
    assert_eq!(parts(""), vec![0]);
}

#[test]
fn a_trailing_zero_changes_nothing() {
    for (a, b) in [("1.2", "1.1"), ("1.2", "1.2"), ("1.2", "1.2.1"), ("", "0.1")] {
        let longer = format!("{a}.0");
        assert_eq!(newer_than(&longer, b), newer_than(a, b), "{a} {b}");
        assert_eq!(newer_than(b, &longer), newer_than(b, a), "{a} {b}");
    }
}
