use castavox_core::checkin::{due, kept_id, stamp, uuid, wanted, weak_bytes, CheckIn, EVERY};
use castavox_core::json::Json;

#[test]
fn an_install_id_is_made_once_and_then_kept() {
    let bytes: Vec<u8> = (0..16).collect();
    let first = uuid(&bytes);
    assert_eq!(first, "00010203-0405-0607-0809-0a0b0c0d0e0f");
    assert_eq!(kept_id(Some(first.clone())), Some(first.clone()), "a second launch is the same");
    assert_eq!(first.len(), 36, "shaped like a uuid");
    assert_eq!(kept_id(Some(format!("  {first}\n"))), Some(first));
    assert_eq!(kept_id(Some("  \n".into())), None);
    assert_eq!(kept_id(None), None);
}

#[test]
fn checkin_a_switch_that_is_off_does_nothing_at_all() {
    assert!(!wanted(false, None, 0));
    assert!(!wanted(false, Some("0"), u64::MAX));
    assert!(wanted(true, None, 0));
}

#[test]
fn a_failed_check_in_leaves_no_trace_of_success() {
    assert_eq!(stamp(false, 1_000_000), None);
    assert_eq!(stamp(true, 1_000_000).as_deref(), Some("1000000"));
}

#[test]
fn the_payload_has_nowhere_to_put_content() {
    let payload = CheckIn {
        install: "i".into(),
        app: "pulpitry".into(),
        version: "0.4.0".into(),
        os: "macos".into(),
        os_version: "15.0".into(),
        arch: "aarch64".into(),
        cores: 8,
        engine: "local".into(),
    }
    .payload();
    let Json::Object(fields) = payload else { panic!("not an object") };
    let mut keys: Vec<String> = fields.into_iter().map(|(name, _)| name).collect();
    keys.sort_unstable();
    assert_eq!(
        keys,
        ["app", "arch", "cores", "engine", "install", "os", "osVersion", "version"],
        "the payload changed -- the privacy policy has to change with it"
    );
}

#[test]
fn one_check_in_a_day() {
    let left = stamp(true, 1_000_000).unwrap();
    assert!(!due(Some(&left), 1_000_000));
    assert!(!due(Some(&left), 1_000_000 + EVERY - 1));
    assert!(due(Some(&left), 1_000_000 + EVERY));
    assert!(due(Some(&left), 999_999), "a clock moved backwards reads as due");
    assert!(due(Some("not a number"), 5));
    assert!(due(Some(" 10\n"), EVERY + 10));
}

#[test]
fn bytes_out_of_the_clock_are_spread_by_their_place() {
    let bytes = weak_bytes(0x0807_0605_0403_0201, 0);
    assert_eq!(bytes.len(), 16);
    for at in 0..16usize {
        let part = (0x0807_0605_0403_0201u64 >> ((at % 8) * 8)) as u8;
        assert_eq!(bytes[at], part ^ (at as u8).wrapping_mul(31));
    }
    assert_ne!(weak_bytes(1, 2), weak_bytes(1, 3));
}
