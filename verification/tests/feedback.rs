use castavox_core::feedback::{body, outcome, not_reached, Report};
use castavox_core::json::{read_json, Json};

fn report(text: &str) -> Report<'_> {
    Report {
        kind: "fault",
        app: "Castavox",
        version: "0.0.0",
        platform: "linux",
        email: "",
        text,
    }
}

#[test]
fn refuses_an_empty_report() {
    assert_eq!(body(&report("   ")), Err("There is nothing in the report to send.".to_string()));
}

#[test]
fn a_report_carries_what_the_operator_wrote() {
    let sent = body(&report("It stopped.")).unwrap();
    assert_eq!(sent.get("text"), Some(&Json::Text("It stopped.".into())));
    assert_eq!(sent.get("kind"), Some(&Json::Text("fault".into())));
    assert_eq!(sent.get("platform"), Some(&Json::Text("linux".into())));
    assert_eq!(sent.get("email"), Some(&Json::Text("".into())));
}

#[test]
fn the_brokers_own_words_are_passed_through() {
    let reply = read_json(r#"{"error":"Too many reports today."}"#).unwrap();
    assert_eq!(outcome(200, None), Ok(()));
    assert_eq!(outcome(429, Some(&reply)), Err("Too many reports today.".to_string()));
    assert_eq!(outcome(500, None), Err("That could not be sent just now.".to_string()));
    let odd = read_json(r#"{"error":3}"#).unwrap();
    assert_eq!(outcome(500, Some(&odd)), Err("That could not be sent just now.".to_string()));
    assert_eq!(not_reached("no route"), "That could not be sent. no route");
}
