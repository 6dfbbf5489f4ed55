use castavox_core::hosted::{
    device_id, device_id_drawn, new_device_id, read, readable, App, Broker, Entitlement, Error, Refusal,
    DEFAULT_BASE,
};
use castavox_core::json::Json;

fn refusal(body: &str) -> Option<Refusal> {
    let value: serde_json::Value = serde_json::from_str(body).ok()?;
    let text = |name: &str| value.get(name).and_then(|v| v.as_str()).map(String::from);
    Some(Refusal { error: text("error"), message: text("message") })
}

fn answer(status: u16, body: &str) -> Result<String, Error> {
    read(status, body.into(), refusal(body))
}

#[test]
fn activation_sends_the_licence_and_returns_the_token() {
    let broker = Broker::at("http://127.0.0.1:8080/");
    assert_eq!(broker.activation_url(), "http://127.0.0.1:8080/api/v1/activate");
    let body = Broker::activation_body(" aaaa-bbbb-cccc-dddd ", "dev_123", App::Pulpitry, "Desk");
    assert_eq!(body.get("licence"), Some(&Json::Text("aaaa-bbbb-cccc-dddd".into())));
    assert_eq!(body.get("app"), Some(&Json::Text("pulpitry".into())));
    assert_eq!(body.get("deviceId"), Some(&Json::Text("dev_123".into())));
    assert_eq!(body.get("name"), Some(&Json::Text("Desk".into())));

    let said = r#"{"token":"dev-token-abc","subscriptionId":"sub_1"}"#;
    assert_eq!(answer(200, said), Ok(said.to_string()));
}

#[test]
fn a_refusal_is_shown_to_the_operator_word_for_word() {
    let error = answer(
        404,
        r#"{"error":"unknown_licence","message":"That licence key was not recognised. Check it against your invoice."}"#,
    )
    .expect_err("a refusal");

    assert_eq!(error.reason(), "unknown_licence");
    assert_eq!(
        error.message(),
        "That licence key was not recognised. Check it against your invoice."
    );
    assert!(!error.is_temporary());
}

#[test]
fn a_broker_that_cannot_be_reached_is_worth_trying_again() {
    let error = Error::Unreachable("connection refused".into());
    assert!(error.is_temporary());
    assert!(error.message().contains("internet connection"));
    assert_eq!(error.reason(), "unreachable");
}

#[test]
fn an_answer_we_cannot_read_does_not_become_advice() {
    let error = answer(500, "<html>gateway</html>").expect_err("unexpected");
    assert_eq!(error.reason(), "unexpected");
    assert!(error.message().contains("did not understand"));
    assert_eq!(error, Error::Unexpected("HTTP 500 Internal Server Error".into()));
}

#[test]
fn a_refusal_that_says_little_is_given_words() {
    let error = answer(403, r#"{"error":"expired"}"#).expect_err("a refusal");
    assert_eq!(error.reason(), "expired");
    assert_eq!(error.message(), "Castavox refused that request.");
    let error = answer(403, r#"{"message":"Not today."}"#).expect_err("a refusal");
    assert_eq!(error.reason(), "refused");
    assert!(matches!(answer(403, "{}"), Err(Error::Unexpected(_))));
}

#[test]
fn device_ids_are_distinct() {
    let a = new_device_id();
    let b = new_device_id();
    assert_ne!(a, b);
    assert!(a.starts_with("dev_"));
    assert_eq!(a.len(), 4 + 32);
}

#[test]
fn a_device_id_is_its_bytes() {
    assert_eq!(device_id(&[0, 255, 16, 1]), "dev_00ff1001");
}

#[test]
fn where_nothing_can_be_drawn_the_time_makes_the_id() {
    assert_eq!(device_id_drawn(Some(vec![7; 16]), 258), format!("dev_{}", "07".repeat(16)));
    assert_eq!(device_id_drawn(None, 258), format!("dev_0201{}", "00".repeat(14)));
}

#[test]
fn hours_read_the_way_somebody_would_say_them() {
    assert_eq!(readable(0), "none left");
    assert_eq!(readable(59), "none left");
    assert_eq!(readable(90), "1 min");
    assert_eq!(readable(3600), "1 hr");
    assert_eq!(readable(3660), "1 hr 1 min");
    assert_eq!(readable(45_000), "12 hr 30 min");
    assert_eq!(readable(-5), "none left");
}

#[test]
fn a_broker_is_where_it_is_said_to_be() {
    assert_eq!(Broker::new(None).base_url(), DEFAULT_BASE);
    assert_eq!(Broker::new(Some("  ".into())).base_url(), DEFAULT_BASE);
    let staging = Broker::new(Some("https://staging.example//".into()));
    assert_eq!(staging.base_url(), "https://staging.example");
    assert_eq!(staging.entitlement_url(), "https://staging.example/api/v1/entitlement");
    assert_eq!(App::Castavox.as_str(), "castavox");
}

#[test]
fn only_an_active_subscription_may_be_used() {
    let mut state = Entitlement::default();
    assert!(!state.is_active());
    state.status = "active".into();
    assert!(state.is_active());
    state.status = "Active".into();
    assert!(!state.is_active());
}
