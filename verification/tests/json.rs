use castavox_core::json::{read_json, Json, Numeral};

#[test]
fn a_text_is_read_as_plain_values() {
    let json = read_json(r#"{"b":[1,-2,2.5,null],"a":{"t":true,"s":"x"}}"#).unwrap();
    let Some(Json::List(items)) = json.get("b") else { panic!("no list") };
    assert_eq!(items[0], Json::Number(Numeral::Unsigned(1)));
    assert_eq!(items[1], Json::Number(Numeral::Negative(-2)));
    assert_eq!(items[2], Json::Number(Numeral::Other("2.5".into())));
    assert_eq!(items[3], Json::Null);
    let a = json.get("a").unwrap();
    assert_eq!(a.get("t"), Some(&Json::Bool(true)));
    assert_eq!(a.get("s").and_then(|s| s.as_text()), Some(&"x".to_string()));
    assert_eq!(a.get("missing"), None);
    assert_eq!(json.get("b").and_then(|b| b.first()), Some(&Json::Number(Numeral::Unsigned(1))));
    assert_eq!(json.clone(), json);
}

#[test]
fn what_is_not_json_is_refused_with_words() {
    let words = read_json("nope").unwrap_err();
    assert!(words.contains("line 1"), "{words}");
}
