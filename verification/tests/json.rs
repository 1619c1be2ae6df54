use diffier::json::{self, same_json, take, unset, Json};

fn parse(text: &str) -> Json {
    Json::parse_text(text).unwrap()
}

#[test]
fn documents_survive_both_ways() {
    let text = r#"{"a":[1,-2,2.5,true,null,"x"],"b":{"c":""}}"#;
    let j = parse(text);
    assert_eq!(j.to_bytes(), text.as_bytes());
    assert!(same_json(&Json::parse_text(&j.to_pretty()).unwrap(), &j));
    assert!(same_json(&Json::from_value(j.to_value()), &j));
    assert!(same_json(&j.copy(), &j));
}

#[test]
fn keys_are_written_in_their_order() {
    assert_eq!(parse(r#"{"b":1,"a":2}"#).to_bytes(), br#"{"a":2,"b":1}"#);
}

#[test]
fn broken_text_is_no_document() {
    assert!(Json::parse(b"{not json").is_none());
    assert!(Json::parse(&[0xff]).is_none());
    assert!(Json::parse_text("").is_none());
    assert!(Json::parse_text("1 2").is_none());
}

#[test]
fn members_are_found_by_key() {
    let j = parse(r#"{"s":"x","b":false,"a":[1],"o":{}}"#);
    assert_eq!(j.str_at("s"), Some("x"));
    assert_eq!(j.str_at("b"), None);
    assert_eq!(j.get("b").unwrap().as_bool(), Some(false));
    assert_eq!(j.get("a").unwrap().as_array().unwrap().len(), 1);
    assert!(j.get("o").unwrap().is_object());
    assert!(j.get("none").is_none());
    assert!(j.get("s").unwrap().get("x").is_none());
    assert_eq!(j.get("s").unwrap().as_str(), Some("x"));
}

#[test]
fn the_last_of_a_key_counts() {
    let mut es = vec![
        ("k".to_string(), parse("1")),
        ("l".to_string(), parse("2")),
        ("k".to_string(), parse("3")),
    ];
    assert_eq!(take(&mut es, "k").unwrap().to_bytes(), b"3");
    assert!(take(&mut es, "k").is_none());
    json::set(&mut es, "m", parse("4"));
    json::set(&mut es, "m", parse("5"));
    unset(&mut es, "l");
    assert_eq!(Json::Object(es).to_bytes(), br#"{"m":5}"#);
}

#[test]
fn order_does_not_matter() {
    assert!(same_json(&parse(r#"{"a":1,"b":2}"#), &parse(r#"{"b":2,"a":1}"#)));
    assert!(!same_json(&parse(r#"{"a":1}"#), &parse(r#"{"a":1,"b":2}"#)));
    assert!(!same_json(&parse("[1,2]"), &parse("[2,1]")));
    assert!(!same_json(&parse("1"), &parse("\"1\"")));
    assert!(!same_json(&parse("1"), &parse("2")));
}
