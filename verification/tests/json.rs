use stadhouder::json::{from_value, to_value, Json};

#[test]
fn json_text_is_read_and_written() {
    for text in [
        "null",
        "true",
        "-12",
        "9223372036854775807",
        "18446744073709551615",
        "2.5",
        "\"a\\n\\\"\\u0007\"",
        "[]",
        "{}",
        r#"{"a":[1,{"b":null}],"c":"d"}"#,
    ] {
        assert_eq!(Json::parse(text).unwrap().render(), text);
    }
    assert_eq!(Json::parse(" [ 1 , 2 ] ").unwrap().render(), "[1,2]");
    assert_eq!(Json::parse(r#"{"b":1,"a":2}"#).unwrap().render(), r#"{"a":2,"b":1}"#);
    for bad in ["", "nul", "{a:1}", "[1,]", "1 2", "\"a"] {
        assert!(Json::parse(bad).is_none());
    }
}

#[test]
fn a_later_field_replaces_an_earlier_one() {
    let value = Json::empty().with("a", Json::Int(1)).with("a", Json::Int(2));
    assert_eq!(value.int_at("a"), Some(2));
    assert_eq!(value.render(), r#"{"a":2}"#);
    assert_eq!(Json::parse(r#"{"a":1,"a":3}"#).unwrap().int_at("a"), Some(3));
}

#[test]
fn fields_are_looked_up_by_kind() {
    let value = Json::parse(r#"{"t":"x","i":7,"f":1.5,"n":null,"big":18446744073709551615}"#).unwrap();
    assert_eq!(value.text_at("t"), Some("x"));
    assert_eq!(value.text_at("i"), None);
    assert_eq!(value.int_at("i"), Some(7));
    assert_eq!(value.int_at("f"), None);
    assert_eq!(value.int_at("big"), None);
    assert!(value.number_at("i") && value.number_at("f") && value.number_at("big"));
    assert!(!value.number_at("t") && !value.number_at("missing"));
    assert!(value.get("missing").is_none());
    assert_eq!(value.copy_at("missing").render(), "null");
    assert_eq!(value.copy_at("f").render(), "1.5");
    assert_eq!(value.copy().render(), value.render());
    assert!(Json::Int(1).get("x").is_none());
}

#[test]
fn nesting_is_read_to_a_limit() {
    let deep = |n: usize| format!("{}{}", "[".repeat(n), "]".repeat(n));
    assert_eq!(Json::parse(&deep(127)).unwrap().render(), deep(127));
    assert!(Json::parse(&deep(128)).is_none());
}

#[test]
fn values_are_taken_apart_and_put_together() {
    let value: serde_json::Value =
        serde_json::from_str(r#"{"a":[true,-1,0.5,"s",null,{}]}"#).unwrap();
    let json = from_value(value.clone());
    assert_eq!(to_value(&json), value);
    match json.get("a").unwrap() {
        Json::Array(items) => {
            assert_eq!(items.len(), 6);
            assert!(matches!(items[0], Json::Bool(true)));
            assert!(matches!(items[1], Json::Int(-1)));
            match &items[2] {
                Json::Decimal(d) => assert_eq!(d.number().as_f64(), Some(0.5)),
                _ => panic!("a fraction"),
            }
        }
        _ => panic!("an array"),
    }
}
