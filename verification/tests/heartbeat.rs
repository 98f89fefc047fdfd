use stadhouder::heartbeat::{is_heartbeat, message};
use stadhouder::json::Json;

#[test]
fn message_is_recognized_as_heartbeat() {
    assert!(is_heartbeat(&message()));
}

#[test]
fn ordinary_message_is_not_a_heartbeat() {
    assert!(!is_heartbeat(&Json::empty().with("cmd", Json::Text("get".to_string()))));
}

#[test]
fn message_missing_the_key_is_not_a_heartbeat() {
    assert!(!is_heartbeat(&Json::empty()));
}

#[test]
fn only_the_key_makes_a_heartbeat() {
    assert_eq!(message().render(), r#"{"stadhouder_heartbeat":true}"#);
    assert!(is_heartbeat(&Json::parse(r#"{"stadhouder_heartbeat":null,"x":1}"#).unwrap()));
    assert!(!is_heartbeat(&Json::parse(r#"["stadhouder_heartbeat"]"#).unwrap()));
    assert!(!is_heartbeat(&Json::parse(r#""stadhouder_heartbeat""#).unwrap()));
}
