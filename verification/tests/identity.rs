use stadhouder::identity::{parse_field, resolve_path, verify_user, Fetched};
use stadhouder::json::Json;

#[test]
fn reads_a_nested_field_by_dotted_path() {
    let body = r#"{"ok":true,"logged_in":true,"data":{"id":"00000000-0000-0000-0000-000000000002","email":"alice@example.com"}}"#;
    assert_eq!(
        parse_field(body, "data.id").unwrap(),
        Some("00000000-0000-0000-0000-000000000002".to_string())
    );
}

#[test]
fn reads_a_top_level_field() {
    assert_eq!(
        parse_field(r#"{"user_id":"abc"}"#, "user_id").unwrap(),
        Some("abc".to_string())
    );
}

#[test]
fn null_field_means_no_session() {
    let body = r#"{"ok":true,"logged_in":false,"data":null}"#;
    assert_eq!(parse_field(body, "data.id").unwrap(), None);
}

#[test]
fn missing_field_means_no_session() {
    assert_eq!(parse_field(r#"{"ok":true}"#, "data.id").unwrap(), None);
}

#[test]
fn empty_string_means_no_session() {
    assert_eq!(parse_field(r#"{"id":""}"#, "id").unwrap(), None);
}

#[test]
fn non_string_field_is_an_error() {
    assert!(parse_field(r#"{"data":{"id":12345}}"#, "data.id").is_err());
    assert_eq!(
        parse_field(r#"{"data":{"id":12345}}"#, "data.id").unwrap_err(),
        "field 'data.id' is not a string: 12345"
    );
    assert_eq!(
        parse_field(r#"{"id": [1, {"b": 2.50}]}"#, "id").unwrap_err(),
        r#"field 'id' is not a string: [1,{"b":2.5}]"#
    );
}

#[test]
fn a_path_through_a_non_object_is_missing_not_an_error() {
    assert_eq!(parse_field(r#"{"data":"oops"}"#, "data.id").unwrap(), None);
}

#[test]
fn non_json_body_is_an_error() {
    assert!(parse_field("<html>not json</html>", "data.id").is_err());
    assert_eq!(
        parse_field("<html>not json</html>", "data.id").unwrap_err(),
        "response is not JSON"
    );
}

#[test]
fn a_null_itself_means_no_session() {
    assert_eq!(parse_field(r#"{"id":null}"#, "id").unwrap(), None);
}

#[test]
fn a_path_is_walked_one_field_at_a_time() {
    let value = Json::parse(r#"{"a":{"b":{"c":"deep"}},"":{"x":"odd"}}"#).unwrap();
    assert_eq!(resolve_path(&value, "a.b.c").unwrap().render(), "\"deep\"");
    assert_eq!(resolve_path(&value, ".x").unwrap().render(), "\"odd\"");
    assert!(resolve_path(&value, "a.c").is_none());
    assert!(resolve_path(&value, "a.b.c.d").is_none());
}

#[test]
fn what_goes_wrong_is_said_with_the_url() {
    let url = "http://h/x";
    assert_eq!(
        verify_user(url, &Fetched::Failed("refused".to_string()), "id").unwrap_err(),
        "identity check request to http://h/x failed: refused"
    );
    assert_eq!(
        verify_user(url, &Fetched::Unreadable("cut".to_string()), "id").unwrap_err(),
        "identity check response from http://h/x unreadable: cut"
    );
    assert_eq!(
        verify_user(url, &Fetched::Body("nope".to_string()), "id").unwrap_err(),
        "identity check at http://h/x: response is not JSON"
    );
    assert_eq!(
        verify_user(url, &Fetched::Body(r#"{"id":"u"}"#.to_string()), "id").unwrap(),
        Some("u".to_string())
    );
    assert_eq!(verify_user(url, &Fetched::Body("{}".to_string()), "id").unwrap(), None);
}
