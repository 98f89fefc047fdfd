use stadhouder::handler::{json_handler, JsonSuccess, Outcome};
use stadhouder::json::Json;

#[test]
fn success_is_wrapped_in_the_envelope() {
    let reply = json_handler(Outcome::Success(JsonSuccess::new(Json::Int(3))));
    assert_eq!(reply.status, 200);
    assert_eq!(reply.content_type, "application/json");
    assert_eq!(reply.set_cookie, None);
    assert_eq!(reply.body, r#"{"data":3,"error":null,"ok":true}"#);
}

#[test]
fn a_cookie_goes_with_success_only() {
    let success = JsonSuccess::with_cookie(Json::Null, "s=1; Path=/".to_string());
    assert_eq!(
        json_handler(Outcome::Success(success)).set_cookie.as_deref(),
        Some("s=1; Path=/")
    );
    assert_eq!(json_handler(Outcome::Failure("no".to_string())).set_cookie, None);
}

#[test]
fn failure_and_panic_are_answered_too() {
    let reply = json_handler(Outcome::Failure("say \"no\"".to_string()));
    assert_eq!(reply.status, 200);
    assert_eq!(reply.body, r#"{"data":null,"error":"say \"no\"","ok":false}"#);
    assert_eq!(
        json_handler(Outcome::Panicked(Some("boom".to_string()))).body,
        r#"{"data":null,"error":"panic: boom","ok":false}"#
    );
    assert_eq!(
        json_handler(Outcome::Panicked(None)).body,
        r#"{"data":null,"error":"panic: unknown panic","ok":false}"#
    );
}
