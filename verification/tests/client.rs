use stadhouder::client::{
    admission_step, bad_request, body_text, closed, connected, mint_connection_id, new_profile,
    poll_step, poll_wait_ms, polled, profile_for, sent, settle_user, status, Identity, Lookup,
    PollStep,
};
use stadhouder::config::Config;
use stadhouder::handler::{json_handler, JsonSuccess, Outcome};
use stadhouder::identity::Fetched;
use stadhouder::json::Json;
use stadhouder::layout::Platform;
use stadhouder::request::ServerEnv;
use stadhouder::state::{connection_id_from_filename, ConnectionProfile, ServiceFlag};

fn body(success: JsonSuccess<Json>) -> String {
    json_handler(Outcome::Success(success)).body
}

fn host() -> ServerEnv {
    ServerEnv {
        server_name: Some("localhost".to_string()),
        server_port: Some("8080".to_string()),
        https: None,
    }
}

fn flag() -> Option<ServiceFlag> {
    Some(ServiceFlag { updated_ms: 1, memory_pct: Json::parse("99.5").unwrap() })
}

fn config() -> Config {
    Config::default()
}

#[test]
fn a_body_must_be_utf8() {
    assert_eq!(body_text(vec![0x7b, 0x7d]).unwrap(), "{}");
    assert_eq!(body_text(vec![0xff]).unwrap_err(), "request must be UTF-8");
    assert_eq!(bad_request("missing field"), "bad request: missing field");
}

#[test]
fn status_tells_how_things_are() {
    let mut limited = config();
    limited.memory_limit_bytes = Some(1);
    limited.test_env = true;
    assert_eq!(
        body(status(&limited, "0.1.0", 77, Some(5), &flag())),
        r#"{"data":{"service":"stadhouder","service_last_run_ms":5,"service_memory_pct":99.5,"test_env":true,"time_ms":77,"version":"0.1.0"},"error":null,"ok":true}"#
    );
    assert!(body(status(&limited, "0", 1, None, &None)).contains(r#""service_memory_pct":null"#));
    assert!(body(status(&config(), "0", 1, None, &flag())).contains(r#""service_memory_pct":null"#));
    assert!(body(status(&config(), "0", 1, None, &flag())).contains(r#""service_last_run_ms":null"#));
}

#[test]
fn memory_refuses_only_where_a_limit_is_set() {
    let mut limited = config();
    limited.memory_limit_bytes = Some(1);
    assert_eq!(
        admission_step(&limited, &flag(), true, None, &host()).err().unwrap(),
        "service memory limit exceeded"
    );
    assert!(admission_step(&limited, &flag(), false, None, &host()).is_ok());
    assert!(admission_step(&limited, &None, true, None, &host()).is_ok());
    assert!(admission_step(&config(), &flag(), true, None, &host()).is_ok());
}

#[test]
fn a_required_cookie_must_be_there() {
    let mut guarded = config();
    guarded.cookie_name = Some("s".to_string());
    assert_eq!(
        admission_step(&guarded, &None, false, Some("x=1"), &host()).err().unwrap(),
        "missing required cookie"
    );
    assert_eq!(
        admission_step(&guarded, &None, false, None, &host()).err().unwrap(),
        "missing required cookie"
    );
    assert!(matches!(
        admission_step(&guarded, &None, false, Some("s=anything"), &host()),
        Ok(Identity::Claimed)
    ));
}

#[test]
fn an_endpoint_is_asked_where_one_is_configured() {
    let mut asking = config();
    asking.user_id_url = Some("/who".to_string());
    assert_eq!(
        admission_step(&asking, &None, false, None, &host()).err().unwrap(),
        "USER_ID_URL is configured but USER_ID_JSON is not"
    );
    asking.user_id_json = Some("data.id".to_string());
    match admission_step(&asking, &None, false, None, &host()) {
        Ok(Identity::Asked { url, field_path }) => {
            assert_eq!(url, "http://localhost:8080/who");
            assert_eq!(field_path, "data.id");
        }
        _ => panic!("the endpoint is to be asked"),
    }
    let nowhere = ServerEnv { server_name: None, server_port: None, https: None };
    assert_eq!(
        admission_step(&asking, &None, false, None, &nowhere).err().unwrap(),
        "SERVER_NAME env var not set"
    );
}

#[test]
fn a_verified_identity_replaces_the_claim() {
    let asked = Identity::Asked { url: "http://h/w".to_string(), field_path: "id".to_string() };
    let alice = Fetched::Body(r#"{"id":"alice"}"#.to_string());
    assert_eq!(settle_user(&asked, "mallory".to_string(), &alice).unwrap(), "alice");
    let nobody = Fetched::Body(r#"{"id":null}"#.to_string());
    assert_eq!(settle_user(&asked, "mallory".to_string(), &nobody).unwrap_err(), "not signed in");
    let down = Fetched::Failed("refused".to_string());
    assert_eq!(
        settle_user(&asked, "mallory".to_string(), &down).unwrap_err(),
        "identity check request to http://h/w failed: refused"
    );
    assert_eq!(settle_user(&Identity::Claimed, "bob".to_string(), &down).unwrap(), "bob");
}

#[test]
fn a_minted_id_is_a_random_uuid() {
    let id = mint_connection_id();
    assert_eq!(id.len(), 36);
    for (i, c) in id.chars().enumerate() {
        match i {
            8 | 13 | 18 | 23 => assert_eq!(c, '-'),
            14 => assert_eq!(c, '4'),
            19 => assert!("89ab".contains(c)),
            _ => assert!(c.is_ascii_digit() || ('a'..='f').contains(&c)),
        }
    }
    assert_ne!(id, mint_connection_id());
    let path = ConnectionProfile::path_in(Platform::Unix, "", &id);
    assert_eq!(connection_id_from_filename(&path), Some(id));
}

#[test]
fn a_new_profile_records_who_where_and_when() {
    let p = new_profile(Platform::Unix, "/d", "a-b", "u".to_string(), 5, false, 9);
    assert_eq!(p.connection_id, "a-b");
    assert_eq!(p.user_id, "u");
    assert_eq!(p.client_to_server_pipe, "/d/pipes/c2s_a_b");
    assert_eq!(p.server_to_client_pipe, "/d/pipes/s2c_a_b");
    assert_eq!(p.established_ms, 5);
    assert_eq!(p.established_sim_ms, None);
    let p = new_profile(Platform::Windows, "/d", "a-b", "u".to_string(), 5, true, 9);
    assert_eq!(p.server_to_client_pipe, r"\\.\pipe\stadhouder\s2c_a_b");
    assert_eq!(p.established_sim_ms, Some(9));
    assert!(body(connected("a-b")).contains(r#""data":{"connection_id":"a-b"}"#));
}

#[test]
fn a_connection_that_is_not_there_is_unknown() {
    assert_eq!(
        profile_for(Platform::Unix, "/s", "a", Lookup::Missing).err().unwrap(),
        "unknown connection"
    );
    assert_eq!(
        profile_for(Platform::Unix, "/s", "a-b", Lookup::Unreadable("no".to_string())).err().unwrap(),
        "failed to read /s/connection_a_b.json: no"
    );
    assert_eq!(
        profile_for(Platform::Unix, "/s", "a-b", Lookup::Malformed("eof".to_string())).err().unwrap(),
        "failed to parse /s/connection_a_b.json: eof"
    );
    let p = new_profile(Platform::Unix, "/d", "a", "u".to_string(), 5, false, 9);
    assert_eq!(profile_for(Platform::Unix, "/s", "a", Lookup::Found(p)).unwrap().user_id, "u");
    assert_eq!(closed(false).err().unwrap(), "unknown connection");
    assert!(body(closed(true).unwrap()).contains(r#""data":{"closed":true}"#));
    assert!(body(sent()).contains(r#""data":{"sent":true}"#));
}

#[test]
fn a_poll_goes_on_until_something_comes_or_the_time_is_over() {
    assert_eq!(poll_wait_ms(-5), 0);
    assert_eq!(poll_wait_ms(30_000), 30_000);
    assert!(matches!(poll_step("[]", false), Ok(PollStep::Wait)));
    assert!(matches!(poll_step("[]", true), Ok(PollStep::GiveUp)));
    assert!(matches!(poll_step("{\"a\":1}", false), Ok(PollStep::Wait)));
    assert_eq!(poll_step("oops", false).err().unwrap(), "service reply is not JSON");
    match poll_step("[1,{\"b\":2}]", true) {
        Ok(PollStep::Deliver(messages)) => {
            assert!(body(polled(Some(messages))).contains(r#""data":{"messages":[1,{"b":2}]}"#));
        }
        _ => panic!("there are messages"),
    }
    assert!(body(polled(None)).contains(r#""data":{"messages":[]}"#));
}
