use stadhouder::engine::{
    CloseReason, ClosedConnection, EngineOutput, ExpiredTimer, InboundMessage, NewConnection,
    StadhouderStateEngine,
};
use stadhouder::json::Json;
use stadhouder::test_app::TestEngine;

fn new(id: &str, user: &str) -> NewConnection {
    NewConnection { connection_id: id.to_string(), user_id: user.to_string() }
}

fn says(id: &str, text: &str) -> InboundMessage {
    InboundMessage { connection_id: id.to_string(), message: Json::parse(text).unwrap() }
}

fn call(
    engine: &mut TestEngine,
    new_connections: &[NewConnection],
    closed: &[ClosedConnection],
    messages: &[InboundMessage],
    timers: &[ExpiredTimer],
) -> EngineOutput {
    engine.process_messages(1_000, &Json::Int(0), new_connections, closed, messages, timers)
}

fn sent(output: &EngineOutput) -> Vec<String> {
    output
        .messages
        .iter()
        .map(|m| format!("{} {}", m.connection_id, m.message.render()))
        .collect()
}

#[test]
fn the_counter_is_shared_and_survives() {
    let mut engine = TestEngine::new();
    let output = call(&mut engine, &[new("a", "alice"), new("b", "bob")], &[], &[], &[]);
    assert_eq!(sent(&output), vec![r#"a {"hello":"alice"}"#, r#"b {"hello":"bob"}"#]);
    let output = call(
        &mut engine,
        &[],
        &[],
        &[says("a", r#"{"cmd":"add","n":5}"#), says("b", r#"{"cmd":"add"}"#)],
        &[],
    );
    assert_eq!(sent(&output), vec![r#"a {"counter":5}"#, r#"b {"counter":5}"#]);
    let output = call(&mut engine, &[], &[], &[says("b", r#"{"cmd":"get"}"#)], &[]);
    assert_eq!(sent(&output), vec![r#"b {"counter":5}"#]);
    assert_eq!(engine.counter, 5);
}

#[test]
fn the_counter_wraps_around() {
    let mut engine = TestEngine::new();
    engine.counter = i64::MAX;
    let output = call(&mut engine, &[], &[], &[says("a", r#"{"cmd":"add","n":1}"#)], &[]);
    assert_eq!(sent(&output), vec![r#"a {"counter":-9223372036854775808}"#]);
}

#[test]
fn a_broadcast_reaches_everybody() {
    let mut engine = TestEngine::new();
    call(&mut engine, &[new("a", "x"), new("b", "y")], &[], &[], &[]);
    let output =
        call(&mut engine, &[], &[], &[says("a", r#"{"cmd":"broadcast","text":[1,"z"]}"#)], &[]);
    assert_eq!(sent(&output), vec![r#"a {"broadcast":[1,"z"]}"#, r#"b {"broadcast":[1,"z"]}"#]);
}

#[test]
fn those_who_stay_are_told_of_those_who_go() {
    let mut engine = TestEngine::new();
    call(&mut engine, &[new("a", "x"), new("b", "y"), new("c", "z")], &[], &[], &[]);
    let closed = [ClosedConnection {
        connection_id: "b".to_string(),
        reason: CloseReason::ServerIdleTimeout,
    }];
    let output = call(&mut engine, &[], &closed, &[], &[]);
    let notice = r#"{"connection_closed":{"connection_id":"b","reason":"server_idle_timeout"}}"#;
    assert_eq!(sent(&output), vec![format!("a {notice}"), format!("c {notice}")]);
    assert_eq!(engine.roster, vec!["a", "c"]);
}

#[test]
fn a_timer_is_set_cancelled_and_told_of() {
    let mut engine = TestEngine::new();
    let output = call(
        &mut engine,
        &[],
        &[],
        &[
            says("a", r#"{"cmd":"set_timer","delay_ms":500,"tag":"t"}"#),
            says("a", r#"{"cmd":"cancel_timer","tag":"t"}"#),
            says("a", r#"{"cmd":"set_timer"}"#),
        ],
        &[],
    );
    assert_eq!(
        sent(&output),
        vec![
            r#"a {"timer_set":true}"#,
            r#"a {"timer_cancelled":"t"}"#,
            r#"a {"timer_set":true}"#,
        ]
    );
    assert_eq!(output.timers[0].timer_id, "a:t");
    assert_eq!(output.timers[0].expiry_ms, 1_500);
    assert_eq!(output.timers[0].payload.render(), r#"{"connection_id":"a","tag":"t"}"#);
    assert_eq!(output.cancel_timers, vec!["a:t"]);
    assert_eq!(output.timers[1].timer_id, "a:null");
    assert_eq!(output.timers[1].expiry_ms, 1_000);

    let fired = [
        ExpiredTimer {
            timer_id: "whatever".to_string(),
            expiry_ms: 1_500,
            payload: Json::parse(r#"{"connection_id":"a","tag":"t"}"#).unwrap(),
        },
        ExpiredTimer { timer_id: "stray".to_string(), expiry_ms: 1, payload: Json::Null },
    ];
    let output = call(&mut engine, &[], &[], &[], &fired);
    assert_eq!(sent(&output), vec![r#"a {"expiry_ms":1500,"timer_fired":"t"}"#]);
}

#[test]
fn closing_and_ending_are_orders_to_the_service() {
    let mut engine = TestEngine::new();
    call(&mut engine, &[new("a", "x"), new("b", "y")], &[], &[], &[]);
    let output = call(&mut engine, &[], &[], &[says("a", r#"{"cmd":"close_me"}"#)], &[]);
    assert_eq!(sent(&output), vec![r#"a {"goodbye":true}"#]);
    assert_eq!(output.close_connections, vec!["a"]);
    assert!(!output.shutdown);
    assert_eq!(engine.roster, vec!["b"]);
    let output = call(&mut engine, &[], &[], &[says("b", r#"{"cmd":"shutdown"}"#)], &[]);
    assert_eq!(sent(&output), vec![r#"b {"bye":true}"#]);
    assert!(output.shutdown);
}

#[test]
fn an_unknown_command_is_an_error() {
    let mut engine = TestEngine::new();
    let output = call(
        &mut engine,
        &[],
        &[],
        &[says("a", r#"{"cmd":"dance"}"#), says("a", r#"{"cmd":7}"#), says("a", "[]")],
        &[],
    );
    assert_eq!(
        sent(&output),
        vec![
            r#"a {"error":"unknown command 'dance'"}"#,
            r#"a {"error":"unknown command ''"}"#,
            r#"a {"error":"unknown command ''"}"#,
        ]
    );
}
