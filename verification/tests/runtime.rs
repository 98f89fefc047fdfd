use stadhouder::engine::{
    CloseReason, ClosedConnection, EngineOutput, ExpiredTimer, InboundMessage, NewConnection,
    OutboundMessage, StadhouderStateEngine, TimerRequest,
};
use stadhouder::heartbeat;
use stadhouder::json::Json;
use stadhouder::layout::Platform;
use stadhouder::runtime::{consult, Batch, Ending, Service};
use stadhouder::state::{
    connection_id_from_filename, read_service_flag, write_service_flag, ConnectionProfile,
    ServiceFlag, StateFile,
};

fn json(text: &str) -> Json {
    Json::parse(text).unwrap()
}

fn profile(connection_id: &str, user_id: &str) -> ConnectionProfile {
    ConnectionProfile {
        connection_id: connection_id.to_string(),
        user_id: user_id.to_string(),
        client_to_server_pipe: format!("/c2s/{connection_id}"),
        server_to_client_pipe: format!("/s2c/{connection_id}"),
        established_ms: 0,
        established_sim_ms: None,
    }
}

fn file_name(connection_id: &str) -> String {
    let path = ConnectionProfile::path_in(Platform::Unix, "", connection_id);
    path.to_string()
}

/// The service with everything around it played: files, frames and the clock.
struct Stage<E: StadhouderStateEngine> {
    service: Option<Service>,
    engine: E,
    /// The profiles on disk, each with its user.
    disk: Vec<(String, String)>,
    /// Frames on their way to the service.
    frames: Vec<(String, String)>,
    /// Clients that wait.
    polls: Vec<String>,
    /// What waiting clients were given.
    answers: Vec<(String, String)>,
    /// What connections were given when the engine closed them.
    farewells: Vec<(String, Option<String>)>,
    ended: Option<&'static str>,
    flag_refreshes: usize,
}

impl<E: StadhouderStateEngine> Stage<E> {
    fn new(started_ms: i64, mut engine: E) -> Stage<E> {
        Stage {
            service: Some(Service::start(started_ms, &None).unwrap().go_live(&mut engine)),
            engine,
            disk: Vec::new(),
            frames: Vec::new(),
            polls: Vec::new(),
            answers: Vec::new(),
            farewells: Vec::new(),
            ended: None,
            flag_refreshes: 0,
        }
    }

    fn connect(&mut self, id: &str, user: &str) {
        self.disk.push((id.to_string(), user.to_string()));
    }

    fn send(&mut self, id: &str, frame: &str) {
        self.frames.push((id.to_string(), frame.to_string()));
    }

    fn turn(&mut self, now_ms: i64) {
        let mut service = self.service.take().unwrap();
        let turn = service.begin_tick(now_ms);
        if turn.refresh_flag {
            self.flag_refreshes += 1;
        }
        let mut batch: Batch = turn.batch;
        if turn.scan {
            let names: Vec<String> = self.disk.iter().map(|(id, _)| file_name(id)).collect();
            for found in service.profiles_to_load(&names) {
                let user = self
                    .disk
                    .iter()
                    .find(|(id, _)| *id == found.connection_id)
                    .map(|(_, user)| user.clone())
                    .unwrap();
                let profile = profile(&found.connection_id, &user);
                assert!(service.welcome(&mut batch, &found.connection_id, &profile));
            }
            service.sweep(&mut batch, &names);
        }
        for id in service.connection_ids() {
            let (here, elsewhere): (Vec<_>, Vec<_>) =
                self.frames.drain(..).partition(|(to, _)| *to == id);
            self.frames = elsewhere;
            let frames: Vec<String> = here.into_iter().map(|(_, frame)| frame).collect();
            service.receive(&mut batch, &id, &frames);
        }
        for gone in service.disconnect_idle(&mut batch) {
            self.disk.retain(|(id, _)| *id != gone.connection_id);
        }
        let consultation = service.run_engine(&mut self.engine, &Json::Int(0), batch);
        for farewell in consultation.farewells {
            self.disk.retain(|(id, _)| *id != farewell.connection_id);
            self.farewells.push((farewell.connection_id, farewell.last_words));
        }
        for id in std::mem::take(&mut self.polls) {
            if let Some(answer) = service.serve_poll(&id, now_ms) {
                self.answers.push((id, answer));
            }
        }
        match service.finish(&mut self.engine, now_ms, consultation.shutdown) {
            Ending::Running(service) => self.service = Some(service),
            Ending::Ordered { departures, .. } => {
                for gone in departures {
                    self.disk.retain(|(id, _)| *id != gone.connection_id);
                }
                self.ended = Some("ordered");
            }
            Ending::Deserted { .. } => self.ended = Some("deserted"),
        }
    }
}

/// Greets, echoes, and shuts down on request.
struct EchoEngine;

impl StadhouderStateEngine for EchoEngine {
    fn process_messages(
        &mut self,
        _timestamp_ms: i64,
        _memory_pct: &Json,
        new_connections: &[NewConnection],
        _closed_connections: &[ClosedConnection],
        messages: &[InboundMessage],
        _expired_timers: &[ExpiredTimer],
    ) -> EngineOutput {
        let mut output = EngineOutput::default();
        for connection in new_connections {
            output.messages.push(OutboundMessage {
                connection_id: connection.connection_id.clone(),
                message: Json::empty().with("hello", Json::Text(connection.user_id.clone())),
            });
        }
        for message in messages {
            if message.message.text_at("cmd") == Some("shutdown") {
                output.shutdown = true;
            } else {
                output.messages.push(OutboundMessage {
                    connection_id: message.connection_id.clone(),
                    message: Json::empty().with("echo", message.message.copy()),
                });
            }
        }
        output
    }
}

/// Writes down what it is told, and does as messages say.
#[derive(Default)]
struct RecordingEngine {
    calls: usize,
    close_log: Vec<(String, CloseReason)>,
    new_log: Vec<String>,
    message_log: Vec<String>,
    init_calls: Vec<i64>,
    shutdown_calls: Vec<i64>,
    fired_timers: Vec<String>,
}

impl StadhouderStateEngine for RecordingEngine {
    fn init(&mut self, timestamp_ms: i64) {
        self.init_calls.push(timestamp_ms);
    }

    fn process_messages(
        &mut self,
        timestamp_ms: i64,
        _memory_pct: &Json,
        new_connections: &[NewConnection],
        closed_connections: &[ClosedConnection],
        messages: &[InboundMessage],
        expired_timers: &[ExpiredTimer],
    ) -> EngineOutput {
        self.calls += 1;
        for new in new_connections {
            self.new_log.push(format!("{}={}", new.connection_id, new.user_id));
        }
        for closed in closed_connections {
            self.close_log.push((closed.connection_id.clone(), closed.reason));
        }
        for timer in expired_timers {
            self.fired_timers.push(timer.timer_id.clone());
        }
        let mut output = EngineOutput::default();
        for message in messages {
            self.message_log.push(message.message.render());
            match message.message.text_at("cmd").unwrap_or("") {
                "close_me" => {
                    output.messages.push(OutboundMessage {
                        connection_id: message.connection_id.clone(),
                        message: Json::Text("bye".to_string()),
                    });
                    output.close_connections.push(message.connection_id.clone());
                    output.close_connections.push(message.connection_id.clone());
                    output.close_connections.push("nobody".to_string());
                }
                "shutdown" => output.shutdown = true,
                "set_timer" => {
                    let delay_ms = message.message.int_at("delay_ms").unwrap_or(0);
                    output.timers.push(TimerRequest {
                        timer_id: message.message.text_at("timer_id").unwrap_or("").to_string(),
                        expiry_ms: timestamp_ms + delay_ms,
                        payload: Json::Null,
                    });
                }
                "cancel_timer" => output
                    .cancel_timers
                    .push(message.message.text_at("timer_id").unwrap_or("").to_string()),
                _ => {}
            }
        }
        output
    }

    fn shutdown(&mut self, timestamp_ms: i64) {
        self.shutdown_calls.push(timestamp_ms);
    }
}

fn flag(updated_ms: i64) -> Option<ServiceFlag> {
    Some(ServiceFlag { updated_ms, memory_pct: Json::Int(0) })
}

/// A service that has gone live.
fn live(started_ms: i64) -> Service {
    Service::start(started_ms, &None).unwrap().go_live(&mut EchoEngine)
}

#[test]
fn defers_to_a_live_instance() {
    let flag_ms = 1_700_000_000_000;
    let text = write_service_flag(flag_ms, &json("0.0"));
    let found = read_service_flag(Platform::Unix, "/s", &StateFile::Contents(text)).unwrap();
    assert_eq!(found.as_ref().map(|f| f.updated_ms), Some(flag_ms));
    assert!(Service::start(flag_ms, &found).is_none());
    assert!(Service::start(flag_ms + 119_999, &found).is_none());
    assert!(Service::start(flag_ms + 120_000, &found).is_some());
}

#[test]
fn a_flag_from_the_future_shows_nothing() {
    assert!(Service::start(999, &flag(1000)).is_some());
    assert!(Service::start(i64::MIN, &flag(i64::MAX)).is_some());
    assert!(Service::start(i64::MAX, &flag(i64::MIN)).is_some());
    assert!(Service::start(5, &None).is_some());
}

#[test]
fn full_connection_lifecycle() {
    let id = "00000000-0000-4000-8000-000000000042";
    let mut stage = Stage::new(0, EchoEngine);
    stage.connect(id, "alice");
    stage.polls.push(id.to_string());
    stage.turn(0);
    assert_eq!(stage.answers.len(), 1);
    assert!(stage.answers[0].1.contains(r#""hello":"alice""#));

    stage.send(id, r#"{"cmd":"hi"}"#);
    stage.polls.push(id.to_string());
    stage.turn(250);
    assert_eq!(stage.answers[1].1, r#"[{"echo":{"cmd":"hi"}}]"#);

    stage.send(id, r#"{"cmd":"shutdown"}"#);
    stage.turn(500);
    assert_eq!(stage.ended, Some("ordered"));
    assert!(stage.disk.is_empty());
}

#[test]
fn engine_requested_close_is_reported_next_call() {
    let control = "30000000-0000-4000-8000-000000000002";
    let subject = "30000000-0000-4000-8000-000000000001";
    let mut stage = Stage::new(0, RecordingEngine::default());
    stage.connect(control, "control");
    stage.connect(subject, "subject");
    stage.turn(0);
    stage.send(subject, r#"{"cmd":"close_me"}"#);
    stage.turn(250);
    // Done at once, with the message of the same batch, but not reported yet.
    assert!(stage.disk.iter().all(|(id, _)| id != subject));
    assert_eq!(stage.farewells, vec![(subject.to_string(), Some("[\"bye\"]".to_string()))]);
    assert!(stage.engine.close_log.is_empty());
    stage.turn(500);
    assert_eq!(
        stage.engine.close_log,
        vec![(subject.to_string(), CloseReason::EngineRequested)]
    );
    stage.turn(750);
    stage.turn(5_000);
    assert_eq!(stage.engine.close_log.len(), 1);
    stage.send(control, r#"{"cmd":"shutdown"}"#);
    stage.turn(5_250);
    assert_eq!(stage.ended, Some("ordered"));
    assert!(stage.engine.shutdown_calls.is_empty());
}

#[test]
fn client_disconnected_close_is_reported() {
    let control = "40000000-0000-4000-8000-000000000002";
    let subject = "40000000-0000-4000-8000-000000000001";
    let mut stage = Stage::new(0, RecordingEngine::default());
    stage.connect(control, "control");
    stage.connect(subject, "subject");
    stage.turn(0);
    stage.send(subject, r#"{"cmd":"noop"}"#);
    stage.turn(250);
    stage.disk.retain(|(id, _)| id != subject);
    stage.turn(3_999);
    assert!(stage.engine.close_log.is_empty());
    stage.turn(4_000);
    assert_eq!(
        stage.engine.close_log,
        vec![(subject.to_string(), CloseReason::ClientDisconnected)]
    );
    assert_eq!(stage.service.as_ref().unwrap().connection_ids(), vec![control.to_string()]);
}

#[test]
fn init_and_shutdown_hooks_fire_once_each() {
    let mut stage = Stage::new(1_000, RecordingEngine::default());
    let mut now = 1_000;
    while stage.ended.is_none() {
        stage.turn(now);
        now += 250;
    }
    assert_eq!(stage.ended, Some("deserted"));
    assert_eq!(stage.engine.init_calls, vec![1_000]);
    assert_eq!(stage.engine.shutdown_calls, vec![57_000]);
    assert!(stage.engine.init_calls[0] <= stage.engine.shutdown_calls[0]);
    assert_eq!(stage.engine.calls, 0);
}

#[test]
fn cancelled_timer_never_fires() {
    let id = "50000000-0000-4000-8000-000000000001";
    let mut stage = Stage::new(0, RecordingEngine::default());
    stage.connect(id, "control");
    stage.turn(0);
    stage.send(id, r#"{"cmd":"set_timer","timer_id":"t1","delay_ms":600}"#);
    stage.turn(250);
    stage.send(id, r#"{"cmd":"cancel_timer","timer_id":"t1"}"#);
    stage.turn(500);
    for now in [750, 850, 1_000, 1_500] {
        stage.turn(now);
    }
    assert!(!stage.engine.fired_timers.contains(&"t1".to_string()));
}

#[test]
fn a_timer_that_is_left_alone_fires_once() {
    let id = "50000000-0000-4000-8000-000000000002";
    let mut stage = Stage::new(0, RecordingEngine::default());
    stage.connect(id, "control");
    stage.turn(0);
    stage.send(id, r#"{"cmd":"set_timer","timer_id":"late","delay_ms":600}"#);
    stage.send(id, r#"{"cmd":"set_timer","timer_id":"soon","delay_ms":100}"#);
    stage.send(id, r#"{"cmd":"set_timer","timer_id":"late too","delay_ms":600}"#);
    stage.turn(250);
    stage.turn(849);
    assert_eq!(stage.engine.fired_timers, vec!["soon"]);
    stage.turn(1_000);
    stage.turn(2_000);
    assert_eq!(stage.engine.fired_timers, vec!["soon", "late", "late too"]);
}

#[test]
fn heartbeats_refresh_a_connection_and_never_reach_the_engine() {
    let id = "a-b";
    let mut stage = Stage::new(0, RecordingEngine::default());
    stage.connect(id, "u");
    stage.turn(0);
    stage.send(id, &heartbeat::message().render());
    stage.send(id, "not json");
    stage.send(id, r#"{"cmd":"hi"}"#);
    stage.turn(100_000);
    assert_eq!(stage.engine.message_log, vec![r#"{"cmd":"hi"}"#]);
    let calls = stage.engine.calls;
    stage.send(id, &heartbeat::message().render());
    stage.turn(219_999);
    assert_eq!(stage.engine.calls, calls);
    stage.turn(339_998);
    assert!(stage.engine.close_log.is_empty());
    stage.turn(339_999);
    assert_eq!(
        stage.engine.close_log,
        vec![(id.to_string(), CloseReason::ServerIdleTimeout)]
    );
    assert!(stage.disk.is_empty());
}

#[test]
fn a_served_poll_keeps_a_connection() {
    let id = "a-b";
    let mut stage = Stage::new(0, RecordingEngine::default());
    stage.connect(id, "u");
    stage.turn(0);
    stage.polls.push(id.to_string());
    stage.turn(119_999);
    assert_eq!(stage.answers, vec![(id.to_string(), "[]".to_string())]);
    stage.turn(239_998);
    assert!(stage.engine.close_log.is_empty());
    stage.turn(239_999);
    assert_eq!(stage.engine.close_log.len(), 1);
}

#[test]
fn the_flag_is_refreshed_every_twenty_seconds() {
    let mut stage = Stage::new(0, RecordingEngine::default());
    stage.connect("a", "u");
    for now in [0, 19_999, 20_000, 20_250, 39_999, 40_000] {
        stage.turn(now);
    }
    assert_eq!(stage.flag_refreshes, 2);
}

#[test]
fn time_that_jumps_back_stops_nothing() {
    let mut stage = Stage::new(1_000_000, RecordingEngine::default());
    stage.connect("a", "u");
    stage.turn(1_000_000);
    assert_eq!(stage.engine.new_log, vec!["a=u"]);
    // An hour back: the next scan is due at once, and silence counts anew.
    stage.connect("b", "v");
    stage.turn(-2_600_000);
    assert_eq!(stage.engine.new_log, vec!["a=u", "b=v"]);
    stage.turn(-2_600_000 + 20_000);
    assert_eq!(stage.flag_refreshes, 1);
    stage.turn(-2_600_000 + 119_999);
    assert!(stage.engine.close_log.is_empty());
    stage.turn(-2_600_000 + 120_000);
    assert_eq!(stage.engine.close_log.len(), 2);
}

#[test]
fn scans_are_four_seconds_apart() {
    let mut service = live(10_000);
    assert!(service.begin_tick(10_000).scan);
    assert!(!service.begin_tick(13_999).scan);
    assert!(service.begin_tick(14_000).scan);
    assert!(!service.begin_tick(17_999).scan);
    assert!(!service.begin_tick(14_000).scan);
    // Back before the last scan: one is due at once.
    assert!(service.begin_tick(13_999).scan);
}

#[test]
fn a_profile_is_loaded_once_under_the_id_of_its_file() {
    let mut service = live(0);
    let mut batch = service.begin_tick(0).batch;
    let names: Vec<String> = ["connection_a_b.json", "other", "connection_a-b.json", "connection_c.json"]
        .iter()
        .map(|s| s.to_string())
        .collect();
    let found = service.profiles_to_load(&names);
    let ids: Vec<(String, String)> =
        found.into_iter().map(|f| (f.connection_id, f.name)).collect();
    assert_eq!(
        ids,
        vec![
            ("a-b".to_string(), "connection_a-b.json".to_string()),
            ("c".to_string(), "connection_c.json".to_string()),
        ]
    );
    assert!(service.welcome(&mut batch, "a-b", &profile("whatever", "u")));
    assert!(!service.welcome(&mut batch, "a-b", &profile("whatever", "v")));
    assert_eq!(batch.new_connections.len(), 1);
    let left = service.profiles_to_load(&names);
    assert_eq!(left.len(), 1);
    assert_eq!(left[0].connection_id, "c");
    let gone = service.sweep(&mut batch, &names[3..]);
    assert_eq!(gone.len(), 1);
    assert_eq!(gone[0].pipe_names.client_to_server, "/c2s/whatever");
    assert_eq!(connection_id_from_filename(&names[0]).as_deref(), Some("a-b"));
}

#[test]
fn messages_wait_in_order_and_are_delivered_once() {
    let mut service = live(0);
    let mut batch = service.begin_tick(0).batch;
    service.welcome(&mut batch, "a", &profile("a", "u"));
    service.welcome(&mut batch, "b", &profile("b", "v"));
    let mut output = EngineOutput::default();
    for (to, text) in [("a", "1"), ("b", "\"x\""), ("nobody", "0"), ("a", "[2.5]"), ("a", "null")] {
        output.messages.push(OutboundMessage {
            connection_id: to.to_string(),
            message: json(text),
        });
    }
    assert!(service.apply(output).is_empty());
    assert_eq!(service.serve_poll("a", 1).unwrap(), "[1,[2.5],null]");
    assert_eq!(service.serve_poll("a", 2).unwrap(), "[]");
    assert_eq!(service.serve_poll("b", 2).unwrap(), "[\"x\"]");
    assert!(service.serve_poll("nobody", 2).is_none());
}

#[test]
fn a_close_without_anything_queued_has_no_last_words() {
    let mut service = live(0);
    let mut batch = service.begin_tick(0).batch;
    service.welcome(&mut batch, "a", &profile("a", "u"));
    let mut output = EngineOutput::default();
    output.close_connections.push("a".to_string());
    let farewells = service.apply(output);
    assert_eq!(farewells.len(), 1);
    assert_eq!(farewells[0].connection_id, "a");
    assert_eq!(farewells[0].pipe_names.server_to_client, "/s2c/a");
    assert!(farewells[0].last_words.is_none());
    assert!(service.connection_ids().is_empty());
}

#[test]
fn what_comes_from_nowhere_is_dropped() {
    let mut service = live(0);
    let mut batch = service.begin_tick(0).batch;
    service.receive(&mut batch, "ghost", &["{}".to_string()]);
    assert!(batch.messages.is_empty());
    assert!(batch.is_uneventful());
}

#[test]
fn the_engine_is_called_only_when_something_has_happened() {
    let mut service = live(0);
    let mut engine = RecordingEngine::default();
    let batch = service.begin_tick(0).batch;
    assert!(consult(&mut engine, &Json::Int(0), &batch).is_none());
    assert_eq!(engine.calls, 0);
    let mut batch = service.begin_tick(1).batch;
    service.welcome(&mut batch, "a", &profile("a", "u"));
    assert!(consult(&mut engine, &Json::Int(0), &batch).is_some());
    assert_eq!(engine.calls, 1);
}

#[test]
fn a_service_with_connections_stays() {
    let mut engine = RecordingEngine::default();
    let mut service = live(0);
    let mut batch = service.begin_tick(0).batch;
    service.welcome(&mut batch, "a", &profile("a", "u"));
    let service = match service.finish(&mut engine, 56_000, false) {
        Ending::Running(service) => service,
        _ => panic!("it has a connection"),
    };
    match service.finish(&mut engine, 56_000, true) {
        Ending::Ordered { departures, .. } => {
            assert_eq!(departures.len(), 1);
            assert_eq!(departures[0].connection_id, "a");
        }
        _ => panic!("the end was ordered"),
    }
    assert!(engine.shutdown_calls.is_empty());
    let idle = live(0);
    assert!(matches!(idle.finish(&mut engine, 55_999, false), Ending::Running(_)));
    let idle = live(0);
    assert!(matches!(idle.finish(&mut engine, 56_000, false), Ending::Deserted { .. }));
    assert_eq!(engine.shutdown_calls, vec![56_000]);
}

#[test]
fn cancelling_and_setting_in_one_breath_replaces_a_timer() {
    let mut service = live(0);
    let mut first = EngineOutput::default();
    for (id, at) in [("t", 10), ("other", 20)] {
        first.timers.push(TimerRequest {
            timer_id: id.to_string(),
            expiry_ms: at,
            payload: json("\"old\""),
        });
    }
    service.apply(first);
    let mut second = EngineOutput::default();
    second.cancel_timers.push("t".to_string());
    second.cancel_timers.push("unknown".to_string());
    second.timers.push(TimerRequest {
        timer_id: "t".to_string(),
        expiry_ms: 20,
        payload: json("\"new\""),
    });
    service.apply(second);
    let mut batch = service.begin_tick(15).batch;
    service.expire_timers(&mut batch);
    assert!(batch.expired_timers.is_empty());
    let mut batch = service.begin_tick(20).batch;
    service.expire_timers(&mut batch);
    let fired: Vec<(String, String)> = batch
        .expired_timers
        .iter()
        .map(|t| (t.timer_id.clone(), t.payload.render()))
        .collect();
    assert_eq!(
        fired,
        vec![
            ("other".to_string(), "\"old\"".to_string()),
            ("t".to_string(), "\"new\"".to_string()),
        ]
    );
}

#[test]
fn whatever_ends_in_one_turn_is_reported() {
    let mut stage = Stage::new(0, RecordingEngine::default());
    for id in ["stays", "leaves", "sleeps", "asks"] {
        stage.connect(id, id);
    }
    stage.turn(0);
    for id in ["stays", "leaves", "asks"] {
        stage.send(id, "{}");
    }
    stage.turn(119_000);
    stage.disk.retain(|(id, _)| id != "leaves");
    stage.connect("comes", "comes");
    stage.send("asks", r#"{"cmd":"close_me"}"#);
    stage.turn(123_000);
    assert_eq!(
        stage.engine.close_log,
        vec![
            ("leaves".to_string(), CloseReason::ClientDisconnected),
            ("sleeps".to_string(), CloseReason::ServerIdleTimeout),
        ]
    );
    let served = stage.service.as_ref().unwrap().connection_ids();
    assert_eq!(served, vec!["stays".to_string(), "comes".to_string()]);
    stage.turn(123_250);
    assert_eq!(
        stage.engine.close_log[2..],
        [("asks".to_string(), CloseReason::EngineRequested)]
    );
}

#[test]
fn the_engine_part_of_a_turn_is_one_step() {
    let mut service = live(0);
    let mut engine = RecordingEngine::default();
    let mut batch = service.begin_tick(0).batch;
    service.welcome(&mut batch, "a", &profile("a", "u"));
    let wish = r#"{"cmd":"set_timer","timer_id":"t","delay_ms":10}"#.to_string();
    service.receive(&mut batch, "a", &[wish]);
    let first = service.run_engine(&mut engine, &Json::Int(0), batch);
    assert!(first.farewells.is_empty() && !first.shutdown);
    let batch = service.begin_tick(9).batch;
    service.run_engine(&mut engine, &Json::Int(0), batch);
    assert_eq!(engine.calls, 1);
    let mut batch = service.begin_tick(10).batch;
    service.receive(&mut batch, "a", &[r#"{"cmd":"close_me"}"#.to_string()]);
    service.receive(&mut batch, "a", &[r#"{"cmd":"shutdown"}"#.to_string()]);
    let last = service.run_engine(&mut engine, &Json::Int(0), batch);
    assert_eq!(engine.fired_timers, vec!["t".to_string()]);
    assert!(last.shutdown);
    assert_eq!(last.farewells.len(), 1);
    assert_eq!(last.farewells[0].last_words.as_deref(), Some("[\"bye\"]"));
}

#[test]
fn every_reason_has_its_word() {
    assert_eq!(CloseReason::ClientDisconnected.as_str(), "client_disconnected");
    assert_eq!(CloseReason::ServerIdleTimeout.as_str(), "server_idle_timeout");
    assert_eq!(CloseReason::EngineRequested.as_str(), "engine_requested");
}

#[test]
fn an_engine_that_orders_the_end_is_not_told_of_it() {
    let mut stage = Stage::new(7, RecordingEngine::default());
    stage.connect("a", "u");
    stage.turn(7);
    stage.send("a", r#"{"cmd":"shutdown"}"#);
    stage.turn(60_000);
    assert_eq!(stage.ended, Some("ordered"));
    assert_eq!(stage.engine.init_calls, vec![7]);
    assert!(stage.engine.shutdown_calls.is_empty());
    assert_eq!(stage.engine.calls, 2);
}

#[test]
fn a_timer_fires_in_one_call_however_late() {
    let mut stage = Stage::new(0, RecordingEngine::default());
    stage.connect("a", "u");
    stage.turn(0);
    stage.send("a", r#"{"cmd":"set_timer","timer_id":"t","delay_ms":-5}"#);
    stage.send("a", r#"{"cmd":"set_timer","timer_id":"t","delay_ms":1000}"#);
    stage.turn(250);
    // Due already when it was set, it fires in the next call and not in that one.
    assert!(stage.engine.fired_timers.is_empty());
    stage.turn(500);
    assert_eq!(stage.engine.fired_timers, vec!["t"]);
    stage.turn(1_249);
    assert_eq!(stage.engine.fired_timers.len(), 1);
    for now in [90_000, 90_250, 90_500] {
        stage.turn(now);
    }
    assert_eq!(stage.engine.fired_timers, vec!["t", "t"]);
}

#[test]
fn each_end_is_reported_in_one_call_after_the_announcement() {
    let mut stage = Stage::new(0, RecordingEngine::default());
    stage.connect("goes", "u");
    stage.connect("asks", "v");
    stage.connect("stays", "w");
    stage.turn(0);
    assert_eq!(stage.engine.new_log, vec!["goes=u", "asks=v", "stays=w"]);
    assert!(stage.engine.close_log.is_empty());
    stage.send("asks", r#"{"cmd":"close_me"}"#);
    stage.disk.retain(|(id, _)| id != "goes");
    for step in 1..40 {
        stage.turn(step * 250);
    }
    assert_eq!(
        stage.engine.close_log,
        vec![
            ("asks".to_string(), CloseReason::EngineRequested),
            ("goes".to_string(), CloseReason::ClientDisconnected),
        ]
    );
    assert_eq!(stage.engine.new_log.len(), 3);
}

#[test]
fn polls_are_given_what_was_sent_in_order_and_once() {
    let mut stage = Stage::new(0, EchoEngine);
    stage.connect("a", "u");
    stage.turn(0);
    for n in 1..7 {
        stage.send("a", &n.to_string());
        if n % 3 == 0 {
            stage.polls.push("a".to_string());
        }
        stage.turn(n * 250);
    }
    stage.send("a", "7");
    stage.turn(2_000);
    let given: Vec<&str> = stage.answers.iter().map(|(_, text)| text.as_str()).collect();
    assert_eq!(
        given,
        vec![
            r#"[{"hello":"u"},{"echo":1},{"echo":2},{"echo":3}]"#,
            r#"[{"echo":4},{"echo":5},{"echo":6}]"#,
        ]
    );
    stage.polls.push("a".to_string());
    stage.polls.push("a".to_string());
    stage.turn(2_250);
    assert_eq!(stage.answers[2].1, r#"[{"echo":7}]"#);
    assert_eq!(stage.answers[3].1, "[]");
}
