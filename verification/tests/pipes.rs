use stadhouder::layout::Platform;
use stadhouder::pipes::{
    bytes_waiting, client_attached, create_serving_pipes, extract_frames, fifo_receive_step,
    fifo_send_step, frame_length, frame_text, look_again, pipe_names_for, pipe_open_step,
    poll_step, read_frame, remove_serving_pipes, write_frame, FifoOpening, InboundServerPipe,
    OpenStep, OutboundServerPipe, PipeOpening, PipeStep, PollStep,
};

#[test]
fn frame_roundtrip() {
    let mut buf: Vec<u8> = Vec::new();
    write_frame(&mut buf, "hello there").unwrap();
    assert_eq!(read_frame(&buf).unwrap(), "hello there");
}

#[test]
fn empty_frame_roundtrip() {
    let mut buf: Vec<u8> = Vec::new();
    write_frame(&mut buf, "").unwrap();
    assert_eq!(read_frame(&buf).unwrap(), "");
}

#[test]
fn oversized_frame_is_rejected() {
    let mut buf: Vec<u8> = Vec::new();
    buf.extend_from_slice(&u32::MAX.to_le_bytes());
    assert!(read_frame(&buf).is_err());
    assert_eq!(read_frame(&buf).unwrap_err(), "frame of 4294967295 bytes exceeds the frame limit");
}

#[test]
fn truncated_frame_is_an_error() {
    let mut buf: Vec<u8> = Vec::new();
    write_frame(&mut buf, "hello").unwrap();
    buf.truncate(buf.len() - 2);
    assert!(read_frame(&buf).is_err());
    assert_eq!(read_frame(&buf).unwrap_err(), "pipe read failed: failed to fill whole buffer");
    assert!(read_frame(&buf[..3]).is_err());
}

#[test]
fn extract_frames_handles_partials_and_multiples() {
    let mut three: Vec<u8> = Vec::new();
    write_frame(&mut three, "three").unwrap();

    let mut buf: Vec<u8> = Vec::new();
    write_frame(&mut buf, "one").unwrap();
    write_frame(&mut buf, "two").unwrap();
    buf.extend_from_slice(&three[..5]); // "three" only partially arrived

    let frames = extract_frames(&mut buf).unwrap();
    assert_eq!(frames, vec!["one".to_string(), "two".to_string()]);
    assert_eq!(buf.len(), 5); // the partial stays buffered

    // The rest arrives.
    buf.extend_from_slice(&three[5..]);
    assert_eq!(extract_frames(&mut buf).unwrap(), vec!["three".to_string()]);
    assert!(buf.is_empty());
}

#[test]
fn pipe_names_use_underscored_uuid() {
    let names = pipe_names_for(
        Platform::Unix,
        "/tmp/x/stadhouder",
        "123e4567-e89b-42d3-a456-426614174000",
    );
    assert!(names.client_to_server.contains("c2s_123e4567_e89b_42d3_a456_426614174000"));
    assert!(names.server_to_client.contains("s2c_123e4567_e89b_42d3_a456_426614174000"));
    assert_eq!(
        names.client_to_server,
        "/tmp/x/stadhouder/pipes/c2s_123e4567_e89b_42d3_a456_426614174000"
    );
}

#[test]
fn windows_pipe_names_live_under_a_stadhouder_subfolder() {
    let names = pipe_names_for(
        Platform::Windows,
        "C:\\irrelevant",
        "123e4567-e89b-42d3-a456-426614174000",
    );
    assert_eq!(
        names.client_to_server,
        r"\\.\pipe\stadhouder\c2s_123e4567_e89b_42d3_a456_426614174000"
    );
    assert_eq!(
        names.server_to_client,
        r"\\.\pipe\stadhouder\s2c_123e4567_e89b_42d3_a456_426614174000"
    );
}

#[test]
fn a_frame_is_a_little_endian_length_and_the_payload() {
    let mut buf: Vec<u8> = vec![9];
    write_frame(&mut buf, "h\u{e9}").unwrap();
    assert_eq!(buf, vec![9, 3, 0, 0, 0, 0x68, 0xc3, 0xa9]);
    assert_eq!(frame_length(&[1, 2, 0, 0]).unwrap(), 513);
    assert_eq!(frame_length(&[0, 0, 0, 1]).unwrap(), 16 * 1024 * 1024);
    assert!(frame_length(&[1, 0, 0, 1]).is_err());
}

#[test]
fn a_message_over_the_limit_is_not_written() {
    let long = "x".repeat(16 * 1024 * 1024 + 1);
    let mut buf: Vec<u8> = vec![1];
    assert_eq!(
        write_frame(&mut buf, &long).unwrap_err(),
        "message of 16777217 bytes exceeds the frame limit"
    );
    assert_eq!(buf, vec![1]);
    write_frame(&mut buf, &long[1..]).unwrap();
    assert_eq!(buf.len(), 1 + 4 + 16 * 1024 * 1024);
}

#[test]
fn a_payload_must_be_utf8() {
    assert_eq!(frame_text(vec![0xff, 0xfe]).unwrap_err(), "pipe frame is not UTF-8");
    assert_eq!(frame_text(vec![0xe2, 0x82, 0xac]).unwrap(), "\u{20ac}");
    assert_eq!(read_frame(&[1, 0, 0, 0, 0x80]).unwrap_err(), "pipe frame is not UTF-8");
}

#[test]
fn a_frame_that_cannot_be_read_stays_in_the_buffer() {
    let mut buf: Vec<u8> = Vec::new();
    write_frame(&mut buf, "ok").unwrap();
    let bad: Vec<u8> = vec![1, 0, 0, 0, 0xff, 7];
    buf.extend_from_slice(&bad);
    assert_eq!(extract_frames(&mut buf).unwrap_err(), "pipe frame is not UTF-8");
    assert_eq!(buf, bad);
    assert!(extract_frames(&mut buf).is_err());
}

#[test]
fn bytes_may_arrive_in_any_portions() {
    let mut stream: Vec<u8> = Vec::new();
    let messages = ["", "one", "tw\u{f6}", "{\"a\":1}"];
    for m in messages {
        write_frame(&mut stream, m).unwrap();
    }
    for cut in 0..=stream.len() {
        let mut pipe = InboundServerPipe::create();
        pipe.absorb(&stream[..cut]);
        let mut got = pipe.drain_frames(false).unwrap();
        pipe.absorb(&stream[cut..]);
        got.extend(pipe.drain_frames(false).unwrap());
        assert_eq!(got, messages);
        assert!(pipe.drain_frames(false).unwrap().is_empty());
    }
}

#[test]
fn what_a_departed_sender_left_unfinished_is_dropped() {
    let mut frame: Vec<u8> = Vec::new();
    write_frame(&mut frame, "abc").unwrap();
    let mut pipe = InboundServerPipe::create();
    pipe.absorb(&frame);
    pipe.absorb(&frame[..5]);
    assert_eq!(pipe.drain_frames(true).unwrap(), vec!["abc".to_string()]);
    pipe.absorb(&frame);
    assert_eq!(pipe.drain_frames(false).unwrap(), vec!["abc".to_string()]);
}

#[test]
fn only_fifos_have_files_to_be_made_and_removed() {
    let names = pipe_names_for(Platform::Unix, "/d", "a-b");
    let steps: Vec<String> = create_serving_pipes(Platform::Unix, &names)
        .into_iter()
        .map(|s| match s {
            PipeStep::Remove(n) => format!("rm {n}"),
            PipeStep::Make(n) => format!("mk {n}"),
        })
        .collect();
    assert_eq!(
        steps,
        vec![
            "rm /d/pipes/c2s_a_b",
            "mk /d/pipes/c2s_a_b",
            "rm /d/pipes/s2c_a_b",
            "mk /d/pipes/s2c_a_b",
        ]
    );
    let removed = remove_serving_pipes(Platform::Unix, &names);
    assert_eq!(removed.len(), 2);
    assert!(matches!(&removed[0], PipeStep::Remove(n) if n == "/d/pipes/c2s_a_b"));
    assert!(matches!(&removed[1], PipeStep::Remove(n) if n == "/d/pipes/s2c_a_b"));
    assert!(create_serving_pipes(Platform::Windows, &names).is_empty());
    assert!(remove_serving_pipes(Platform::Windows, &names).is_empty());
}

#[test]
fn a_poll_is_served_only_where_a_reader_waits() {
    let pipe = OutboundServerPipe::create("/p");
    assert_eq!(pipe.name(), "/p");
    assert_eq!(pipe.try_serve_poll(FifoOpening::Opened), Ok(true));
    assert_eq!(pipe.try_serve_poll(FifoOpening::NoReader), Ok(false));
    assert_eq!(
        pipe.try_serve_poll(FifoOpening::NotFound("gone".to_string())),
        Err("failed to open /p: gone".to_string())
    );
    assert_eq!(
        pipe.try_serve_poll(FifoOpening::Failed("denied".to_string())),
        Err("failed to open /p: denied".to_string())
    );
}

#[test]
fn windows_answers_are_told_apart() {
    assert_eq!(client_attached(true, 0), Ok(true));
    assert_eq!(client_attached(false, 535), Ok(true));
    assert_eq!(client_attached(false, 232), Ok(true));
    assert_eq!(client_attached(false, 536), Ok(false));
    assert_eq!(
        client_attached(false, 5),
        Err("ConnectNamedPipe failed (error 5)".to_string())
    );
    assert_eq!(bytes_waiting(true, 7, 109), Ok(Some(7)));
    assert_eq!(bytes_waiting(false, 7, 109), Ok(None));
    assert_eq!(bytes_waiting(false, 7, 232), Ok(None));
    assert_eq!(
        bytes_waiting(false, 7, 6),
        Err("PeekNamedPipe failed (error 6)".to_string())
    );
    assert!(matches!(poll_step(false, Some(1)), PollStep::Leave));
    assert!(matches!(poll_step(true, None), PollStep::Release));
    assert!(matches!(poll_step(true, Some(0)), PollStep::Serve));
    assert!(look_again(0, &Ok(Some(0))));
    assert!(!look_again(400, &Ok(Some(0))));
    assert!(!look_again(0, &Ok(None)));
    assert!(!look_again(0, &Err("x".to_string())));
}

fn shown(step: OpenStep) -> String {
    match step {
        OpenStep::Proceed => "proceed".to_string(),
        OpenStep::Retry => "retry".to_string(),
        OpenStep::Fail(e) => e,
    }
}

#[test]
fn a_client_waits_for_its_pipe_until_the_deadline() {
    let not_running = "stadhouder service is not running (pipe not found)";
    let no_reader = "stadhouder service is not running (no reader on the pipe)";
    assert_eq!(shown(pipe_open_step(PipeOpening::Opened, true, true)), "proceed");
    assert_eq!(shown(pipe_open_step(PipeOpening::Busy, false, true)), "retry");
    assert_eq!(
        shown(pipe_open_step(PipeOpening::Busy, true, false)),
        "stadhouder service is busy (pipe timeout)"
    );
    assert_eq!(shown(pipe_open_step(PipeOpening::NotFound, true, false)), "retry");
    assert_eq!(shown(pipe_open_step(PipeOpening::NotFound, false, true)), not_running);
    assert_eq!(
        shown(pipe_open_step(PipeOpening::Failed("no".to_string()), false, false)),
        "failed to open service pipe: no"
    );
    assert_eq!(shown(fifo_send_step("/p", FifoOpening::Opened, true)), "proceed");
    assert_eq!(shown(fifo_send_step("/p", FifoOpening::NoReader, false)), "retry");
    assert_eq!(
        shown(fifo_send_step("/p", FifoOpening::NotFound("x".to_string()), false)),
        "retry"
    );
    assert_eq!(shown(fifo_send_step("/p", FifoOpening::NoReader, true)), no_reader);
    assert_eq!(
        shown(fifo_send_step("/p", FifoOpening::Failed("no".to_string()), false)),
        "failed to open /p: no"
    );
    assert_eq!(shown(fifo_receive_step(true, true)), "proceed");
    assert_eq!(shown(fifo_receive_step(false, false)), "retry");
    assert_eq!(shown(fifo_receive_step(false, true)), not_running);
}

/// The files there are once steps have been carried out.
fn carried_out(files: &[String], steps: Vec<PipeStep>) -> Vec<String> {
    let mut files = files.to_vec();
    for step in steps {
        match step {
            PipeStep::Remove(path) => files.retain(|file| *file != path),
            PipeStep::Make(path) => files.push(path),
        }
    }
    files
}

#[test]
fn removing_pipes_again_changes_nothing() {
    let names = pipe_names_for(Platform::Unix, "/d", "a-b");
    let left_over = vec!["/d/pipes/other".to_string(), names.client_to_server.clone()];
    let made = carried_out(&left_over, create_serving_pipes(Platform::Unix, &names));
    assert_eq!(
        made,
        vec![
            "/d/pipes/other".to_string(),
            names.client_to_server.clone(),
            names.server_to_client.clone(),
        ]
    );
    let gone = carried_out(&made, remove_serving_pipes(Platform::Unix, &names));
    assert_eq!(gone, vec!["/d/pipes/other".to_string()]);
    assert_eq!(carried_out(&gone, remove_serving_pipes(Platform::Unix, &names)), gone);
}
