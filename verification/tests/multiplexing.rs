use lsp_mux::codec::encode_frame;
use lsp_mux::config::{Language, LspConfig};
use lsp_mux::engine::{
    BoundedQueue, Broadcaster, Engine, PushOutcome, ReaderOutcome, RecvOutcome, WriterAction,
    writer_step,
};

fn bytes(s: &str) -> Vec<u8> {
    s.as_bytes().to_vec()
}

fn lang(name: &str, command: &str) -> Language {
    Language { name: name.to_string(), command: command.to_string(), args: Vec::new() }
}

fn recv_message(b: &mut Broadcaster, i: usize) -> Vec<u8> {
    match b.recv(i) {
        RecvOutcome::Message(m) => m,
        other => panic!("expected a message, got {}", describe(&other)),
    }
}

fn describe(r: &RecvOutcome) -> &'static str {
    match r {
        RecvOutcome::Message(_) => "Message",
        RecvOutcome::Lagged(_) => "Lagged",
        RecvOutcome::Empty => "Empty",
        RecvOutcome::Closed => "Closed",
    }
}

#[test]
fn every_subscriber_observes_every_message_in_order() {
    let mut b = Broadcaster::new(10, 2);
    b.publish(bytes("one"));
    b.publish(bytes("two"));
    b.publish(bytes("three"));
    for i in 0..2 {
        assert_eq!(recv_message(&mut b, i), bytes("one"));
        assert_eq!(recv_message(&mut b, i), bytes("two"));
        assert_eq!(recv_message(&mut b, i), bytes("three"));
        assert!(matches!(b.recv(i), RecvOutcome::Empty));
    }
}

#[test]
fn overflow_is_signalled_not_silent() {
    let mut b = Broadcaster::new(2, 1);
    b.publish(bytes("m0"));
    b.publish(bytes("m1"));
    b.publish(bytes("m2"));
    b.publish(bytes("m3"));
    match b.recv(0) {
        RecvOutcome::Lagged(missed) => assert_eq!(missed, 2),
        other => panic!("expected a lag signal, got {}", describe(&other)),
    }
    assert_eq!(recv_message(&mut b, 0), bytes("m2"));
    assert_eq!(recv_message(&mut b, 0), bytes("m3"));
}

#[test]
fn writer_stops_on_desync_and_on_close() {
    assert!(matches!(writer_step(RecvOutcome::Lagged(5)), WriterAction::Stop));
    assert!(matches!(writer_step(RecvOutcome::Closed), WriterAction::Stop));
    assert!(matches!(writer_step(RecvOutcome::Empty), WriterAction::Wait));
}

#[test]
fn writer_frames_each_message() {
    match writer_step(RecvOutcome::Message(bytes("{}"))) {
        WriterAction::Forward(f) => assert_eq!(f, bytes("Content-Length: 2\r\n\r\n{}")),
        _ => panic!("expected a forwarded frame"),
    }
}

#[test]
fn closed_channel_still_delivers_backlog() {
    let mut b = Broadcaster::new(4, 1);
    b.publish(bytes("last"));
    b.close();
    assert_eq!(recv_message(&mut b, 0), bytes("last"));
    assert!(matches!(b.recv(0), RecvOutcome::Closed));
}

#[test]
fn full_queue_blocks_and_loses_nothing() {
    let mut q = BoundedQueue::new(2);
    assert!(matches!(q.push(bytes("a")), PushOutcome::Accepted));
    assert!(matches!(q.push(bytes("b")), PushOutcome::Accepted));
    match q.push(bytes("c")) {
        PushOutcome::Full(returned) => assert_eq!(returned, bytes("c")),
        PushOutcome::Accepted => panic!("queue accepted a push beyond its capacity"),
    }
    assert_eq!(q.pop().unwrap(), bytes("a"));
    assert!(matches!(q.push(bytes("c")), PushOutcome::Accepted));
    let drained = q.drain();
    assert_eq!(drained, vec![bytes("b"), bytes("c")]);
    assert_eq!(q.len(), 0);
}

#[test]
fn two_echo_backends_in_configured_order() {
    let config =
        LspConfig { languages: vec![lang("echoA", "echoA"), lang("echoB", "echoB")] };
    let mut engine = Engine::new(config, 8);

    let client_frame = bytes("Content-Length: 23\r\n\r\n{\"id\":1,\"method\":\"foo\"}");
    let consumed = engine.client_step(&client_frame).unwrap();
    assert_eq!(consumed, client_frame.len());

    let mut echoed = Vec::new();
    for i in 0..2 {
        let m = match engine.writer_recv(i) {
            RecvOutcome::Message(m) => m,
            _ => panic!("backend writer saw no message"),
        };
        assert_eq!(m, bytes("{\"id\":1,\"method\":\"foo\"}"));
        let forwarded = match writer_step(RecvOutcome::Message(m)) {
            WriterAction::Forward(f) => f,
            _ => panic!("expected a forwarded frame"),
        };
        assert_eq!(forwarded, client_frame);
        // each backend echoes the frame back verbatim
        echoed.push(forwarded);
    }
    for i in 0..2 {
        assert!(matches!(engine.reader_step(i, &echoed[i]), ReaderOutcome::Queued(_)));
    }
    let out_a = engine.aggregator_pop(0).expect("first backend's echo");
    let out_b = engine.aggregator_pop(1).expect("second backend's echo");
    assert_eq!(out_a, client_frame);
    assert_eq!(out_b, client_frame);
    assert!(engine.aggregator_pop(0).is_none());
    assert!(engine.aggregator_pop(1).is_none());
}

#[test]
fn one_dead_backend_does_not_stall_the_other() {
    let config = LspConfig { languages: vec![lang("dead", "dead"), lang("live", "live")] };
    let mut engine = Engine::new(config, 8);
    // the dead backend produced undecodable output: its reader stops
    let garbage = bytes("not a frame\r\n\r\n");
    assert!(matches!(engine.reader_step(0, &garbage), ReaderOutcome::Stop(_)));
    // the live backend keeps flowing end to end
    let frame = bytes("Content-Length: 2\r\n\r\n{}");
    assert!(matches!(engine.reader_step(1, &frame), ReaderOutcome::Queued(_)));
    assert!(engine.aggregator_pop(0).is_none());
    assert_eq!(engine.aggregator_pop(1).unwrap(), frame);
}

#[test]
fn client_input_must_be_json() {
    let config = LspConfig { languages: vec![lang("a", "a")] };
    let mut engine = Engine::new(config, 4);
    // valid UTF-8 text that is no JSON document is fatal and never broadcast
    let text = encode_frame(&bytes("hello"));
    assert!(engine.client_step(&text).is_err());
    assert!(matches!(engine.writer_recv(0), RecvOutcome::Empty));
    // bytes that are not even UTF-8 are no JSON document either
    let mut raw = bytes("Content-Length: 2\r\n\r\n");
    raw.push(0xff);
    raw.push(0xfe);
    assert!(engine.client_step(&raw).is_err());
    assert!(matches!(engine.writer_recv(0), RecvOutcome::Empty));
    let fine = encode_frame(&bytes("{\"ok\":true}"));
    assert!(engine.client_step(&fine).is_ok());
    assert!(matches!(engine.writer_recv(0), RecvOutcome::Message(_)));
}

#[test]
fn client_body_is_reserialized_on_entry() {
    let config = LspConfig { languages: vec![lang("a", "a")] };
    let mut engine = Engine::new(config, 4);
    let input = encode_frame(&bytes("{ \"b\" : 2 , \"a\" : 1 }"));
    engine.client_step(&input).unwrap();
    match engine.writer_recv(0) {
        RecvOutcome::Message(m) => assert_eq!(m, bytes("{\"a\":1,\"b\":2}")),
        _ => panic!("backend writer saw no message"),
    }
}

#[test]
fn engine_close_stops_writers_after_drain() {
    let config = LspConfig { languages: vec![lang("a", "a")] };
    let mut engine = Engine::new(config, 4);
    let frame = encode_frame(&bytes("{}"));
    engine.client_step(&frame).unwrap();
    engine.close_input();
    assert!(matches!(engine.writer_recv(0), RecvOutcome::Message(_)));
    let outcome = engine.writer_recv(0);
    assert!(matches!(outcome, RecvOutcome::Closed));
    assert!(matches!(writer_step(outcome), WriterAction::Stop));
}
