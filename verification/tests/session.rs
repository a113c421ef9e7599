use chat_relay::event::{Event, StreamEvent};
use chat_relay::registry::{SessionInfo, SessionRegistry};
use chat_relay::request::{ChatMessage, Role};
use chat_relay::session::{Input, Phase, RawEvent, RawKind, Session, StartError, Step};
use chat_relay::sse::{frame_of_status, FrameDecoder};

fn open() -> RawEvent {
    RawEvent { kind: RawKind::Open, data: Vec::new() }
}

fn message(s: &str) -> RawEvent {
    RawEvent { kind: RawKind::Message, data: s.as_bytes().to_vec() }
}

fn error(s: &str) -> RawEvent {
    RawEvent { kind: RawKind::Error, data: s.as_bytes().to_vec() }
}

fn content(s: &str) -> StreamEvent {
    Event::Content(s.as_bytes().to_vec())
}

fn raw(s: &str) -> StreamEvent {
    Event::Raw(s.as_bytes().to_vec())
}

fn end(s: &str) -> StreamEvent {
    Event::End(s.as_bytes().to_vec())
}

fn failed(s: &str) -> StreamEvent {
    Event::Error(s.as_bytes().to_vec())
}

fn hi() -> Vec<ChatMessage> {
    vec![ChatMessage { role: Role::User, content: b"hi".to_vec() }]
}

fn started(registry: &mut SessionRegistry, id: &[u8]) -> Session {
    let mut session = Session::new(id);
    assert!(session.start(registry, &hi(), b"key", 0).is_ok());
    session
}

fn frame(content: &str) -> String {
    format!("{{\"choices\":[{{\"delta\":{{\"content\":\"{}\"}}}}]}}", content)
}

fn count_terminal(events: &[StreamEvent]) -> usize {
    events
        .iter()
        .filter(|e| matches!(e, Event::End(_) | Event::Error(_) | Event::Cancelled))
        .count()
}

#[test]
fn new_session_is_idle() {
    let session = Session::new(b"s1");
    assert_eq!(session.phase(), Phase::Idle);
    assert_eq!(session.id(), &b"s1".to_vec());
    assert!(!session.is_closed());
}

#[test]
fn start_registers_and_builds_the_request() {
    let mut registry = SessionRegistry::new();
    let mut session = Session::new(b"s1");
    let request = session.start(&mut registry, &hi(), b"secret", 42).unwrap();
    assert_eq!(session.phase(), Phase::Connecting);
    assert_eq!(registry.get(b"s1"), Some(SessionInfo { cancelled: false, started_at: 42 }));
    assert_eq!(request.authorization, b"Bearer secret".to_vec());
    assert_eq!(
        String::from_utf8(request.body).unwrap(),
        "{\"model\":\"gpt-4o-mini\",\"messages\":[{\"role\":\"user\",\"content\":\"hi\"}],\"stream\":true}"
    );
}

#[test]
fn start_rejects_a_credential_that_cannot_stand_in_a_header() {
    let mut registry = SessionRegistry::new();
    let mut session = Session::new(b"s1");
    assert_eq!(
        session.start(&mut registry, &hi(), b"bad\nkey", 0),
        Err(StartError::InvalidCredential)
    );
    assert_eq!(session.phase(), Phase::Idle);
    assert_eq!(registry.len(), 0);
    assert!(session.start(&mut registry, &hi(), b"good", 0).is_ok());
}

#[test]
fn start_rejects_a_stream_id_that_is_live() {
    let mut registry = SessionRegistry::new();
    let _first = started(&mut registry, b"s1");
    let mut second = Session::new(b"s1");
    assert_eq!(second.start(&mut registry, &hi(), b"key", 5), Err(StartError::AlreadyLive));
    assert_eq!(second.phase(), Phase::Idle);
    assert_eq!(registry.len(), 1);
    assert_eq!(registry.get(b"s1"), Some(SessionInfo { cancelled: false, started_at: 0 }));
}

#[test]
fn start_rejects_a_second_start() {
    let mut registry = SessionRegistry::new();
    let mut session = started(&mut registry, b"s1");
    assert_eq!(session.start(&mut registry, &hi(), b"key", 0), Err(StartError::NotIdle));
    assert_eq!(session.phase(), Phase::Connecting);
    let _ = session.relay(&mut registry, &vec![]);
    assert_eq!(session.start(&mut registry, &hi(), b"key", 0), Err(StartError::NotIdle));
    assert_eq!(session.phase(), Phase::Closed);
}

#[test]
fn precedence_of_start_errors() {
    let mut registry = SessionRegistry::new();
    let mut session = started(&mut registry, b"s1");
    assert_eq!(session.start(&mut registry, &hi(), b"bad\r", 0), Err(StartError::NotIdle));
    let mut other = Session::new(b"s1");
    assert_eq!(
        other.start(&mut registry, &hi(), b"bad\r", 0),
        Err(StartError::InvalidCredential)
    );
}

#[test]
fn scenario_two_frames_the_second_with_a_finish_reason() {
    let wire = b"data: {\"choices\":[{\"delta\":{\"content\":\"He\"}}]}\n\ndata: {\"choices\":[{\"delta\":{\"content\":\"llo\"},\"finish_reason\":\"stop\"}]}\n\ndata: [DONE]\n\n";
    let mut registry = SessionRegistry::new();
    let mut session = started(&mut registry, b"s1");
    let mut script = vec![frame_of_status(200)];
    let mut decoder = FrameDecoder::new();
    script.extend(decoder.feed(wire));
    assert_eq!(script.len(), 4);
    let events = session.relay(&mut registry, &script);
    assert_eq!(events, vec![Event::Open, content("He"), content("llo"), end("stop")]);
    assert_eq!(session.phase(), Phase::Closed);
    assert!(!registry.contains(b"s1"));
}

#[test]
fn scenario_step_by_step_closes_before_the_terminator() {
    let mut registry = SessionRegistry::new();
    let mut session = started(&mut registry, b"s1");
    let step = session.advance(&mut registry, Input::Event(&open()));
    assert_eq!(step, Step { events: vec![Event::Open], closed: false });
    assert_eq!(session.phase(), Phase::Streaming);
    let step = session.advance(&mut registry, Input::Event(&message(&frame("He"))));
    assert_eq!(step, Step { events: vec![content("He")], closed: false });
    let last = message("{\"choices\":[{\"delta\":{\"content\":\"llo\"},\"finish_reason\":\"stop\"}]}");
    let step = session.advance(&mut registry, Input::Event(&last));
    assert_eq!(step, Step { events: vec![content("llo"), end("stop")], closed: true });
    assert_eq!(session.phase(), Phase::Closed);
    assert!(!registry.contains(b"s1"));
    let step = session.advance(&mut registry, Input::Event(&message("[DONE]")));
    assert_eq!(step, Step { events: vec![], closed: false });
    let step = session.advance(&mut registry, Input::EndOfStream);
    assert_eq!(step, Step { events: vec![], closed: false });
}

#[test]
fn scenario_status_500_before_any_frame() {
    let mut registry = SessionRegistry::new();
    let mut session = started(&mut registry, b"s1");
    let events = session.relay(&mut registry, &vec![frame_of_status(500)]);
    assert_eq!(events, vec![failed("HTTP 500")]);
    assert_eq!(session.phase(), Phase::Closed);
    assert!(!registry.contains(b"s1"));
}

#[test]
fn done_ends_the_stream_after_the_chunks_in_their_order() {
    let mut registry = SessionRegistry::new();
    let mut session = started(&mut registry, b"s1");
    let script = vec![
        open(),
        message(&frame("a")),
        message(&frame("b")),
        message(&frame("c")),
        message("[DONE]"),
        message(&frame("late")),
        error("late"),
    ];
    let events = session.relay(&mut registry, &script);
    assert_eq!(events, vec![Event::Open, content("a"), content("b"), content("c"), end("done")]);
    assert_eq!(session.phase(), Phase::Closed);
}

#[test]
fn open_may_be_missing() {
    let mut registry = SessionRegistry::new();
    let mut session = started(&mut registry, b"s1");
    let step = session.advance(&mut registry, Input::Event(&message(&frame("a"))));
    assert_eq!(step.events, vec![content("a")]);
    assert_eq!(session.phase(), Phase::Streaming);
    let step = session.advance(&mut registry, Input::Event(&open()));
    assert_eq!(step.events, vec![]);
    assert_eq!(session.phase(), Phase::Streaming);
}

#[test]
fn only_the_first_finish_of_a_frame_is_published() {
    let mut registry = SessionRegistry::new();
    let mut session = started(&mut registry, b"s1");
    let script = vec![message(
        "{\"choices\":[{\"delta\":{\"content\":\"a\"},\"finish_reason\":\"stop\"},{\"delta\":{\"content\":\"b\"},\"finish_reason\":\"length\"}]}",
    )];
    let events = session.relay(&mut registry, &script);
    assert_eq!(events, vec![content("a"), end("stop")]);
}

#[test]
fn malformed_frame_is_published_raw_and_the_stream_goes_on() {
    let mut registry = SessionRegistry::new();
    let mut session = started(&mut registry, b"s1");
    let _ = session.advance(&mut registry, Input::Event(&open()));
    let step = session.advance(&mut registry, Input::Event(&message("{\"choices\":[")));
    assert_eq!(step, Step { events: vec![raw("{\"choices\":[")], closed: false });
    assert_eq!(session.phase(), Phase::Streaming);
    assert!(registry.contains(b"s1"));
    let step = session.advance(&mut registry, Input::Event(&message(&frame("x"))));
    assert_eq!(step.events, vec![content("x")]);
}

#[test]
fn error_frame_ends_the_stream() {
    let mut registry = SessionRegistry::new();
    let mut session = started(&mut registry, b"s1");
    let script = vec![open(), message(&frame("a")), error("connection reset"), message("[DONE]")];
    let events = session.relay(&mut registry, &script);
    assert_eq!(events, vec![Event::Open, content("a"), failed("connection reset")]);
    assert_eq!(session.phase(), Phase::Closed);
    assert!(!registry.contains(b"s1"));
}

#[test]
fn stream_that_just_ends_is_reported_as_an_error() {
    let mut registry = SessionRegistry::new();
    let mut session = started(&mut registry, b"s1");
    let events = session.relay(&mut registry, &vec![open(), message(&frame("a"))]);
    assert_eq!(events, vec![Event::Open, content("a"), failed("stream ended before completion")]);
    assert_eq!(session.phase(), Phase::Closed);
    assert!(!registry.contains(b"s1"));
}

#[test]
fn wake_does_nothing_to_a_session_that_is_not_cancelled() {
    let mut registry = SessionRegistry::new();
    let mut session = started(&mut registry, b"s1");
    let step = session.advance(&mut registry, Input::Wake);
    assert_eq!(step, Step { events: vec![], closed: false });
    assert_eq!(session.phase(), Phase::Connecting);
    assert!(registry.contains(b"s1"));
}

#[test]
fn cancelling_an_unknown_stream_touches_no_session() {
    let mut registry = SessionRegistry::new();
    let mut session = started(&mut registry, b"s1");
    assert!(!registry.cancel(b"other"));
    let step = session.advance(&mut registry, Input::Wake);
    assert_eq!(step, Step { events: vec![], closed: false });
    let step = session.advance(&mut registry, Input::Event(&open()));
    assert_eq!(step.events, vec![Event::Open]);
    assert_eq!(registry.get(b"s1"), Some(SessionInfo { cancelled: false, started_at: 0 }));
}

#[test]
fn cancelling_a_live_stream_ends_it_at_the_next_step() {
    let mut registry = SessionRegistry::new();
    let mut session = started(&mut registry, b"s1");
    let _ = session.advance(&mut registry, Input::Event(&open()));
    assert!(registry.cancel(b"s1"));
    let step = session.advance(&mut registry, Input::Event(&message(&frame("ignored"))));
    assert_eq!(step, Step { events: vec![Event::Cancelled], closed: true });
    assert_eq!(session.phase(), Phase::Closed);
    assert!(!registry.contains(b"s1"));
    let step = session.advance(&mut registry, Input::Wake);
    assert_eq!(step, Step { events: vec![], closed: false });
}

#[test]
fn cancelling_while_connecting_ends_the_stream_too() {
    let mut registry = SessionRegistry::new();
    let mut session = started(&mut registry, b"s1");
    assert!(registry.cancel(b"s1"));
    let step = session.advance(&mut registry, Input::Wake);
    assert_eq!(step, Step { events: vec![Event::Cancelled], closed: true });
    assert!(!registry.contains(b"s1"));
}

#[test]
fn cancelled_script_publishes_the_cancellation_only() {
    let mut registry = SessionRegistry::new();
    let mut session = started(&mut registry, b"s1");
    assert!(registry.cancel(b"s1"));
    let events = session.relay(&mut registry, &vec![open(), message(&frame("a")), message("[DONE]")]);
    assert_eq!(events, vec![Event::Cancelled]);
}

#[test]
fn sessions_do_not_disturb_each_other() {
    let mut registry = SessionRegistry::new();
    let mut one = started(&mut registry, b"one");
    let mut two = started(&mut registry, b"two");
    assert!(registry.cancel(b"one"));
    let step = two.advance(&mut registry, Input::Event(&message(&frame("x"))));
    assert_eq!(step.events, vec![content("x")]);
    let step = one.advance(&mut registry, Input::Event(&message(&frame("y"))));
    assert_eq!(step.events, vec![Event::Cancelled]);
    assert!(registry.contains(b"two"));
    assert!(!registry.contains(b"one"));
    let events = two.relay(&mut registry, &vec![message("[DONE]")]);
    assert_eq!(events, vec![end("done")]);
    assert_eq!(registry.len(), 0);
}

#[test]
fn idle_session_ignores_everything() {
    let mut registry = SessionRegistry::new();
    let mut session = Session::new(b"s1");
    let events = session.relay(&mut registry, &vec![open(), message("[DONE]"), error("x")]);
    assert_eq!(events, vec![]);
    assert_eq!(session.phase(), Phase::Idle);
}

#[test]
fn every_started_session_publishes_exactly_one_terminal_event() {
    let scripts: Vec<Vec<RawEvent>> = vec![
        vec![],
        vec![open()],
        vec![open(), message("garbage"), message("more garbage")],
        vec![message("[DONE]"), message("[DONE]")],
        vec![error("a"), error("b")],
        vec![open(), message(&frame("a")), message("[DONE]"), error("b")],
        vec![message("{\"choices\":[{\"finish_reason\":\"stop\"},{\"finish_reason\":\"stop\"}]}")],
    ];
    for cancelled in [false, true] {
        for script in &scripts {
            let mut registry = SessionRegistry::new();
            let mut session = started(&mut registry, b"s1");
            if cancelled {
                assert!(registry.cancel(b"s1"));
            }
            let events = session.relay(&mut registry, script);
            assert_eq!(count_terminal(&events), 1);
            assert!(matches!(
                events.last(),
                Some(Event::End(_)) | Some(Event::Error(_)) | Some(Event::Cancelled)
            ));
            assert_eq!(session.phase(), Phase::Closed);
            assert_eq!(registry.len(), 0);
        }
    }
}
