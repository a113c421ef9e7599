use chat_relay::event::{payload_of, topic_of, Event};
use chat_relay::json::{decode, Json};
use chat_relay::request::{
    bearer_value, credential_is_valid, request_body, role_from_name, ChatMessage, Role,
};
use chat_relay::writer::write_quoted;

fn message(role: Role, content: &str) -> ChatMessage {
    ChatMessage { role, content: content.as_bytes().to_vec() }
}

fn quoted(text: &[u8]) -> Vec<u8> {
    let mut out = Vec::new();
    write_quoted(text, &mut out);
    out
}

#[test]
fn body_of_one_message() {
    let body = request_body(&vec![message(Role::User, "hi")]);
    assert_eq!(
        String::from_utf8(body).unwrap(),
        "{\"model\":\"gpt-4o-mini\",\"messages\":[{\"role\":\"user\",\"content\":\"hi\"}],\"stream\":true}"
    );
}

#[test]
fn body_without_messages() {
    let body = request_body(&vec![]);
    assert_eq!(
        String::from_utf8(body).unwrap(),
        "{\"model\":\"gpt-4o-mini\",\"messages\":[],\"stream\":true}"
    );
}

#[test]
fn body_keeps_the_order_and_names_every_role() {
    let body = request_body(&vec![
        message(Role::System, "be brief"),
        message(Role::User, "hi"),
        message(Role::Assistant, "hello"),
    ]);
    assert_eq!(
        String::from_utf8(body).unwrap(),
        "{\"model\":\"gpt-4o-mini\",\"messages\":[{\"role\":\"system\",\"content\":\"be brief\"},{\"role\":\"user\",\"content\":\"hi\"},{\"role\":\"assistant\",\"content\":\"hello\"}],\"stream\":true}"
    );
}

#[test]
fn body_escapes_what_json_demands() {
    let body = request_body(&vec![message(Role::User, "a\"b\\c\nd\te\u{1}f/\u{e9}")]);
    assert_eq!(
        String::from_utf8(body).unwrap(),
        "{\"model\":\"gpt-4o-mini\",\"messages\":[{\"role\":\"user\",\"content\":\"a\\\"b\\\\c\\u000ad\\u0009e\\u0001f/\u{e9}\"}],\"stream\":true}"
    );
}

#[test]
fn body_reads_back_as_json() {
    let content = "line one\nline \"two\" \\ \u{1f600} \u{0}\u{1f}";
    let body = request_body(&vec![message(Role::User, content)]);
    let value = decode(&body).unwrap();
    assert_eq!(value.get(b"stream"), Some(&Json::Bool(true)));
    assert_eq!(value.get(b"model"), Some(&Json::Text(b"gpt-4o-mini".to_vec())));
    match value.get(b"messages") {
        Some(Json::Array(items)) => {
            assert_eq!(items.len(), 1);
            assert_eq!(items[0].get(b"role"), Some(&Json::Text(b"user".to_vec())));
            assert_eq!(items[0].get(b"content"), Some(&Json::Text(content.as_bytes().to_vec())));
        }
        other => panic!("messages is {:?}", other),
    }
}

#[test]
fn every_byte_string_reads_back_from_its_quoted_form() {
    let mut all = Vec::new();
    for b in 0..=255u8 {
        all.push(b);
    }
    assert_eq!(decode(&quoted(&all)), Some(Json::Text(all.clone())));
    for b in 0..=255u8 {
        assert_eq!(decode(&quoted(&[b])), Some(Json::Text(vec![b])));
    }
}

#[test]
fn quoted_text_exact() {
    assert_eq!(quoted(b""), b"\"\"".to_vec());
    assert_eq!(quoted(b"a"), b"\"a\"".to_vec());
    assert_eq!(quoted(b"\""), b"\"\\\"\"".to_vec());
    assert_eq!(quoted(b"\\"), b"\"\\\\\"".to_vec());
    assert_eq!(quoted(&[0x1f]), b"\"\\u001f\"".to_vec());
    assert_eq!(quoted(&[0x00]), b"\"\\u0000\"".to_vec());
    assert_eq!(quoted(&[0x20, 0x7f, 0x80, 0xff]), vec![b'"', 0x20, 0x7f, 0x80, 0xff, b'"']);
}

#[test]
fn write_quoted_appends() {
    let mut out = b"x=".to_vec();
    write_quoted(b"y", &mut out);
    assert_eq!(out, b"x=\"y\"".to_vec());
}

#[test]
fn credential_bytes() {
    assert!(credential_is_valid(b""));
    assert!(credential_is_valid(b"sk-abc_DEF.123~"));
    assert!(credential_is_valid(b"with space and\ttab"));
    assert!(credential_is_valid(&[0x80, 0xff]));
    assert!(!credential_is_valid(b"line\nbreak"));
    assert!(!credential_is_valid(b"return\r"));
    assert!(!credential_is_valid(&[0x00]));
    assert!(!credential_is_valid(&[0x1f]));
    assert!(!credential_is_valid(&[0x7f]));
    assert!(!credential_is_valid(b"ok\x7fnot"));
}

#[test]
fn bearer_value_exact() {
    assert_eq!(bearer_value(b"abc"), b"Bearer abc".to_vec());
    assert_eq!(bearer_value(b""), b"Bearer ".to_vec());
}

#[test]
fn topics_are_namespaced_by_the_stream_id() {
    assert_eq!(topic_of(b"s1", &Event::Open), b"s1/open".to_vec());
    assert_eq!(topic_of(b"s1", &Event::Content(b"x".to_vec())), b"s1/chunk".to_vec());
    assert_eq!(topic_of(b"s1", &Event::Raw(b"x".to_vec())), b"s1/chunk".to_vec());
    assert_eq!(topic_of(b"s1", &Event::End(b"stop".to_vec())), b"s1/end".to_vec());
    assert_eq!(topic_of(b"s1", &Event::Error(b"x".to_vec())), b"s1/error".to_vec());
    assert_eq!(topic_of(b"s1", &Event::Cancelled), b"s1/cancelled".to_vec());
    assert_eq!(topic_of(b"", &Event::Open), b"/open".to_vec());
    assert_eq!(topic_of(b"a/b", &Event::Open), b"a/b/open".to_vec());
}

#[test]
fn payloads_exact() {
    assert_eq!(payload_of(&Event::Open), b"{}".to_vec());
    assert_eq!(payload_of(&Event::Cancelled), b"{}".to_vec());
    assert_eq!(payload_of(&Event::Content(b"He".to_vec())), b"{\"content\":\"He\"}".to_vec());
    assert_eq!(payload_of(&Event::Raw(b"{\"x".to_vec())), b"{\"raw\":\"{\\\"x\"}".to_vec());
    assert_eq!(payload_of(&Event::End(b"stop".to_vec())), b"{\"reason\":\"stop\"}".to_vec());
    assert_eq!(payload_of(&Event::Error(b"HTTP 500".to_vec())), b"{\"error\":\"HTTP 500\"}".to_vec());
}

#[test]
fn payload_reads_back_as_json() {
    let text = "a \"quoted\" \\ line\nwith \u{7} bell".as_bytes().to_vec();
    let payload = payload_of(&Event::Content(text.clone()));
    assert_eq!(decode(&payload).unwrap().get(b"content"), Some(&Json::Text(text)));
}

#[test]
fn roles_by_name() {
    assert_eq!(role_from_name(b"user"), Some(Role::User));
    assert_eq!(role_from_name(b"assistant"), Some(Role::Assistant));
    assert_eq!(role_from_name(b"system"), Some(Role::System));
    assert_eq!(role_from_name(b"User"), None);
    assert_eq!(role_from_name(b"users"), None);
    assert_eq!(role_from_name(b""), None);
    assert_eq!(role_from_name(b"tool"), None);
}
