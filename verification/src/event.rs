//! What a session publishes, and under which topic.

use vstd::prelude::*;
use crate::bytes::{ascii, ascii_bytes, to_vec};
use crate::writer::{append, quoted, write_quoted};

verus! {

/// One publication of a session. `T` is the type of a text.
#[derive(Debug, Clone, PartialEq, Eq)]
pub enum Event<T> {
    /// The connection stands.
    Open,
    /// A fragment of the answer.
    Content(T),
    /// A line that could not be decoded, as it came.
    Raw(T),
    /// The stream is complete, for the reason given.
    End(T),
    /// The stream broke, with the message given.
    Error(T),
    /// The stream was stopped on request.
    Cancelled,
}

/// An event held in memory.
pub type StreamEvent = Event<Vec<u8>>;

/// An event as a mathematical value.
pub type EventView = Event<Seq<u8>>;

impl View for Event<Vec<u8>> {
    type V = Event<Seq<u8>>;

    open spec fn view(&self) -> Event<Seq<u8>> {
        match self {
            Event::Open => Event::Open,
            Event::Content(t) => Event::Content(t@),
            Event::Raw(t) => Event::Raw(t@),
            Event::End(t) => Event::End(t@),
            Event::Error(t) => Event::Error(t@),
            Event::Cancelled => Event::Cancelled,
        }
    }
}

/// The events that a sequence of stored events stands for.
pub open spec fn events_of(events: Seq<StreamEvent>) -> Seq<EventView> {
    Seq::new(events.len(), |k: int| events[k]@)
}

/// Whether an event is the last of its stream.
pub open spec fn is_terminal(event: EventView) -> bool {
    event is End || event is Error || event is Cancelled
}

/// The last part of an event's topic.
pub open spec fn topic_name(event: EventView) -> Seq<u8> {
    match event {
        Event::Open => ascii("open"@),
        Event::Content(_) => ascii("chunk"@),
        Event::Raw(_) => ascii("chunk"@),
        Event::End(_) => ascii("end"@),
        Event::Error(_) => ascii("error"@),
        Event::Cancelled => ascii("cancelled"@),
    }
}

/// The topic of an event of the stream `id`: the id, a slash, and the name
/// of the kind of event.
pub open spec fn topic(id: Seq<u8>, event: EventView) -> Seq<u8> {
    id + ascii("/"@) + topic_name(event)
}

/// The JSON object with the one member `key`, a string.
pub open spec fn one_member(key: Seq<u8>, text: Seq<u8>) -> Seq<u8> {
    ascii("{"@) + quoted(key) + ascii(":"@) + quoted(text) + ascii("}"@)
}

/// The JSON text that goes out with an event.
pub open spec fn payload(event: EventView) -> Seq<u8> {
    match event {
        Event::Open => ascii("{}"@),
        Event::Content(t) => one_member(ascii("content"@), t),
        Event::Raw(t) => one_member(ascii("raw"@), t),
        Event::End(t) => one_member(ascii("reason"@), t),
        Event::Error(t) => one_member(ascii("error"@), t),
        Event::Cancelled => ascii("{}"@),
    }
}

/// The topic under which an event of the stream `id` goes out.
pub fn topic_of(id: &[u8], event: &StreamEvent) -> (out: Vec<u8>)
    ensures
        out@ == topic(id@, event@),
{
    proof {
        reveal_strlit("/");
        reveal_strlit("open");
        reveal_strlit("chunk");
        reveal_strlit("end");
        reveal_strlit("error");
        reveal_strlit("cancelled");
    }
    let mut out = to_vec(id);
    append(&mut out, ascii_bytes("/"));
    match event {
        Event::Open => append(&mut out, ascii_bytes("open")),
        Event::Content(_) => append(&mut out, ascii_bytes("chunk")),
        Event::Raw(_) => append(&mut out, ascii_bytes("chunk")),
        Event::End(_) => append(&mut out, ascii_bytes("end")),
        Event::Error(_) => append(&mut out, ascii_bytes("error")),
        Event::Cancelled => append(&mut out, ascii_bytes("cancelled")),
    }
    out
}

fn write_one_member(key: &[u8], text: &[u8]) -> (out: Vec<u8>)
    ensures
        out@ == one_member(key@, text@),
{
    proof {
        reveal_strlit("{");
        reveal_strlit(":");
        reveal_strlit("}");
    }
    let mut out: Vec<u8> = Vec::new();
    append(&mut out, ascii_bytes("{"));
    write_quoted(key, &mut out);
    append(&mut out, ascii_bytes(":"));
    write_quoted(text, &mut out);
    append(&mut out, ascii_bytes("}"));
    assert(out@ =~= one_member(key@, text@));
    out
}

/// The JSON text that goes out with an event.
pub fn payload_of(event: &StreamEvent) -> (out: Vec<u8>)
    ensures
        out@ == payload(event@),
{
    proof {
        reveal_strlit("{}");
        reveal_strlit("content");
        reveal_strlit("raw");
        reveal_strlit("reason");
        reveal_strlit("error");
    }
    match event {
        Event::Open => to_vec(ascii_bytes("{}")),
        Event::Content(t) => write_one_member(ascii_bytes("content"), t.as_slice()),
        Event::Raw(t) => write_one_member(ascii_bytes("raw"), t.as_slice()),
        Event::End(t) => write_one_member(ascii_bytes("reason"), t.as_slice()),
        Event::Error(t) => write_one_member(ascii_bytes("error"), t.as_slice()),
        Event::Cancelled => to_vec(ascii_bytes("{}")),
    }
}

} // verus!
