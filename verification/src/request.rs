//! The request that opens a stream: its body and its credential header.

use vstd::prelude::*;
use crate::bytes::{ascii, ascii_bytes, bytes_equal};
use crate::writer::{append, quoted, write_quoted};

verus! {

/// Who speaks in a message.
#[derive(Debug, Clone, Copy, PartialEq, Eq, Structural)]
pub enum Role {
    User,
    Assistant,
    System,
}

/// One message of the conversation.
#[derive(Debug, Clone, PartialEq, Eq)]
pub struct ChatMessage {
    pub role: Role,
    pub content: Vec<u8>,
}

impl View for ChatMessage {
    type V = (Role, Seq<u8>);

    open spec fn view(&self) -> (Role, Seq<u8>) {
        (self.role, self.content@)
    }
}

/// The messages that a sequence of stored messages stands for.
pub open spec fn messages_of(messages: Seq<ChatMessage>) -> Seq<(Role, Seq<u8>)> {
    Seq::new(messages.len(), |k: int| messages[k]@)
}

/// What is sent to the endpoint to open a stream.
#[derive(Debug, Clone, PartialEq, Eq)]
pub struct Request {
    /// The JSON text of the body.
    pub body: Vec<u8>,
    /// The value of the `Authorization` header.
    pub authorization: Vec<u8>,
}

/// The model that every request selects.
pub open spec fn model_name() -> Seq<u8> {
    ascii("gpt-4o-mini"@)
}

/// The name of a role in the body of the request.
pub open spec fn role_name(role: Role) -> Seq<u8> {
    match role {
        Role::User => ascii("user"@),
        Role::Assistant => ascii("assistant"@),
        Role::System => ascii("system"@),
    }
}

/// The JSON object that writes one message.
pub open spec fn message_text(message: (Role, Seq<u8>)) -> Seq<u8> {
    ascii("{\"role\":"@) + quoted(role_name(message.0)) + ascii(",\"content\":"@) + quoted(
        message.1,
    ) + ascii("}"@)
}

/// The messages, written one after the other with commas between them.
pub open spec fn messages_text(messages: Seq<(Role, Seq<u8>)>) -> Seq<u8>
    decreases messages.len(),
{
    if messages.len() == 0 {
        Seq::empty()
    } else if messages.len() == 1 {
        message_text(messages[0])
    } else {
        messages_text(messages.drop_last()) + ascii(","@) + message_text(messages.last())
    }
}

/// The body of the request: the model, the messages in their order, and
/// the demand for a streamed answer.
pub open spec fn body_text(messages: Seq<(Role, Seq<u8>)>) -> Seq<u8> {
    ascii("{\"model\":"@) + quoted(model_name()) + ascii(",\"messages\":["@) + messages_text(
        messages,
    ) + ascii("],\"stream\":true}"@)
}

/// Whether a byte may stand in the value of a header: a tab, or any byte
/// from the space on but the delete character.
pub open spec fn header_byte(b: u8) -> bool {
    b == 0x09 || (b >= 0x20 && b != 0x7F)
}

/// Whether a credential can be sent in a header.
pub open spec fn valid_credential(credential: Seq<u8>) -> bool {
    forall|k: int| 0 <= k < credential.len() ==> header_byte(#[trigger] credential[k])
}

/// The value of the `Authorization` header for a credential.
pub open spec fn bearer(credential: Seq<u8>) -> Seq<u8> {
    ascii("Bearer "@) + credential
}

/// The role with the given name: `user`, `assistant` or `system`. `None`
/// for every other name.
pub open spec fn role_named(name: Seq<u8>) -> Option<Role> {
    if name == role_name(Role::User) {
        Some(Role::User)
    } else if name == role_name(Role::Assistant) {
        Some(Role::Assistant)
    } else if name == role_name(Role::System) {
        Some(Role::System)
    } else {
        None
    }
}

/// The role with the given name.
pub fn role_from_name(name: &[u8]) -> (role: Option<Role>)
    ensures
        role == role_named(name@),
{
    proof {
        reveal_strlit("user");
        reveal_strlit("assistant");
        reveal_strlit("system");
    }
    if bytes_equal(name, ascii_bytes("user")) {
        Some(Role::User)
    } else if bytes_equal(name, ascii_bytes("assistant")) {
        Some(Role::Assistant)
    } else if bytes_equal(name, ascii_bytes("system")) {
        Some(Role::System)
    } else {
        None
    }
}

fn write_role(role: Role, out: &mut Vec<u8>)
    ensures
        final(out)@ == old(out)@ + quoted(role_name(role)),
{
    proof {
        reveal_strlit("user");
        reveal_strlit("assistant");
        reveal_strlit("system");
    }
    match role {
        Role::User => write_quoted(ascii_bytes("user"), out),
        Role::Assistant => write_quoted(ascii_bytes("assistant"), out),
        Role::System => write_quoted(ascii_bytes("system"), out),
    }
}

fn write_message(message: &ChatMessage, out: &mut Vec<u8>)
    ensures
        final(out)@ == old(out)@ + message_text(message@),
{
    proof {
        reveal_strlit("{\"role\":");
        reveal_strlit(",\"content\":");
        reveal_strlit("}");
    }
    append(out, ascii_bytes("{\"role\":"));
    write_role(message.role, out);
    append(out, ascii_bytes(",\"content\":"));
    write_quoted(message.content.as_slice(), out);
    append(out, ascii_bytes("}"));
    assert(out@ =~= old(out)@ + message_text(message@));
}

/// Writes the body of the request for a conversation.
pub fn request_body(messages: &Vec<ChatMessage>) -> (body: Vec<u8>)
    ensures
        body@ == body_text(messages_of(messages@)),
{
    proof {
        reveal_strlit("{\"model\":");
        reveal_strlit("gpt-4o-mini");
        reveal_strlit(",\"messages\":[");
        reveal_strlit(",");
        reveal_strlit("],\"stream\":true}");
    }
    let mut body: Vec<u8> = Vec::new();
    append(&mut body, ascii_bytes("{\"model\":"));
    write_quoted(ascii_bytes("gpt-4o-mini"), &mut body);
    append(&mut body, ascii_bytes(",\"messages\":["));
    let ghost head = body@;
    let ghost all = messages_of(messages@);
    let mut k: usize = 0;
    assert(body@ =~= head + messages_text(all.take(0)));
    while k < messages.len()
        invariant
            k <= messages@.len(),
            all == messages_of(messages@),
            body@ == head + messages_text(all.take(k as int)),
        decreases messages@.len() - k,
    {
        proof {
            assert(all.take(k + 1).drop_last() =~= all.take(k as int));
            assert(all.take(k + 1).last() == messages@[k as int]@);
            reveal_strlit(",");
        }
        if k > 0 {
            append(&mut body, ascii_bytes(","));
        }
        write_message(&messages[k], &mut body);
        assert(body@ =~= head + messages_text(all.take(k + 1)));
        k += 1;
    }
    assert(all.take(k as int) =~= all);
    append(&mut body, ascii_bytes("],\"stream\":true}"));
    assert(body@ =~= body_text(all));
    body
}

/// Whether a credential can be sent in a header.
pub fn credential_is_valid(credential: &[u8]) -> (valid: bool)
    ensures
        valid == valid_credential(credential@),
{
    let mut k: usize = 0;
    while k < credential.len()
        invariant
            k <= credential@.len(),
            forall|m: int| 0 <= m < k ==> header_byte(#[trigger] credential@[m]),
        decreases credential@.len() - k,
    {
        let b = credential[k];
        if !(b == 0x09 || (b >= 0x20 && b != 0x7F)) {
            return false;
        }
        k += 1;
    }
    true
}

/// The value of the `Authorization` header for a credential.
pub fn bearer_value(credential: &[u8]) -> (value: Vec<u8>)
    ensures
        value@ == bearer(credential@),
{
    proof {
        reveal_strlit("Bearer ");
    }
    let mut value: Vec<u8> = Vec::new();
    append(&mut value, ascii_bytes("Bearer "));
    append(&mut value, credential);
    value
}

} // verus!
