//! The core of a relay for streamed chat completions.
//!
//! A session takes what arrives on the connection to the endpoint, frame by
//! frame, and says what is to be published to the subscriber of the stream.
//! It neither reads from the network nor publishes: its caller does both,
//! and hands it one input at a time.
//!
//! - `sse` splits the bytes of the response into frames.
//! - `chunk` classifies the data of one frame, with the help of `json`.
//! - `session` is the state machine of one stream, and states what holds of
//!   every run of it.
//! - `registry` knows which streams are live and which were asked to stop.
//! - `request` and `writer` write the request that opens a stream.
//! - `event` says under which topic and with which payload an event goes out.
//! - `attachment` encodes files that go along with a message.
//!
//! Texts are byte strings in UTF-8 throughout.

pub mod attachment;
pub mod bytes;
pub mod chunk;
pub mod event;
pub mod json;
pub mod registry;
pub mod request;
pub mod session;
pub mod sse;
pub mod writer;
