//! Streaming-response aggregation for a chat-completion style API.
//!
//! The heart of the crate is the server-sent-event aggregator: it consumes a
//! chunked byte stream, reassembles discrete event blocks across arbitrary
//! chunk boundaries, interprets two streaming protocols, and produces a final
//! message together with deduplicated citations.
#![verifier::loop_isolation(false)]

pub mod adapter;
pub mod aggregate;
pub mod cite;
pub mod config;
pub mod events;
pub mod image;
pub mod json;
pub mod laws;
pub mod model;
pub mod session;
pub mod render;
pub mod request;
pub mod text;

use vstd::prelude::*;

verus! {

/// A chat message as handed to the streaming endpoints.
#[derive(Clone, Debug)]
pub struct WebMessage {
    pub role: String,
    pub content: String,
}

} // verus!
