//! Client-side core of a small chat protocol: a codec for the tagged JSON
//! envelope exchanged with the server, a multicast event bus that fans one
//! inbound frame stream out to many subscribers, and the per-widget session
//! state machine that keeps the roster and the transcript in sync.

pub mod bus;
pub mod codec;
pub mod session;
mod strutil;
