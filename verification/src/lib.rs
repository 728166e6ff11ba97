//! Client-side core of a real-time chat session.
//!
//! The library keeps the local view of who is online and what has been said.
//! It is built from four parts: the wire types ([`wire`]), the canonical text
//! codec for the wire envelope ([`codec`]), the session state and its reducer
//! ([`session`]), and the builders for the two outbound user actions
//! ([`outbound`]). The transport socket and the event bridge that deliver
//! frames are external collaborators: they hand this library plain text and
//! take plain text back.

pub mod codec;
pub mod outbound;
pub mod session;
pub mod wire;
