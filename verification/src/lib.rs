//! Core of a browser chat client: the wire envelope protocol, the codec that
//! reads and writes the wire text, the session reducer that owns the roster
//! and the transcript, the outbound composer, and the event bus that relays
//! inbound frames to subscribers.

pub mod bus;
pub mod codec;
pub mod protocol;
pub mod session;
