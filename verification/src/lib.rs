//! A DNS message codec and the decisions of a recursive resolver: the packet
//! buffer, the header, question and record sections, and the step logic that
//! walks the name-server hierarchy.

pub mod buf;
pub mod record;
pub mod api;
pub mod handlers;
pub mod roundtrip;
pub mod message_roundtrip;
pub mod wire_laws;
