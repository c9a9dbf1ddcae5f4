//! A single-user task tracker: an in-memory ordered task collection with a
//! stable identifier policy, and a text codec that persists it with a proved
//! round trip.

pub mod store;
pub mod digits;
pub mod codec;
