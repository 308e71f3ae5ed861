//! The forms that travel in datagrams.

pub mod codec;
pub mod message;
pub mod serialized_payload;
pub mod submessages;
pub mod wire;
