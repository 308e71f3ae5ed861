//! Where on the network the participants of a domain meet.

pub mod constant;
