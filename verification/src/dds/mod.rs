//! Samples and the readers that hand them to the application, the
//! receiving and the sending side of a topic, the receiver of messages, and
//! what a participant and its event loop decide.

pub mod datasample;
pub mod datasample_cache;
pub mod ddsdata;
pub mod dp_event_loop;
pub mod message_receiver;
pub mod participant;
pub mod qos;
pub mod readcondition;
pub mod reader;
pub mod result;
pub mod sampleinfo;
pub mod sorting;
pub mod traits;
pub mod writer;
pub mod with_key;
