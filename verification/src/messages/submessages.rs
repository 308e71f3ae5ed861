//! The submessages that readers and writers exchange.

use crate::messages::serialized_payload::{SerializedPayload, SerializedPayloadView};
use crate::structure::guid::{EntityId, GuidPrefix};
use crate::structure::inline_qos::{KeyHash, StatusInfo};
use crate::structure::locator::Locator;
use crate::structure::sequence_number::{SequenceNumber, SequenceNumberSet};
use crate::structure::time::Timestamp;
use vstd::prelude::*;

verus! {

/// The inline parameters of a DATA submessage that the core reads.
#[derive(Debug, Clone, Copy, PartialEq, Eq, Structural)]
pub struct InlineQos {
    pub status_info: Option<StatusInfo>,
    pub key_hash: Option<KeyHash>,
}

/// One change of a writer on its way to a reader.
#[derive(Debug)]
pub struct Data {
    pub reader_id: EntityId,
    pub writer_id: EntityId,
    pub writer_sn: SequenceNumber,
    pub inline_qos: Option<InlineQos>,
    pub serialized_payload: Option<SerializedPayload>,
    /// Whether the payload holds the key of the instance and not a sample;
    /// it says nothing where there is no payload.
    pub payload_is_key: bool,
}

/// What a `Data` stands for.
pub struct DataView {
    pub reader_id: EntityId,
    pub writer_id: EntityId,
    pub writer_sn: SequenceNumber,
    pub inline_qos: Option<InlineQos>,
    pub serialized_payload: Option<SerializedPayloadView>,
    /// Whether there is a payload and it holds the key of the instance.
    pub payload_is_key: bool,
}

impl View for Data {
    type V = DataView;

    open spec fn view(&self) -> DataView {
        DataView {
            reader_id: self.reader_id,
            writer_id: self.writer_id,
            writer_sn: self.writer_sn,
            inline_qos: self.inline_qos,
            serialized_payload: match self.serialized_payload {
                Some(p) => Some(p@),
                None => None,
            },
            payload_is_key: self.payload_is_key && self.serialized_payload is Some,
        }
    }
}

impl Default for Data {
    fn default() -> (d: Data)
        ensures
            d@ == (DataView {
                reader_id: EntityId::spec_unknown(),
                writer_id: EntityId::spec_unknown(),
                writer_sn: SequenceNumber(1),
                inline_qos: None,
                serialized_payload: None,
                payload_is_key: false,
            }),
    {
        Data {
            reader_id: EntityId::unknown(),
            writer_id: EntityId::unknown(),
            writer_sn: SequenceNumber(1),
            inline_qos: None,
            serialized_payload: None,
            payload_is_key: false,
        }
    }
}

/// A writer's word on which of its changes are to be had.
#[derive(Debug, Clone, Copy, PartialEq, Eq, Structural)]
pub struct Heartbeat {
    pub reader_id: EntityId,
    pub writer_id: EntityId,
    pub first_sn: SequenceNumber,
    pub last_sn: SequenceNumber,
    pub count: i32,
    /// The writer asks for no answer.
    pub final_flag: bool,
    pub liveliness_flag: bool,
}

/// A reader's word on which changes it has and which it misses.
pub struct AckNack {
    pub reader_id: EntityId,
    pub writer_id: EntityId,
    pub reader_sn_state: SequenceNumberSet,
    pub count: i32,
    pub final_flag: bool,
}

/// What an `AckNack` stands for.
pub struct AckNackView {
    pub reader_id: EntityId,
    pub writer_id: EntityId,
    pub base: SequenceNumber,
    pub bits: Seq<bool>,
    pub count: i32,
    pub final_flag: bool,
}

impl View for AckNack {
    type V = AckNackView;

    open spec fn view(&self) -> AckNackView {
        AckNackView {
            reader_id: self.reader_id,
            writer_id: self.writer_id,
            base: SequenceNumber(self.reader_sn_state.spec_base() as i64),
            bits: self.reader_sn_state.spec_bits(),
            count: self.count,
            final_flag: self.final_flag,
        }
    }
}

/// A writer's word on which of its numbers stand for no change any more.
pub struct Gap {
    pub reader_id: EntityId,
    pub writer_id: EntityId,
    pub gap_start: SequenceNumber,
    pub gap_list: SequenceNumberSet,
}

/// What a `Gap` stands for.
pub struct GapView {
    pub reader_id: EntityId,
    pub writer_id: EntityId,
    pub gap_start: SequenceNumber,
    pub base: SequenceNumber,
    pub bits: Seq<bool>,
}

impl View for Gap {
    type V = GapView;

    open spec fn view(&self) -> GapView {
        GapView {
            reader_id: self.reader_id,
            writer_id: self.writer_id,
            gap_start: self.gap_start,
            base: SequenceNumber(self.gap_list.spec_base() as i64),
            bits: self.gap_list.spec_bits(),
        }
    }
}

/// The time at which the submessages that follow were made.
#[derive(Debug, Clone, Copy, PartialEq, Eq, Structural)]
pub struct InfoTimestamp {
    /// `None` says that the time is not known from here on.
    pub timestamp: Option<Timestamp>,
}

/// The participant that the submessages that follow are meant for.
#[derive(Debug, Clone, Copy)]
pub struct InfoDestination {
    pub guid_prefix: GuidPrefix,
}

/// The participant that the submessages that follow come from.
#[derive(Debug, Clone, Copy)]
pub struct InfoSource {
    pub protocol_major: u8,
    pub protocol_minor: u8,
    pub vendor_id0: u8,
    pub vendor_id1: u8,
    pub guid_prefix: GuidPrefix,
}

/// Where answers to the submessages that follow are to go.
pub struct InfoReply {
    pub unicast_locator_list: Vec<Locator>,
    /// Where answers to a group are to go, where the submessage says so.
    pub multicast_locator_list: Option<Vec<Locator>>,
}

/// What an `InfoReply` stands for.
pub struct InfoReplyView {
    pub unicast_locator_list: Seq<Locator>,
    pub multicast_locator_list: Option<Seq<Locator>>,
}

impl View for InfoReply {
    type V = InfoReplyView;

    open spec fn view(&self) -> InfoReplyView {
        InfoReplyView {
            unicast_locator_list: self.unicast_locator_list@,
            multicast_locator_list: match self.multicast_locator_list {
                Some(list) => Some(list@),
                None => None,
            },
        }
    }
}

} // verus!
