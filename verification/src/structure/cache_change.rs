//! One sample, or one dispose or unregister event, as the cache stores it.

use crate::messages::serialized_payload::{SerializedPayload, SerializedPayloadView};
use crate::structure::guid::GUID;
use crate::structure::sequence_number::SequenceNumber;
use vstd::prelude::*;

verus! {

/// What a change says of its instance.
#[allow(non_camel_case_types)]
#[derive(Debug, Clone, Copy, PartialEq, Eq, Structural)]
pub enum ChangeKind {
    ALIVE,
    NOT_ALIVE_DISPOSED,
    NOT_ALIVE_UNREGISTERED,
}

/// What a `CacheChange` stands for.
pub struct CacheChangeView {
    pub kind: ChangeKind,
    pub writer_guid: GUID,
    pub sequence_number: SequenceNumber,
    pub data_value: Option<SerializedPayloadView>,
    pub instance_key_hash: u128,
}

impl CacheChangeView {
    /// The writer and the number that together name the change.
    pub open spec fn identity(self) -> (GUID, SequenceNumber) {
        (self.writer_guid, self.sequence_number)
    }
}

/// One change of one instance by one writer. The payload is absent where
/// the change only disposes of or unregisters the instance.
#[derive(Debug)]
pub struct CacheChange {
    pub kind: ChangeKind,
    pub writer_guid: GUID,
    pub sequence_number: SequenceNumber,
    pub data_value: Option<SerializedPayload>,
    pub instance_key_hash: u128,
}

impl View for CacheChange {
    type V = CacheChangeView;

    open spec fn view(&self) -> CacheChangeView {
        CacheChangeView {
            kind: self.kind,
            writer_guid: self.writer_guid,
            sequence_number: self.sequence_number,
            data_value: match self.data_value {
                Some(p) => Some(p@),
                None => None,
            },
            instance_key_hash: self.instance_key_hash,
        }
    }
}

impl CacheChange {
    /// The change with these parts.
    pub fn new(
        kind: ChangeKind,
        writer_guid: GUID,
        sequence_number: SequenceNumber,
        data_value: Option<SerializedPayload>,
        instance_key_hash: u128,
    ) -> (c: CacheChange)
        ensures
            c == (CacheChange { kind, writer_guid, sequence_number, data_value, instance_key_hash }),
    {
        CacheChange { kind, writer_guid, sequence_number, data_value, instance_key_hash }
    }
}

impl Clone for CacheChange {
    fn clone(&self) -> (c: CacheChange)
        ensures
            c@ == self@,
    {
        let data_value = match &self.data_value {
            Some(p) => Some(p.clone()),
            None => None,
        };
        CacheChange {
            kind: self.kind,
            writer_guid: self.writer_guid,
            sequence_number: self.sequence_number,
            data_value,
            instance_key_hash: self.instance_key_hash,
        }
    }
}

/// Two changes are the same change when the same writer gave them the same
/// number, whatever else they hold.
impl PartialEq for CacheChange {
    fn eq(&self, other: &CacheChange) -> (r: bool) {
        self.writer_guid == other.writer_guid && self.sequence_number == other.sequence_number
    }
}

impl vstd::std_specs::cmp::PartialEqSpecImpl for CacheChange {
    open spec fn obeys_eq_spec() -> bool {
        true
    }

    open spec fn eq_spec(&self, other: &CacheChange) -> bool {
        self@.identity() == other@.identity()
    }
}

} // verus!
