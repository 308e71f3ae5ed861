//! A serialized sample with what the writer path needs to send it.

use bytes::Bytes;
use crate::dds::traits::{Key, Keyed, SerializerAdapter};
use crate::messages::serialized_payload::{
    bytes_clone, bytes_contents, bytes_new, RepresentationIdentifier, SerializedPayload,
    SerializedPayloadView,
};
use crate::structure::cache_change::ChangeKind;
use crate::structure::guid::EntityId;
use crate::structure::inline_qos::{KeyHash, StatusInfo};
use crate::structure::time::Timestamp;
use vstd::prelude::*;

verus! {

/// What a `DDSData` stands for.
pub struct DDSDataView {
    pub source_timestamp: Timestamp,
    pub change_kind: ChangeKind,
    pub reader_id: EntityId,
    pub writer_id: EntityId,
    pub value: Option<SerializedPayloadView>,
    pub value_key_hash: u128,
}

/// A serialized sample, or the announcement that an instance is gone, with
/// the time it was made and the endpoints it travels between.
#[derive(Debug)]
pub struct DDSData {
    source_timestamp: Timestamp,
    pub change_kind: ChangeKind,
    reader_id: EntityId,
    writer_id: EntityId,
    value: Option<SerializedPayload>,
    /// The hash of the key of the instance that this change is for.
    pub value_key_hash: u128,
}

impl View for DDSData {
    type V = DDSDataView;

    closed spec fn view(&self) -> DDSDataView {
        DDSDataView {
            source_timestamp: self.source_timestamp,
            change_kind: self.change_kind,
            reader_id: self.reader_id,
            writer_id: self.writer_id,
            value: match self.value {
                Some(p) => Some(p@),
                None => None,
            },
            value_key_hash: self.value_key_hash,
        }
    }
}

/// The payload that carries `octets` in little-endian CDR.
pub open spec fn cdr_le_payload(octets: Seq<u8>) -> SerializedPayloadView {
    SerializedPayloadView {
        representation_identifier: RepresentationIdentifier::CDR_LE.spec_to_u16(),
        representation_options: seq![0u8, 0u8],
        value: octets,
    }
}

/// The octets that stand for a sample: what the serializer gave, and none
/// where it failed.
pub open spec fn octets_or_none(serialized: Result<Seq<u8>, crate::serialization::Error>) -> Seq<
    u8,
> {
    match serialized {
        Ok(octets) => octets,
        Err(_) => Seq::empty(),
    }
}

impl DDSData {
    /// A living sample with the payload `payload`, made at `source_timestamp`;
    /// no endpoint is named yet and no key hash is set.
    pub fn new_with_timestamp(payload: SerializedPayload, source_timestamp: Timestamp) -> (d:
        DDSData)
        ensures
            d@ == (DDSDataView {
                source_timestamp,
                change_kind: ChangeKind::ALIVE,
                reader_id: EntityId::spec_unknown(),
                writer_id: EntityId::spec_unknown(),
                value: Some(payload@),
                value_key_hash: 0,
            }),
    {
        DDSData {
            source_timestamp,
            change_kind: ChangeKind::ALIVE,
            reader_id: EntityId::unknown(),
            writer_id: EntityId::unknown(),
            value: Some(payload),
            value_key_hash: 0,
        }
    }

    /// A living sample with the payload `payload`, made now.
    pub fn new(payload: SerializedPayload) -> (d: DDSData)
        ensures
            d@ == (DDSDataView {
                source_timestamp: d@.source_timestamp,
                change_kind: ChangeKind::ALIVE,
                reader_id: EntityId::spec_unknown(),
                writer_id: EntityId::spec_unknown(),
                value: Some(payload@),
                value_key_hash: 0,
            }),
    {
        DDSData::new_with_timestamp(payload, Timestamp::now())
    }

    /// A change without payload, made at `source_timestamp`: its kind is what
    /// `status_info` announces, alive where there is none, and its key hash
    /// is `key_hash`, zero where there is none.
    pub fn new_disposed_with_timestamp(
        status_info: Option<StatusInfo>,
        key_hash: Option<KeyHash>,
        source_timestamp: Timestamp,
    ) -> (d: DDSData)
        ensures
            d@ == (DDSDataView {
                source_timestamp,
                change_kind: match status_info {
                    Some(i) => i.spec_change_kind(),
                    None => ChangeKind::ALIVE,
                },
                reader_id: EntityId::spec_unknown(),
                writer_id: EntityId::spec_unknown(),
                value: None,
                value_key_hash: match key_hash {
                    Some(h) => h.spec_value(),
                    None => 0,
                },
            }),
    {
        let change_kind = match status_info {
            Some(i) => i.change_kind(),
            // no status means that the instance is still alive
            None => ChangeKind::ALIVE,
        };
        let value_key_hash = match key_hash {
            Some(v) => v,
            None => KeyHash::empty(),
        };
        DDSData {
            source_timestamp,
            change_kind,
            reader_id: EntityId::unknown(),
            writer_id: EntityId::unknown(),
            value: None,
            value_key_hash: value_key_hash.value(),
        }
    }

    /// A change without payload, made now: its kind is what `status_info`
    /// announces, alive where there is none, and its key hash is `key_hash`,
    /// zero where there is none.
    pub fn new_disposed(status_info: Option<StatusInfo>, key_hash: Option<KeyHash>) -> (d: DDSData)
        ensures
            d@ == (DDSDataView {
                source_timestamp: d@.source_timestamp,
                change_kind: match status_info {
                    Some(i) => i.spec_change_kind(),
                    None => ChangeKind::ALIVE,
                },
                reader_id: EntityId::spec_unknown(),
                writer_id: EntityId::spec_unknown(),
                value: None,
                value_key_hash: match key_hash {
                    Some(h) => h.spec_value(),
                    None => 0,
                },
            }),
    {
        DDSData::new_disposed_with_timestamp(status_info, key_hash, Timestamp::now())
    }

    /// A living sample of `data`, serialized by `SA` and tagged as
    /// little-endian CDR. Where the serializer fails the payload holds no
    /// octets. The sample is stamped `source_timestamp`, or with the present
    /// time where none is given.
    pub fn from<D, SA>(data: &D, source_timestamp: Option<Timestamp>) -> (d: DDSData)
        where
            D: Keyed,
            SA: SerializerAdapter<D>,
        ensures
            d@ == (DDSDataView {
                source_timestamp: match source_timestamp {
                    Some(t) => t,
                    None => d@.source_timestamp,
                },
                change_kind: ChangeKind::ALIVE,
                reader_id: EntityId::spec_unknown(),
                writer_id: EntityId::spec_unknown(),
                value: Some(cdr_le_payload(octets_or_none(SA::encoded(data)))),
                value_key_hash: 0,
            }),
    {
        let value = DDSData::serialize_data::<D, SA>(data);
        let ts: Timestamp = match source_timestamp {
            Some(t) => t,
            None => Timestamp::now(),
        };
        let serialized_payload = SerializedPayload::new(RepresentationIdentifier::CDR_LE, value);
        DDSData::new_with_timestamp(serialized_payload, ts)
    }

    /// The announcement that an instance is disposed of, made at
    /// `source_timestamp`: it carries the key of the instance as its payload
    /// and the hash of the key beside it.
    pub fn new_dispose_with_timestamp(
        key_payload: SerializedPayload,
        key_hash: KeyHash,
        source_timestamp: Timestamp,
    ) -> (d: DDSData)
        ensures
            d@ == (DDSDataView {
                source_timestamp,
                change_kind: ChangeKind::NOT_ALIVE_DISPOSED,
                reader_id: EntityId::spec_unknown(),
                writer_id: EntityId::spec_unknown(),
                value: Some(key_payload@),
                value_key_hash: key_hash.spec_value(),
            }),
    {
        DDSData {
            source_timestamp,
            change_kind: ChangeKind::NOT_ALIVE_DISPOSED,
            reader_id: EntityId::unknown(),
            writer_id: EntityId::unknown(),
            value: Some(key_payload),
            value_key_hash: key_hash.value(),
        }
    }

    /// The announcement that the instance with the key `key` is disposed of.
    /// Its payload holds the key alone, serialized by `SA` and tagged as
    /// little-endian CDR, and the hash of the key travels beside it. Where
    /// the serializer fails the payload holds no octets. It is stamped
    /// `source_timestamp`, or with the present time where none is given.
    pub fn from_dispose<D, SA>(key: <D as Keyed>::K, source_timestamp: Option<Timestamp>) -> (d:
        DDSData)
        where
            D: Keyed,
            SA: SerializerAdapter<D::K>,
        ensures
            d@ == (DDSDataView {
                source_timestamp: match source_timestamp {
                    Some(t) => t,
                    None => d@.source_timestamp,
                },
                change_kind: ChangeKind::NOT_ALIVE_DISPOSED,
                reader_id: EntityId::spec_unknown(),
                writer_id: EntityId::spec_unknown(),
                value: Some(cdr_le_payload(octets_or_none(SA::encoded(&key)))),
                value_key_hash: key.spec_hash_key(),
            }),
    {
        let ts: Timestamp = match source_timestamp {
            Some(t) => t,
            None => Timestamp::now(),
        };
        let octets = match SA::to_bytes(&key) {
            Ok(v) => v,
            Err(_) => Vec::new(),
        };
        let key_payload = SerializedPayload::new(RepresentationIdentifier::CDR_LE, octets);
        DDSData::new_dispose_with_timestamp(key_payload, KeyHash::new(key.into_hash_key()), ts)
    }

    /// The octets of `data` by the serializer `SA`; none where it fails.
    fn serialize_data<D, SA>(data: &D) -> (value: Vec<u8>)
        where
            D: Keyed,
            SA: SerializerAdapter<D>,
        ensures
            value@ == octets_or_none(SA::encoded(data)),
    {
        match SA::to_bytes(data) {
            Ok(v) => v,
            Err(_) => Vec::new(),
        }
    }

    /// The time the sample was made.
    pub fn source_timestamp(&self) -> (t: Timestamp)
        ensures
            t == self@.source_timestamp,
    {
        self.source_timestamp
    }

    /// What the change says of its instance.
    pub fn change_kind(&self) -> (k: ChangeKind)
        ensures
            k == self@.change_kind,
    {
        self.change_kind
    }

    /// The hash of the key of the instance that the change is for.
    pub fn value_key_hash(&self) -> (h: u128)
        ensures
            h == self@.value_key_hash,
    {
        self.value_key_hash
    }

    /// The reader that the sample is meant for.
    pub fn reader_id(&self) -> (id: &EntityId)
        ensures
            *id == self@.reader_id,
    {
        &self.reader_id
    }

    /// Names the reader that the sample is meant for.
    pub fn set_reader_id(&mut self, reader_id: EntityId)
        ensures
            final(self)@ == (DDSDataView { reader_id, ..old(self)@ }),
    {
        self.reader_id = reader_id;
    }

    /// The writer that sends the sample.
    pub fn writer_id(&self) -> (id: &EntityId)
        ensures
            *id == self@.writer_id,
    {
        &self.writer_id
    }

    /// Names the writer that sends the sample.
    pub fn set_writer_id(&mut self, writer_id: EntityId)
        ensures
            final(self)@ == (DDSDataView { writer_id, ..old(self)@ }),
    {
        self.writer_id = writer_id;
    }

    /// A copy of the payload, if there is one.
    pub fn value(&self) -> (v: Option<SerializedPayload>)
        ensures
            match v {
                Some(p) => self@.value == Some(p@),
                None => self@.value is None,
            },
    {
        match &self.value {
            Some(p) => Some(p.clone()),
            None => None,
        }
    }

    /// The payload's octets; none where there is no payload.
    pub fn data(&self) -> (b: Bytes)
        ensures
            bytes_contents(b) == match self@.value {
                Some(p) => p.value,
                None => Seq::<u8>::empty(),
            },
    {
        match &self.value {
            Some(val) => bytes_clone(&val.value),
            None => bytes_new(),
        }
    }
}

impl Clone for DDSData {
    fn clone(&self) -> (d: DDSData)
        ensures
            d@ == self@,
    {
        DDSData {
            source_timestamp: self.source_timestamp,
            change_kind: self.change_kind,
            reader_id: self.reader_id,
            writer_id: self.writer_id,
            value: self.value(),
            value_key_hash: self.value_key_hash,
        }
    }
}

impl PartialEq for DDSData {
    fn eq(&self, other: &DDSData) -> (r: bool) {
        let values_equal = match (&self.value, &other.value) {
            (Some(a), Some(b)) => a == b,
            (None, None) => true,
            _ => false,
        };
        self.source_timestamp == other.source_timestamp && self.change_kind == other.change_kind
            && self.reader_id == other.reader_id && self.writer_id == other.writer_id
            && values_equal && self.value_key_hash == other.value_key_hash
    }
}

impl vstd::std_specs::cmp::PartialEqSpecImpl for DDSData {
    open spec fn obeys_eq_spec() -> bool {
        true
    }

    open spec fn eq_spec(&self, other: &DDSData) -> bool {
        self@ == other@
    }
}

} // verus!
