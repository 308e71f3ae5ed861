//! The wire forms of submessages.

use crate::messages::serialized_payload::{
    bytes_as_slice, bytes_from_vec, SerializedPayload, SerializedPayloadView,
};
use crate::messages::submessages::{
    AckNack, AckNackView, Data, DataView, Gap, GapView, Heartbeat, InfoDestination, InfoReply,
    InfoReplyView, InfoSource, InfoTimestamp, InlineQos,
};
use crate::messages::wire::{
    entity_id_octets, entity_id_of, get_entity_id, get_guid_prefix, get_locator_list,
    get_sequence_number, get_sequence_number_set, get_timestamp, guid_prefix_octets, guid_prefix_of,
    lemma_entity_id_round_trip, lemma_guid_prefix_round_trip, lemma_locator_list_round_trip,
    lemma_sequence_number_round_trip, lemma_sequence_number_set_len,
    lemma_sequence_number_set_round_trip, lemma_timestamp_round_trip, locator_list_len,
    locator_list_octets, locator_list_of, put_entity_id, put_guid_prefix, put_locator_list,
    put_sequence_number, put_sequence_number_set, put_timestamp, sequence_number_octets,
    sequence_number_of, sequence_number_set_len, sequence_number_set_octets, sequence_number_set_of,
    timestamp_octets, timestamp_of, word_count,
};
use crate::serialization::{
    big_endian_value, endian_value, get_uint, i32_from_wire, i32_to_wire, lemma_octet_ranges,
    lemma_octets_of, lemma_octets_of_value, octet_range, octets_of, put_uint, read_u128_be,
    read_u128_le, signed_32, unsigned_32, Endianness, Error,
};
use crate::structure::inline_qos::{KeyHash, StatusInfo, STATUS_INFO_ALL_FLAGS};
use crate::structure::sequence_number::SEQUENCE_NUMBER_SET_MAX_BITS;
use vstd::prelude::*;
use vstd::slice::{slice_subrange, slice_to_vec};

verus! {

/// The kind octet of a submessage that only fills space.
pub const SUBMESSAGE_KIND_PAD: u8 = 0x01;

/// The kind octet of a submessage that holds an acknowledgement.
pub const SUBMESSAGE_KIND_ACKNACK: u8 = 0x06;

/// The kind octet of a submessage that holds a heartbeat.
pub const SUBMESSAGE_KIND_HEARTBEAT: u8 = 0x07;

/// The kind octet of a submessage that holds a gap.
pub const SUBMESSAGE_KIND_GAP: u8 = 0x08;

/// The kind octet of a submessage that holds a timestamp for the submessages that follow.
pub const SUBMESSAGE_KIND_INFO_TS: u8 = 0x09;

/// The kind octet of a submessage that holds the source of the submessages that follow.
pub const SUBMESSAGE_KIND_INFO_SRC: u8 = 0x0c;

/// The kind octet of a submessage that holds reply locators in their short form.
pub const SUBMESSAGE_KIND_INFO_REPLY_IP4: u8 = 0x0d;

/// The kind octet of a submessage that holds the destination of the submessages that follow.
pub const SUBMESSAGE_KIND_INFO_DST: u8 = 0x0e;

/// The kind octet of a submessage that holds reply locators.
pub const SUBMESSAGE_KIND_INFO_REPLY: u8 = 0x0f;

/// The kind octet of a submessage that holds an acknowledgement of fragments.
pub const SUBMESSAGE_KIND_NACK_FRAG: u8 = 0x12;

/// The kind octet of a submessage that holds a heartbeat of fragments.
pub const SUBMESSAGE_KIND_HEARTBEAT_FRAG: u8 = 0x13;

/// The kind octet of a submessage that holds a change.
pub const SUBMESSAGE_KIND_DATA: u8 = 0x15;

/// The kind octet of a submessage that holds a fragment of a change.
pub const SUBMESSAGE_KIND_DATA_FRAG: u8 = 0x16;

/// Whether the flag at the place `place` is set in the flag octet: place 0
/// is the least significant bit.
pub open spec fn spec_flag(flags: u8, place: nat) -> bool {
    if place == 0 {
        flags % 2 == 1
    } else if place == 1 {
        (flags / 2) % 2 == 1
    } else if place == 2 {
        (flags / 4) % 2 == 1
    } else {
        (flags / 8) % 2 == 1
    }
}

/// Whether the flag at the place `place` is set in the flag octet.
pub fn flag(flags: u8, place: usize) -> (b: bool)
    ensures
        b == spec_flag(flags, place as nat),
{
    if place == 0 {
        flags % 2 == 1
    } else if place == 1 {
        (flags / 2) % 2 == 1
    } else if place == 2 {
        (flags / 4) % 2 == 1
    } else {
        (flags / 8) % 2 == 1
    }
}

/// The flag octet with the four lowest flags as given.
pub open spec fn spec_flags_of(f0: bool, f1: bool, f2: bool, f3: bool) -> u8 {
    ((if f0 {
        1int
    } else {
        0int
    }) + (if f1 {
        2int
    } else {
        0int
    }) + (if f2 {
        4int
    } else {
        0int
    }) + (if f3 {
        8int
    } else {
        0int
    })) as u8
}

/// The flag octet with the four lowest flags as given.
#[verifier::when_used_as_spec(spec_flags_of)]
pub fn flags_of(f0: bool, f1: bool, f2: bool, f3: bool) -> (flags: u8)
    ensures
        flags == spec_flags_of(f0, f1, f2, f3),
        spec_flag(flags, 0) == f0,
        spec_flag(flags, 1) == f1,
        spec_flag(flags, 2) == f2,
        spec_flag(flags, 3) == f3,
{
    let mut flags: u8 = 0;
    if f0 {
        flags += 1;
    }
    if f1 {
        flags += 2;
    }
    if f2 {
        flags += 4;
    }
    if f3 {
        flags += 8;
    }
    flags
}

/// The byte order that a flag octet announces: little-endian where its
/// lowest flag is set.
pub open spec fn spec_endianness_of(flags: u8) -> Endianness {
    if spec_flag(flags, 0) {
        Endianness::LittleEndian
    } else {
        Endianness::BigEndian
    }
}

/// The byte order that a flag octet announces.
#[verifier::when_used_as_spec(spec_endianness_of)]
pub fn endianness_of(flags: u8) -> (e: Endianness)
    ensures
        e == spec_endianness_of(flags),
{
    if flag(flags, 0) {
        Endianness::LittleEndian
    } else {
        Endianness::BigEndian
    }
}

/// Whether the byte order is little-endian: the value of the lowest flag.
pub open spec fn spec_is_little(e: Endianness) -> bool {
    e == Endianness::LittleEndian
}

/// Whether the byte order is little-endian: the value of the lowest flag.
#[verifier::when_used_as_spec(spec_is_little)]
pub fn is_little(e: Endianness) -> (b: bool)
    ensures
        b == spec_is_little(e),
{
    match e {
        Endianness::LittleEndian => true,
        Endianness::BigEndian => false,
    }
}

/// The body of a HEARTBEAT submessage.
pub open spec fn heartbeat_octets(hb: Heartbeat, e: Endianness) -> Seq<u8> {
    entity_id_octets(hb.reader_id) + entity_id_octets(hb.writer_id) + sequence_number_octets(
        hb.first_sn,
        e,
    ) + sequence_number_octets(hb.last_sn, e) + octets_of(e, unsigned_32(hb.count as int), 4)
}

/// The flag octet of a HEARTBEAT submessage.
pub open spec fn heartbeat_flags(hb: Heartbeat, e: Endianness) -> u8 {
    spec_flags_of(spec_is_little(e), hb.final_flag, hb.liveliness_flag, false)
}

/// The HEARTBEAT submessage that a body and a flag octet spell.
pub open spec fn heartbeat_of(body: Seq<u8>, flags: u8) -> Result<Heartbeat, Error> {
    let e = spec_endianness_of(flags);
    if body.len() < 28 {
        Err(Error::Eof)
    } else {
        Ok(
            Heartbeat {
                reader_id: entity_id_of(body.subrange(0, 4)),
                writer_id: entity_id_of(body.subrange(4, 8)),
                first_sn: sequence_number_of(body.subrange(8, 16), e),
                last_sn: sequence_number_of(body.subrange(16, 24), e),
                count: signed_32(endian_value(e, body.subrange(24, 28))) as i32,
                final_flag: spec_flag(flags, 1),
                liveliness_flag: spec_flag(flags, 2),
            },
        )
    }
}

/// A HEARTBEAT submessage comes back from its wire form.
pub proof fn lemma_heartbeat_round_trip(hb: Heartbeat, e: Endianness)
    ensures
        heartbeat_octets(hb, e).len() == 28,
        heartbeat_of(heartbeat_octets(hb, e), heartbeat_flags(hb, e)) == Ok::<Heartbeat, Error>(hb),
{
    let body = heartbeat_octets(hb, e);
    lemma_entity_id_round_trip(hb.reader_id);
    lemma_entity_id_round_trip(hb.writer_id);
    lemma_sequence_number_round_trip(hb.first_sn, e);
    lemma_sequence_number_round_trip(hb.last_sn, e);
    lemma_octet_ranges();
    lemma_octets_of(e, unsigned_32(hb.count as int), 4);
    assert(body.subrange(0, 4) =~= entity_id_octets(hb.reader_id));
    assert(body.subrange(4, 8) =~= entity_id_octets(hb.writer_id));
    assert(body.subrange(8, 16) =~= sequence_number_octets(hb.first_sn, e));
    assert(body.subrange(16, 24) =~= sequence_number_octets(hb.last_sn, e));
    assert(body.subrange(24, 28) =~= octets_of(e, unsigned_32(hb.count as int), 4));
}

impl Heartbeat {
    /// The flag octet of the submessage in the given byte order.
    pub fn flags(&self, e: Endianness) -> (flags: u8)
        ensures
            flags == heartbeat_flags(*self, e),
    {
        flags_of(is_little(e), self.final_flag, self.liveliness_flag, false)
    }

    /// Puts the body of the submessage behind `out`.
    pub fn write_body(&self, out: &mut Vec<u8>, e: Endianness)
        ensures
            final(out)@ == old(out)@ + heartbeat_octets(*self, e),
    {
        put_entity_id(out, self.reader_id);
        put_entity_id(out, self.writer_id);
        put_sequence_number(out, self.first_sn, e);
        put_sequence_number(out, self.last_sn, e);
        put_uint(out, i32_to_wire(self.count) as u64, 4, e);
        assert(out@ =~= old(out)@ + heartbeat_octets(*self, e));
    }

    /// The submessage that the body and the flag octet spell.
    pub fn read_body(body: &[u8], flags: u8) -> (r: Result<Heartbeat, Error>)
        ensures
            r == heartbeat_of(body@, flags),
    {
        let e = endianness_of(flags);
        if body.len() < 28 {
            return Err(Error::Eof);
        }
        let count = get_uint(body, 24, 4, e);
        proof {
            lemma_octet_ranges();
        }
        Ok(
            Heartbeat {
                reader_id: get_entity_id(body, 0),
                writer_id: get_entity_id(body, 4),
                first_sn: get_sequence_number(body, 8, e),
                last_sn: get_sequence_number(body, 16, e),
                count: i32_from_wire(count as u32),
                final_flag: flag(flags, 1),
                liveliness_flag: flag(flags, 2),
            },
        )
    }
}

/// The body of an INFO_TS submessage: the timestamp, and nothing where the
/// time is declared unknown.
pub open spec fn info_timestamp_octets(info: InfoTimestamp, e: Endianness) -> Seq<u8> {
    match info.timestamp {
        Some(t) => timestamp_octets(t, e),
        None => Seq::empty(),
    }
}

/// The flag octet of an INFO_TS submessage.
pub open spec fn info_timestamp_flags(info: InfoTimestamp, e: Endianness) -> u8 {
    spec_flags_of(spec_is_little(e), info.timestamp is None, false, false)
}

/// The INFO_TS submessage that a body and a flag octet spell.
pub open spec fn info_timestamp_of(body: Seq<u8>, flags: u8) -> Result<InfoTimestamp, Error> {
    if spec_flag(flags, 1) {
        Ok(InfoTimestamp { timestamp: None })
    } else if body.len() < 8 {
        Err(Error::Eof)
    } else {
        Ok(
            InfoTimestamp {
                timestamp: Some(timestamp_of(body.subrange(0, 8), spec_endianness_of(flags))),
            },
        )
    }
}

/// An INFO_TS submessage comes back from its wire form.
pub proof fn lemma_info_timestamp_round_trip(info: InfoTimestamp, e: Endianness)
    ensures
        info_timestamp_of(info_timestamp_octets(info, e), info_timestamp_flags(info, e)) == Ok::<
            InfoTimestamp,
            Error,
        >(info),
{
    match info.timestamp {
        Some(t) => {
            lemma_timestamp_round_trip(t, e);
            assert(info_timestamp_octets(info, e).subrange(0, 8) =~= timestamp_octets(t, e));
        },
        None => {},
    }
}

impl InfoTimestamp {
    /// The flag octet of the submessage in the given byte order.
    pub fn flags(&self, e: Endianness) -> (flags: u8)
        ensures
            flags == info_timestamp_flags(*self, e),
    {
        flags_of(is_little(e), self.timestamp.is_none(), false, false)
    }

    /// Puts the body of the submessage behind `out`.
    pub fn write_body(&self, out: &mut Vec<u8>, e: Endianness)
        ensures
            final(out)@ == old(out)@ + info_timestamp_octets(*self, e),
    {
        match self.timestamp {
            Some(t) => put_timestamp(out, t, e),
            None => {
                assert(out@ =~= old(out)@ + info_timestamp_octets(*self, e));
            },
        }
    }

    /// The submessage that the body and the flag octet spell.
    pub fn read_body(body: &[u8], flags: u8) -> (r: Result<InfoTimestamp, Error>)
        ensures
            r == info_timestamp_of(body@, flags),
    {
        if flag(flags, 1) {
            return Ok(InfoTimestamp { timestamp: None });
        }
        if body.len() < 8 {
            return Err(Error::Eof);
        }
        Ok(InfoTimestamp { timestamp: Some(get_timestamp(body, 0, endianness_of(flags))) })
    }
}

/// The body of an INFO_DST submessage.
pub open spec fn info_destination_octets(info: InfoDestination) -> Seq<u8> {
    guid_prefix_octets(info.guid_prefix)
}

/// The INFO_DST submessage that a body spells.
pub open spec fn info_destination_of(body: Seq<u8>) -> Result<InfoDestination, Error> {
    if body.len() < 12 {
        Err(Error::Eof)
    } else {
        Ok(InfoDestination { guid_prefix: guid_prefix_of(body.subrange(0, 12)) })
    }
}

/// An INFO_DST submessage comes back from its wire form.
pub proof fn lemma_info_destination_round_trip(info: InfoDestination)
    ensures
        info_destination_of(info_destination_octets(info)) == Ok::<InfoDestination, Error>(info),
        info_destination_octets(info).len() == 12,
{
    lemma_guid_prefix_round_trip(info.guid_prefix);
    assert(info_destination_octets(info).subrange(0, 12) =~= guid_prefix_octets(info.guid_prefix));
}

impl InfoDestination {
    /// Puts the body of the submessage behind `out`.
    pub fn write_body(&self, out: &mut Vec<u8>)
        ensures
            final(out)@ == old(out)@ + info_destination_octets(*self),
    {
        put_guid_prefix(out, self.guid_prefix);
    }

    /// The submessage that the body spells.
    pub fn read_body(body: &[u8]) -> (r: Result<InfoDestination, Error>)
        ensures
            r == info_destination_of(body@),
    {
        if body.len() < 12 {
            return Err(Error::Eof);
        }
        Ok(InfoDestination { guid_prefix: get_guid_prefix(body, 0) })
    }
}

/// The body of an INFO_SRC submessage: four unused octets, the protocol
/// version, the vendor and the prefix.
pub open spec fn info_source_octets(info: InfoSource) -> Seq<u8> {
    seq![
        0u8,
        0u8,
        0u8,
        0u8,
        info.protocol_major,
        info.protocol_minor,
        info.vendor_id0,
        info.vendor_id1,
    ] + guid_prefix_octets(info.guid_prefix)
}

/// The INFO_SRC submessage that a body spells.
pub open spec fn info_source_of(body: Seq<u8>) -> Result<InfoSource, Error> {
    if body.len() < 20 {
        Err(Error::Eof)
    } else {
        Ok(
            InfoSource {
                protocol_major: body[4],
                protocol_minor: body[5],
                vendor_id0: body[6],
                vendor_id1: body[7],
                guid_prefix: guid_prefix_of(body.subrange(8, 20)),
            },
        )
    }
}

/// An INFO_SRC submessage comes back from its wire form.
pub proof fn lemma_info_source_round_trip(info: InfoSource)
    ensures
        info_source_of(info_source_octets(info)) == Ok::<InfoSource, Error>(info),
        info_source_octets(info).len() == 20,
{
    lemma_guid_prefix_round_trip(info.guid_prefix);
    assert(info_source_octets(info).subrange(8, 20) =~= guid_prefix_octets(info.guid_prefix));
}

impl InfoSource {
    /// Puts the body of the submessage behind `out`.
    pub fn write_body(&self, out: &mut Vec<u8>)
        ensures
            final(out)@ == old(out)@ + info_source_octets(*self),
    {
        out.push(0);
        out.push(0);
        out.push(0);
        out.push(0);
        out.push(self.protocol_major);
        out.push(self.protocol_minor);
        out.push(self.vendor_id0);
        out.push(self.vendor_id1);
        put_guid_prefix(out, self.guid_prefix);
        assert(out@ =~= old(out)@ + info_source_octets(*self));
    }

    /// The submessage that the body spells.
    pub fn read_body(body: &[u8]) -> (r: Result<InfoSource, Error>)
        ensures
            r == info_source_of(body@),
    {
        if body.len() < 20 {
            return Err(Error::Eof);
        }
        Ok(
            InfoSource {
                protocol_major: body[4],
                protocol_minor: body[5],
                vendor_id0: body[6],
                vendor_id1: body[7],
                guid_prefix: get_guid_prefix(body, 8),
            },
        )
    }
}

/// The body of an ACKNACK submessage.
pub open spec fn acknack_octets(ack: AckNackView, e: Endianness) -> Seq<u8> {
    entity_id_octets(ack.reader_id) + entity_id_octets(ack.writer_id)
        + sequence_number_set_octets(ack.base, ack.bits, e) + octets_of(
        e,
        unsigned_32(ack.count as int),
        4,
    )
}

/// The flag octet of an ACKNACK submessage.
pub open spec fn acknack_flags(ack: AckNackView, e: Endianness) -> u8 {
    spec_flags_of(spec_is_little(e), ack.final_flag, false, false)
}

/// The ACKNACK submessage that a body and a flag octet spell.
pub open spec fn acknack_of(body: Seq<u8>, flags: u8) -> Result<AckNackView, Error> {
    let e = spec_endianness_of(flags);
    if body.len() < 8 {
        Err(Error::Eof)
    } else {
        let rest = body.subrange(8, body.len() as int);
        match sequence_number_set_of(rest, e) {
            Err(err) => Err(err),
            Ok((base, bits)) => {
                let at = 8 + sequence_number_set_len(rest, e);
                if body.len() < at + 4 {
                    Err(Error::Eof)
                } else {
                    Ok(
                        AckNackView {
                            reader_id: entity_id_of(body.subrange(0, 4)),
                            writer_id: entity_id_of(body.subrange(4, 8)),
                            base,
                            bits,
                            count: signed_32(endian_value(e, body.subrange(at, at + 4))) as i32,
                            final_flag: spec_flag(flags, 1),
                        },
                    )
                }
            },
        }
    }
}

/// An ACKNACK submessage comes back from its wire form.
pub proof fn lemma_acknack_round_trip(ack: AckNackView, e: Endianness)
    requires
        ack.bits.len() <= SEQUENCE_NUMBER_SET_MAX_BITS,
        ack.base.0 + ack.bits.len() <= i64::MAX + 1,
    ensures
        acknack_octets(ack, e).len() == 8 + 12 + 4 * word_count(ack.bits.len()) + 4,
        acknack_of(acknack_octets(ack, e), acknack_flags(ack, e)) == Ok::<AckNackView, Error>(ack),
{
    let body = acknack_octets(ack, e);
    let set = sequence_number_set_octets(ack.base, ack.bits, e);
    let count = octets_of(e, unsigned_32(ack.count as int), 4);
    lemma_entity_id_round_trip(ack.reader_id);
    lemma_entity_id_round_trip(ack.writer_id);
    lemma_octet_ranges();
    lemma_octets_of(e, unsigned_32(ack.count as int), 4);
    lemma_sequence_number_set_len(ack.base, ack.bits, e);
    lemma_sequence_number_set_round_trip(ack.base, ack.bits, e, count);
    let rest = body.subrange(8, body.len() as int);
    assert(rest =~= set + count);
    assert(body.subrange(0, 4) =~= entity_id_octets(ack.reader_id));
    assert(body.subrange(4, 8) =~= entity_id_octets(ack.writer_id));
    let at: int = 8 + (set.len() as int);
    assert(body.subrange(at, at + 4) =~= count);
}

impl AckNack {
    /// The flag octet of the submessage in the given byte order.
    pub fn flags(&self, e: Endianness) -> (flags: u8)
        ensures
            flags == acknack_flags(self@, e),
    {
        flags_of(is_little(e), self.final_flag, false, false)
    }

    /// Puts the body of the submessage behind `out`.
    pub fn write_body(&self, out: &mut Vec<u8>, e: Endianness)
        requires
            self.reader_sn_state.wf(),
        ensures
            final(out)@ == old(out)@ + acknack_octets(self@, e),
    {
        put_entity_id(out, self.reader_id);
        put_entity_id(out, self.writer_id);
        put_sequence_number_set(out, &self.reader_sn_state, e);
        put_uint(out, i32_to_wire(self.count) as u64, 4, e);
        assert(out@ =~= old(out)@ + acknack_octets(self@, e));
    }

    /// The submessage that the body and the flag octet spell.
    pub fn read_body(body: &[u8], flags: u8) -> (r: Result<AckNack, Error>)
        ensures
            match r {
                Ok(ack) => acknack_of(body@, flags) == Ok::<AckNackView, Error>(ack@)
                    && ack.reader_sn_state.wf(),
                Err(err) => acknack_of(body@, flags) == Err::<AckNackView, Error>(err),
            },
    {
        let e = endianness_of(flags);
        let len = body.len();
        if len < 8 {
            return Err(Error::Eof);
        }
        proof {
            assert(body@.subrange(8, len as int).len() == len - 8);
        }
        let (set, at) = match get_sequence_number_set(body, 8, e) {
            Ok(found) => found,
            Err(err) => {
                return Err(err);
            },
        };
        if len - at < 4 {
            return Err(Error::Eof);
        }
        let count = get_uint(body, at, 4, e);
        proof {
            lemma_octet_ranges();
        }
        Ok(
            AckNack {
                reader_id: get_entity_id(body, 0),
                writer_id: get_entity_id(body, 4),
                reader_sn_state: set,
                count: i32_from_wire(count as u32),
                final_flag: flag(flags, 1),
            },
        )
    }
}

/// The body of a GAP submessage.
pub open spec fn gap_octets(gap: GapView, e: Endianness) -> Seq<u8> {
    entity_id_octets(gap.reader_id) + entity_id_octets(gap.writer_id) + sequence_number_octets(
        gap.gap_start,
        e,
    ) + sequence_number_set_octets(gap.base, gap.bits, e)
}

/// The flag octet of a GAP submessage.
pub open spec fn gap_flags(e: Endianness) -> u8 {
    spec_flags_of(spec_is_little(e), false, false, false)
}

/// The GAP submessage that a body and a flag octet spell.
pub open spec fn gap_of(body: Seq<u8>, flags: u8) -> Result<GapView, Error> {
    let e = spec_endianness_of(flags);
    if body.len() < 16 {
        Err(Error::Eof)
    } else {
        match sequence_number_set_of(body.subrange(16, body.len() as int), e) {
            Err(err) => Err(err),
            Ok((base, bits)) => Ok(
                GapView {
                    reader_id: entity_id_of(body.subrange(0, 4)),
                    writer_id: entity_id_of(body.subrange(4, 8)),
                    gap_start: sequence_number_of(body.subrange(8, 16), e),
                    base,
                    bits,
                },
            ),
        }
    }
}

/// A GAP submessage comes back from its wire form.
pub proof fn lemma_gap_round_trip(gap: GapView, e: Endianness)
    requires
        gap.bits.len() <= SEQUENCE_NUMBER_SET_MAX_BITS,
        gap.base.0 + gap.bits.len() <= i64::MAX + 1,
    ensures
        gap_octets(gap, e).len() == 16 + 12 + 4 * word_count(gap.bits.len()),
        gap_of(gap_octets(gap, e), gap_flags(e)) == Ok::<GapView, Error>(gap),
{
    let body = gap_octets(gap, e);
    let set = sequence_number_set_octets(gap.base, gap.bits, e);
    lemma_entity_id_round_trip(gap.reader_id);
    lemma_entity_id_round_trip(gap.writer_id);
    lemma_sequence_number_round_trip(gap.gap_start, e);
    lemma_sequence_number_set_len(gap.base, gap.bits, e);
    lemma_sequence_number_set_round_trip(gap.base, gap.bits, e, Seq::empty());
    assert(body.subrange(16, body.len() as int) =~= set + Seq::<u8>::empty());
    assert(body.subrange(0, 4) =~= entity_id_octets(gap.reader_id));
    assert(body.subrange(4, 8) =~= entity_id_octets(gap.writer_id));
    assert(body.subrange(8, 16) =~= sequence_number_octets(gap.gap_start, e));
}

impl Gap {
    /// The flag octet of the submessage in the given byte order.
    pub fn flags(&self, e: Endianness) -> (flags: u8)
        ensures
            flags == gap_flags(e),
    {
        flags_of(is_little(e), false, false, false)
    }

    /// Puts the body of the submessage behind `out`.
    pub fn write_body(&self, out: &mut Vec<u8>, e: Endianness)
        requires
            self.gap_list.wf(),
        ensures
            final(out)@ == old(out)@ + gap_octets(self@, e),
    {
        put_entity_id(out, self.reader_id);
        put_entity_id(out, self.writer_id);
        put_sequence_number(out, self.gap_start, e);
        put_sequence_number_set(out, &self.gap_list, e);
        assert(out@ =~= old(out)@ + gap_octets(self@, e));
    }

    /// The submessage that the body and the flag octet spell.
    pub fn read_body(body: &[u8], flags: u8) -> (r: Result<Gap, Error>)
        ensures
            match r {
                Ok(gap) => gap_of(body@, flags) == Ok::<GapView, Error>(gap@) && gap.gap_list.wf(),
                Err(err) => gap_of(body@, flags) == Err::<GapView, Error>(err),
            },
    {
        let e = endianness_of(flags);
        let len = body.len();
        if len < 16 {
            return Err(Error::Eof);
        }
        let (set, _at) = match get_sequence_number_set(body, 16, e) {
            Ok(found) => found,
            Err(err) => {
                return Err(err);
            },
        };
        Ok(
            Gap {
                reader_id: get_entity_id(body, 0),
                writer_id: get_entity_id(body, 4),
                gap_start: get_sequence_number(body, 8, e),
                gap_list: set,
            },
        )
    }
}

/// The parameter id that ends a list of inline parameters.
pub const PID_SENTINEL: u16 = 0x0001;

/// The parameter id of the hash of an instance's key.
pub const PID_KEY_HASH: u16 = 0x0070;

/// The parameter id of the status of an instance.
pub const PID_STATUS_INFO: u16 = 0x0071;

/// No inline parameter that the core reads.
pub open spec fn no_inline_qos() -> InlineQos {
    InlineQos { status_info: None, key_hash: None }
}

/// How many values sixteen octets can spell.
pub proof fn lemma_octet_range_16()
    ensures
        octet_range(16) == 0x1_0000_0000_0000_0000_0000_0000_0000_0000,
{
    reveal_with_fuel(octet_range, 17);
}

/// One inline parameter: its id, the count of the octets of its value, and
/// the value.
pub open spec fn parameter_octets(pid: nat, value: Seq<u8>, e: Endianness) -> Seq<u8> {
    octets_of(e, pid, 2) + octets_of(e, value.len(), 2) + value
}

/// The list of inline parameters: the key hash and the status where they
/// are there, and the sentinel.
pub open spec fn inline_qos_octets(qos: InlineQos, e: Endianness) -> Seq<u8> {
    (match qos.key_hash {
        Some(h) => parameter_octets(
            PID_KEY_HASH as nat,
            octets_of(e, h.spec_value() as nat, 16),
            e,
        ),
        None => Seq::empty(),
    }) + (match qos.status_info {
        Some(s) => parameter_octets(PID_STATUS_INFO as nat, s.spec_cdr_bytes(), e),
        None => Seq::empty(),
    }) + parameter_octets(PID_SENTINEL as nat, Seq::empty(), e)
}

/// A result of reading parameters, counted from `by` octets before.
pub open spec fn shifted(r: Result<(InlineQos, int), Error>, by: int) -> Result<
    (InlineQos, int),
    Error,
> {
    match r {
        Ok((qos, n)) => Ok((qos, n + by)),
        Err(e) => Err(e),
    }
}

/// The inline parameters that octets begin with, added to those `found`
/// before, and how many octets they take.
///
/// A key hash and a status replace those found before; a parameter of
/// another id is passed over. Fails with `Eof` where the octets end before
/// the sentinel, with `Malformed` where a key hash or a status is shorter
/// than it must be, and with `InvalidFlags` where a status holds a bit
/// that names no flag.
pub open spec fn parameters_of(rest: Seq<u8>, e: Endianness, found: InlineQos) -> Result<
    (InlineQos, int),
    Error,
>
    decreases rest.len(),
{
    if rest.len() < 4 {
        Err(Error::Eof)
    } else {
        let pid = endian_value(e, rest.subrange(0, 2));
        let plen = endian_value(e, rest.subrange(2, 4));
        if pid == PID_SENTINEL {
            Ok((found, 4int))
        } else if rest.len() < 4 + plen {
            Err(Error::Eof)
        } else {
            let next = rest.subrange(4 + (plen as int), rest.len() as int);
            if pid == PID_KEY_HASH {
                if plen < 16 {
                    Err(Error::Malformed)
                } else {
                    shifted(
                        parameters_of(
                            next,
                            e,
                            InlineQos {
                                key_hash: Some(
                                    KeyHash::of_value(endian_value(e, rest.subrange(4, 20)) as u128),
                                ),
                                ..found
                            },
                        ),
                        4 + (plen as int),
                    )
                }
            } else if pid == PID_STATUS_INFO {
                if plen < 4 {
                    Err(Error::Malformed)
                } else if rest[7] & !STATUS_INFO_ALL_FLAGS != 0 {
                    Err(Error::InvalidFlags(rest[7]))
                } else {
                    shifted(
                        parameters_of(
                            next,
                            e,
                            InlineQos {
                                status_info: Some(StatusInfo::of_octets(rest.subrange(4, 8))),
                                ..found
                            },
                        ),
                        4 + (plen as int),
                    )
                }
            } else {
                shifted(parameters_of(next, e, found), 4 + (plen as int))
            }
        }
    }
}

/// What the head of one parameter spells.
proof fn lemma_parameter_head(pid: nat, value: Seq<u8>, e: Endianness, tail: Seq<u8>)
    requires
        pid < 0x1_0000,
        value.len() < 0x1_0000,
    ensures
        ({
            let all = parameter_octets(pid, value, e) + tail;
            &&& all.len() == 4 + value.len() + tail.len()
            &&& endian_value(e, all.subrange(0, 2)) == pid
            &&& endian_value(e, all.subrange(2, 4)) == value.len()
            &&& all.subrange(4, 4 + (value.len() as int)) == value
            &&& all.subrange(4 + (value.len() as int), all.len() as int) == tail
        }),
{
    let all = parameter_octets(pid, value, e) + tail;
    lemma_octet_ranges();
    lemma_octets_of(e, pid, 2);
    lemma_octets_of(e, value.len(), 2);
    assert(all.subrange(0, 2) =~= octets_of(e, pid, 2));
    assert(all.subrange(2, 4) =~= octets_of(e, value.len(), 2));
    assert(all.subrange(4, 4 + (value.len() as int)) =~= value);
    assert(all.subrange(4 + (value.len() as int), all.len() as int) =~= tail);
}

/// A list of inline parameters, whatever follows it, spells its parameters.
pub proof fn lemma_inline_qos_round_trip(qos: InlineQos, e: Endianness, tail: Seq<u8>)
    requires
        qos.status_info matches Some(s) ==> s.wf(),
    ensures
        parameters_of(inline_qos_octets(qos, e) + tail, e, no_inline_qos()) == Ok::<
            (InlineQos, int),
            Error,
        >((qos, inline_qos_octets(qos, e).len() as int)),
{
    let sentinel = parameter_octets(PID_SENTINEL as nat, Seq::empty(), e);
    lemma_parameter_head(PID_SENTINEL as nat, Seq::empty(), e, tail);
    let after_all = sentinel + tail;
    // the list ends with the sentinel
    let found_all = qos;
    assert(parameters_of(after_all, e, found_all) == Ok::<(InlineQos, int), Error>(
        (found_all, 4int),
    ));
    // before it stands the status
    let found_key = InlineQos { status_info: None, key_hash: qos.key_hash };
    let after_key = match qos.status_info {
        Some(s) => parameter_octets(PID_STATUS_INFO as nat, s.spec_cdr_bytes(), e) + after_all,
        None => after_all,
    };
    let status_len: int = match qos.status_info {
        Some(s) => 8,
        None => 0,
    };
    match qos.status_info {
        Some(s) => {
            StatusInfo::lemma_octets(s, s, s.spec_cdr_bytes());
            lemma_parameter_head(PID_STATUS_INFO as nat, s.spec_cdr_bytes(), e, after_all);
            assert(after_key.subrange(4, 8) =~= s.spec_cdr_bytes());
            assert(after_key[7] == s.spec_cdr_bytes()[3]);
            assert(after_key[7] == s.flags());
            assert(parameters_of(after_key, e, found_key) == Ok::<(InlineQos, int), Error>(
                (qos, 12int),
            ));
        },
        None => {
            assert(found_key == qos);
        },
    }
    assert(parameters_of(after_key, e, found_key) == Ok::<(InlineQos, int), Error>(
        (qos, 4 + status_len),
    ));
    // and before that the key hash
    match qos.key_hash {
        Some(h) => {
            let value = octets_of(e, h.spec_value() as nat, 16);
            lemma_octet_range_16();
            lemma_octets_of(e, h.spec_value() as nat, 16);
            lemma_parameter_head(PID_KEY_HASH as nat, value, e, after_key);
            let all = parameter_octets(PID_KEY_HASH as nat, value, e) + after_key;
            assert(all.subrange(4, 20) =~= value);
            KeyHash::lemma_value(h, KeyHash::of_value(h.spec_value()), h.spec_value());
            assert(inline_qos_octets(qos, e) + tail =~= all);
            assert(parameters_of(all, e, no_inline_qos()) == Ok::<(InlineQos, int), Error>(
                (qos, 24 + status_len),
            ));
        },
        None => {
            assert(inline_qos_octets(qos, e) + tail =~= after_key);
            assert(found_key == no_inline_qos());
        },
    }
    lemma_octets_of(e, PID_SENTINEL as nat, 2);
    lemma_octets_of(e, 0, 2);
    lemma_octets_of(e, PID_KEY_HASH as nat, 2);
    lemma_octets_of(e, PID_STATUS_INFO as nat, 2);
    lemma_octets_of(e, 16, 2);
    lemma_octets_of(e, 4, 2);
}

/// The wire form of a payload: the encoding tag, most significant octet
/// first, the two option octets, and the octets of the value.
pub open spec fn payload_octets(payload: SerializedPayloadView) -> Seq<u8> {
    octets_of(Endianness::BigEndian, payload.representation_identifier as nat, 2)
        + payload.representation_options + payload.value
}

/// The body of a DATA submessage.
pub open spec fn data_octets(data: DataView, e: Endianness) -> Seq<u8> {
    octets_of(e, 0, 2) + octets_of(e, 16, 2) + entity_id_octets(data.reader_id)
        + entity_id_octets(data.writer_id) + sequence_number_octets(data.writer_sn, e) + (
    match data.inline_qos {
        Some(qos) => inline_qos_octets(qos, e),
        None => Seq::empty(),
    }) + (match data.serialized_payload {
        Some(payload) => payload_octets(payload),
        None => Seq::empty(),
    })
}

/// The flag octet of a DATA submessage: the byte order, whether there are
/// inline parameters, whether the payload holds a sample, and whether it
/// holds a key.
pub open spec fn data_flags(data: DataView, e: Endianness) -> u8 {
    spec_flags_of(
        spec_is_little(e),
        data.inline_qos is Some,
        data.serialized_payload is Some && !data.payload_is_key,
        data.serialized_payload is Some && data.payload_is_key,
    )
}

/// The DATA submessage that a body and a flag octet spell.
///
/// Fails with `InvalidFlags` where the flags announce both a sample and a
/// key, with `Eof` where the body ends before what the flags announce,
/// with `Malformed` where the inline parameters would begin within the
/// fixed part, and as `parameters_of` does.
pub open spec fn data_of(body: Seq<u8>, flags: u8) -> Result<DataView, Error> {
    let e = spec_endianness_of(flags);
    if spec_flag(flags, 2) && spec_flag(flags, 3) {
        Err(Error::InvalidFlags(flags))
    } else if body.len() < 20 {
        Err(Error::Eof)
    } else {
        let to_qos = endian_value(e, body.subrange(2, 4));
        if to_qos < 16 {
            Err(Error::Malformed)
        } else if body.len() < 4 + to_qos {
            Err(Error::Eof)
        } else {
            let qos_at: int = 4 + (to_qos as int);
            let parsed: Result<(Option<InlineQos>, int), Error> = if spec_flag(flags, 1) {
                match parameters_of(body.subrange(qos_at, body.len() as int), e, no_inline_qos()) {
                    Ok((qos, n)) => Ok((Some(qos), qos_at + n)),
                    Err(x) => Err(x),
                }
            } else {
                Ok((None, qos_at))
            };
            match parsed {
                Err(x) => Err(x),
                Ok((qos, payload_at)) => if spec_flag(flags, 2) || spec_flag(flags, 3) {
                    if body.len() < payload_at + 4 {
                        Err(Error::Eof)
                    } else {
                        Ok(
                            DataView {
                                reader_id: entity_id_of(body.subrange(4, 8)),
                                writer_id: entity_id_of(body.subrange(8, 12)),
                                writer_sn: sequence_number_of(body.subrange(12, 20), e),
                                inline_qos: qos,
                                serialized_payload: Some(
                                    SerializedPayloadView {
                                        representation_identifier: big_endian_value(
                                            body.subrange(payload_at, payload_at + 2),
                                        ) as u16,
                                        representation_options: body.subrange(
                                            payload_at + 2,
                                            payload_at + 4,
                                        ),
                                        value: body.subrange(payload_at + 4, body.len() as int),
                                    },
                                ),
                                payload_is_key: spec_flag(flags, 3),
                            },
                        )
                    }
                } else {
                    Ok(
                        DataView {
                            reader_id: entity_id_of(body.subrange(4, 8)),
                            writer_id: entity_id_of(body.subrange(8, 12)),
                            writer_sn: sequence_number_of(body.subrange(12, 20), e),
                            inline_qos: qos,
                            serialized_payload: None,
                            payload_is_key: false,
                        },
                    )
                },
            }
        }
    }
}

/// A DATA submessage comes back from its wire form.
#[verifier::rlimit(60)]
pub proof fn lemma_data_round_trip(data: DataView, e: Endianness)
    requires
        data.inline_qos matches Some(qos) ==> (qos.status_info matches Some(s) ==> s.wf()),
        data.serialized_payload matches Some(p) ==> p.representation_options.len() == 2,
        data.payload_is_key ==> data.serialized_payload is Some,
    ensures
        data_of(data_octets(data, e), data_flags(data, e)) == Ok::<DataView, Error>(data),
        data_octets(data, e).len() >= 20,
{
    let body = data_octets(data, e);
    let flags = data_flags(data, e);
    let qos_octets = match data.inline_qos {
        Some(qos) => inline_qos_octets(qos, e),
        None => Seq::empty(),
    };
    let payload = match data.serialized_payload {
        Some(p) => payload_octets(p),
        None => Seq::empty(),
    };
    lemma_octet_ranges();
    lemma_octets_of(e, 0, 2);
    lemma_octets_of(e, 16, 2);
    lemma_entity_id_round_trip(data.reader_id);
    lemma_entity_id_round_trip(data.writer_id);
    lemma_sequence_number_round_trip(data.writer_sn, e);
    assert(body.subrange(2, 4) =~= octets_of(e, 16, 2));
    assert(body.subrange(4, 8) =~= entity_id_octets(data.reader_id));
    assert(body.subrange(8, 12) =~= entity_id_octets(data.writer_id));
    assert(body.subrange(12, 20) =~= sequence_number_octets(data.writer_sn, e));
    assert(body.subrange(20, body.len() as int) =~= qos_octets + payload);
    match data.inline_qos {
        Some(qos) => {
            lemma_inline_qos_round_trip(qos, e, payload);
        },
        None => {},
    }
    let payload_at: int = 20 + (qos_octets.len() as int);
    match data.serialized_payload {
        Some(p) => {
            lemma_octets_of(Endianness::BigEndian, p.representation_identifier as nat, 2);
            assert(body.subrange(payload_at, payload_at + 2) =~= octets_of(
                Endianness::BigEndian,
                p.representation_identifier as nat,
                2,
            ));
            assert(body.subrange(payload_at + 2, payload_at + 4) =~= p.representation_options);
            assert(body.subrange(payload_at + 4, body.len() as int) =~= p.value);
        },
        None => {},
    }
}

/// The inline parameters that the octets of `buf` from `at` on begin with,
/// and the place behind them.
fn get_inline_qos(buf: &[u8], at: usize, e: Endianness) -> (r: Result<(InlineQos, usize), Error>)
    requires
        at <= buf@.len(),
    ensures
        match r {
            Ok((qos, next)) => parameters_of(
                buf@.subrange(at as int, buf@.len() as int),
                e,
                no_inline_qos(),
            ) == Ok::<(InlineQos, int), Error>((qos, next - at)) && at <= next <= buf@.len(),
            Err(err) => parameters_of(
                buf@.subrange(at as int, buf@.len() as int),
                e,
                no_inline_qos(),
            ) == Err::<(InlineQos, int), Error>(err),
        },
{
    let len = buf.len();
    let ghost whole = parameters_of(buf@.subrange(at as int, len as int), e, no_inline_qos());
    let mut found = InlineQos { status_info: None, key_hash: None };
    let mut pos: usize = at;
    loop
        invariant
            at <= pos <= len,
            len == buf@.len(),
            whole == parameters_of(buf@.subrange(at as int, len as int), e, no_inline_qos()),
            whole == shifted(
                parameters_of(buf@.subrange(pos as int, len as int), e, found),
                pos - at,
            ),
        decreases len - pos,
    {
        let ghost rest = buf@.subrange(pos as int, len as int);
        if len - pos < 4 {
            return Err(Error::Eof);
        }
        let pid = get_uint(buf, pos, 2, e);
        let plen = get_uint(buf, pos + 2, 2, e);
        proof {
            lemma_octet_ranges();
            assert(rest.subrange(0, 2) =~= buf@.subrange(pos as int, pos + 2));
            assert(rest.subrange(2, 4) =~= buf@.subrange(pos + 2, pos + 4));
        }
        if pid == PID_SENTINEL as u64 {
            return Ok((found, pos + 4));
        }
        if ((len - pos - 4) as u64) < plen {
            return Err(Error::Eof);
        }
        let plen = plen as usize;
        let next = pos + 4 + plen;
        proof {
            assert(rest.subrange(4 + plen, rest.len() as int) =~= buf@.subrange(
                next as int,
                len as int,
            ));
        }
        if pid == PID_KEY_HASH as u64 {
            if plen < 16 {
                return Err(Error::Malformed);
            }
            let value = slice_subrange(buf, pos + 4, pos + 20);
            let key = match e {
                Endianness::BigEndian => read_u128_be(value),
                Endianness::LittleEndian => read_u128_le(value),
            };
            let hash = KeyHash::new(key);
            proof {
                assert(value@.subrange(0, 16) =~= rest.subrange(4, 20));
                KeyHash::lemma_value(hash, KeyHash::of_value(key), key);
            }
            found.key_hash = Some(hash);
        } else if pid == PID_STATUS_INFO as u64 {
            if plen < 4 {
                return Err(Error::Malformed);
            }
            let octets = slice_to_vec(slice_subrange(buf, pos + 4, pos + 8));
            proof {
                assert(octets@ =~= rest.subrange(4, 8));
                assert(octets@[3] == rest[7]);
                assert(octets@.subrange(0, 4) =~= octets@);
            }
            let status = match StatusInfo::from_cdr_bytes(
                &octets,
                crate::messages::serialized_payload::RepresentationIdentifier::PL_CDR_LE,
            ) {
                Ok(status) => status,
                Err(err) => {
                    return Err(err);
                },
            };
            proof {
                StatusInfo::lemma_octets(status, StatusInfo::of_octets(octets@), octets@);
            }
            found.status_info = Some(status);
        }
        pos = next;
    }
}

/// Puts one inline parameter behind `out`.
fn put_parameter(out: &mut Vec<u8>, pid: u16, value: Vec<u8>, e: Endianness)
    requires
        value@.len() < 0x1_0000,
    ensures
        final(out)@ == old(out)@ + parameter_octets(pid as nat, value@, e),
{
    let mut value = value;
    let ghost octets = value@;
    put_uint(out, pid as u64, 2, e);
    put_uint(out, value.len() as u64, 2, e);
    out.append(&mut value);
    assert(out@ =~= old(out)@ + parameter_octets(pid as nat, octets, e));
}

/// Puts a list of inline parameters behind `out`.
fn put_inline_qos(out: &mut Vec<u8>, qos: &InlineQos, e: Endianness)
    ensures
        final(out)@ == old(out)@ + inline_qos_octets(*qos, e),
{
    let ghost start = out@;
    match qos.key_hash {
        Some(hash) => {
            let octets = match hash.into_cdr_bytes(e) {
                Ok(octets) => octets,
                Err(_) => Vec::new(),
            };
            proof {
                lemma_octets_of_value(e, octets@);
            }
            put_parameter(out, PID_KEY_HASH, octets, e);
        },
        None => {
            assert(out@ =~= start + Seq::<u8>::empty());
        },
    }
    let ghost with_key = out@;
    match qos.status_info {
        Some(status) => {
            let octets = match status.into_cdr_bytes(e) {
                Ok(octets) => octets,
                Err(_) => Vec::new(),
            };
            proof {
                StatusInfo::lemma_octets(status, status, octets@);
            }
            put_parameter(out, PID_STATUS_INFO, octets, e);
        },
        None => {
            assert(out@ =~= with_key + Seq::<u8>::empty());
        },
    }
    put_parameter(out, PID_SENTINEL, Vec::new(), e);
    assert(out@ =~= start + inline_qos_octets(*qos, e));
}

/// Puts the wire form of a payload behind `out`.
fn put_payload(out: &mut Vec<u8>, payload: &SerializedPayload)
    ensures
        final(out)@ == old(out)@ + payload_octets(payload@),
{
    put_uint(out, payload.representation_identifier as u64, 2, Endianness::BigEndian);
    out.push(payload.representation_options[0]);
    out.push(payload.representation_options[1]);
    let value = bytes_as_slice(&payload.value);
    let mut octets = slice_to_vec(value);
    out.append(&mut octets);
    assert(payload@.representation_options =~= seq![
        payload.representation_options@[0],
        payload.representation_options@[1],
    ]);
    assert(out@ =~= old(out)@ + payload_octets(payload@));
}

impl Data {
    /// The flag octet of the submessage in the given byte order.
    pub fn flags(&self, e: Endianness) -> (flags: u8)
        ensures
            flags == data_flags(self@, e),
    {
        let payload = self.serialized_payload.is_some();
        flags_of(
            is_little(e),
            self.inline_qos.is_some(),
            payload && !self.payload_is_key,
            payload && self.payload_is_key,
        )
    }

    /// Puts the body of the submessage behind `out`.
    pub fn write_body(&self, out: &mut Vec<u8>, e: Endianness)
        ensures
            final(out)@ == old(out)@ + data_octets(self@, e),
    {
        put_uint(out, 0, 2, e);
        put_uint(out, 16, 2, e);
        put_entity_id(out, self.reader_id);
        put_entity_id(out, self.writer_id);
        put_sequence_number(out, self.writer_sn, e);
        let ghost head = out@;
        match &self.inline_qos {
            Some(qos) => {
                put_inline_qos(out, qos, e);
            },
            None => {
                assert(out@ =~= head + Seq::<u8>::empty());
            },
        }
        let ghost with_qos = out@;
        match &self.serialized_payload {
            Some(payload) => {
                put_payload(out, payload);
            },
            None => {
                assert(out@ =~= with_qos + Seq::<u8>::empty());
            },
        }
        assert(out@ =~= old(out)@ + data_octets(self@, e));
    }

    /// The submessage that the body and the flag octet spell.
    pub fn read_body(body: &[u8], flags: u8) -> (r: Result<Data, Error>)
        ensures
            match r {
                Ok(data) => data_of(body@, flags) == Ok::<DataView, Error>(data@),
                Err(err) => data_of(body@, flags) == Err::<DataView, Error>(err),
            },
    {
        let e = endianness_of(flags);
        let len = body.len();
        if flag(flags, 2) && flag(flags, 3) {
            return Err(Error::InvalidFlags(flags));
        }
        if len < 20 {
            return Err(Error::Eof);
        }
        let to_qos = get_uint(body, 2, 2, e);
        proof {
            lemma_octet_ranges();
        }
        if to_qos < 16 {
            return Err(Error::Malformed);
        }
        if ((len - 4) as u64) < to_qos {
            return Err(Error::Eof);
        }
        let qos_at: usize = 4 + (to_qos as usize);
        let (inline_qos, payload_at) = if flag(flags, 1) {
            match get_inline_qos(body, qos_at, e) {
                Ok((qos, next)) => (Some(qos), next),
                Err(err) => {
                    return Err(err);
                },
            }
        } else {
            (None, qos_at)
        };
        let serialized_payload = if flag(flags, 2) || flag(flags, 3) {
            if len - payload_at < 4 {
                return Err(Error::Eof);
            }
            let representation_identifier = get_uint(body, payload_at, 2, Endianness::BigEndian);
            let options = [body[payload_at + 2], body[payload_at + 3]];
            let value = slice_to_vec(slice_subrange(body, payload_at + 4, len));
            let payload = SerializedPayload {
                representation_identifier: representation_identifier as u16,
                representation_options: options,
                value: bytes_from_vec(value),
            };
            proof {
                assert(payload@.representation_options =~= body@.subrange(
                    payload_at + 2,
                    payload_at + 4,
                ));
            }
            Some(payload)
        } else {
            None
        };
        Ok(
            Data {
                reader_id: get_entity_id(body, 4),
                writer_id: get_entity_id(body, 8),
                writer_sn: get_sequence_number(body, 12, e),
                inline_qos,
                serialized_payload,
                payload_is_key: flag(flags, 3),
            },
        )
    }
}

/// The body of an INFO_REPLY submessage: the list of locators for answers
/// to one, and the list for answers to a group where there is one.
pub open spec fn info_reply_octets(info: InfoReplyView, e: Endianness) -> Seq<u8> {
    locator_list_octets(info.unicast_locator_list, e) + (match info.multicast_locator_list {
        Some(list) => locator_list_octets(list, e),
        None => Seq::empty(),
    })
}

/// The flag octet of an INFO_REPLY submessage.
pub open spec fn info_reply_flags(info: InfoReplyView, e: Endianness) -> u8 {
    spec_flags_of(spec_is_little(e), info.multicast_locator_list is Some, false, false)
}

/// The INFO_REPLY submessage that a body and a flag octet spell.
pub open spec fn info_reply_of(body: Seq<u8>, flags: u8) -> Result<InfoReplyView, Error> {
    let e = spec_endianness_of(flags);
    match locator_list_of(body, e) {
        Err(err) => Err(err),
        Ok(unicast) => if spec_flag(flags, 1) {
            let at = locator_list_len(body, e);
            match locator_list_of(body.subrange(at, body.len() as int), e) {
                Err(err) => Err(err),
                Ok(multicast) => Ok(
                    InfoReplyView {
                        unicast_locator_list: unicast,
                        multicast_locator_list: Some(multicast),
                    },
                ),
            }
        } else {
            Ok(InfoReplyView { unicast_locator_list: unicast, multicast_locator_list: None })
        },
    }
}

/// An INFO_REPLY submessage comes back from its wire form.
pub proof fn lemma_info_reply_round_trip(info: InfoReplyView, e: Endianness)
    requires
        info.unicast_locator_list.len() <= u32::MAX,
        info.multicast_locator_list matches Some(list) ==> list.len() <= u32::MAX,
    ensures
        info_reply_of(info_reply_octets(info, e), info_reply_flags(info, e)) == Ok::<
            InfoReplyView,
            Error,
        >(info),
        info_reply_octets(info, e).len() >= 4,
{
    let body = info_reply_octets(info, e);
    let unicast = locator_list_octets(info.unicast_locator_list, e);
    match info.multicast_locator_list {
        Some(list) => {
            let multicast = locator_list_octets(list, e);
            lemma_locator_list_round_trip(info.unicast_locator_list, e, multicast);
            lemma_locator_list_round_trip(list, e, Seq::empty());
            assert(body.subrange(unicast.len() as int, body.len() as int) =~= multicast
                + Seq::<u8>::empty());
        },
        None => {
            lemma_locator_list_round_trip(info.unicast_locator_list, e, Seq::empty());
            assert(body =~= unicast + Seq::<u8>::empty());
        },
    }
}

impl InfoReply {
    /// The flag octet of the submessage in the given byte order.
    pub fn flags(&self, e: Endianness) -> (flags: u8)
        ensures
            flags == info_reply_flags(self@, e),
    {
        flags_of(is_little(e), self.multicast_locator_list.is_some(), false, false)
    }

    /// Puts the body of the submessage behind `out`.
    pub fn write_body(&self, out: &mut Vec<u8>, e: Endianness)
        ensures
            final(out)@ == old(out)@ + info_reply_octets(self@, e),
    {
        put_locator_list(out, &self.unicast_locator_list, e);
        let ghost head = out@;
        match &self.multicast_locator_list {
            Some(list) => {
                put_locator_list(out, list, e);
            },
            None => {
                assert(out@ =~= head + Seq::<u8>::empty());
            },
        }
        assert(out@ =~= old(out)@ + info_reply_octets(self@, e));
    }

    /// The submessage that the body and the flag octet spell.
    pub fn read_body(body: &[u8], flags: u8) -> (r: Result<InfoReply, Error>)
        ensures
            match r {
                Ok(info) => info_reply_of(body@, flags) == Ok::<InfoReplyView, Error>(info@),
                Err(err) => info_reply_of(body@, flags) == Err::<InfoReplyView, Error>(err),
            },
    {
        let e = endianness_of(flags);
        proof {
            assert(body@.subrange(0, body@.len() as int) =~= body@);
        }
        let (unicast, at) = match get_locator_list(body, 0, e) {
            Ok(found) => found,
            Err(err) => {
                return Err(err);
            },
        };
        let multicast = if flag(flags, 1) {
            match get_locator_list(body, at, e) {
                Ok((list, _)) => Some(list),
                Err(err) => {
                    return Err(err);
                },
            }
        } else {
            None
        };
        Ok(InfoReply { unicast_locator_list: unicast, multicast_locator_list: multicast })
    }
}

} // verus!
