//! Whole messages: the header of a datagram and the submessages behind it.

use crate::messages::codec::{
    acknack_flags, acknack_octets, acknack_of, data_flags, data_octets, data_of, endianness_of,
    flags_of, gap_flags, gap_octets, gap_of, heartbeat_flags, heartbeat_octets, heartbeat_of,
    info_destination_octets, info_destination_of, info_reply_flags, info_reply_octets,
    info_reply_of, info_source_octets, info_source_of, info_timestamp_flags, info_timestamp_octets,
    info_timestamp_of, is_little, lemma_acknack_round_trip, lemma_data_round_trip,
    lemma_gap_round_trip, lemma_heartbeat_round_trip, lemma_info_destination_round_trip,
    lemma_info_reply_round_trip, lemma_info_source_round_trip, lemma_info_timestamp_round_trip,
    spec_endianness_of, spec_flag, spec_flags_of, spec_is_little, SUBMESSAGE_KIND_ACKNACK,
    SUBMESSAGE_KIND_DATA, SUBMESSAGE_KIND_DATA_FRAG, SUBMESSAGE_KIND_GAP, SUBMESSAGE_KIND_HEARTBEAT,
    SUBMESSAGE_KIND_HEARTBEAT_FRAG, SUBMESSAGE_KIND_INFO_DST, SUBMESSAGE_KIND_INFO_REPLY,
    SUBMESSAGE_KIND_INFO_REPLY_IP4, SUBMESSAGE_KIND_INFO_SRC, SUBMESSAGE_KIND_INFO_TS,
    SUBMESSAGE_KIND_NACK_FRAG, SUBMESSAGE_KIND_PAD,
};
use crate::messages::submessages::{
    AckNack, AckNackView, Data, DataView, Gap, GapView, Heartbeat, InfoDestination, InfoReply,
    InfoReplyView, InfoSource, InfoTimestamp,
};
use crate::messages::wire::{
    get_guid_prefix, guid_prefix_octets, guid_prefix_of, lemma_guid_prefix_round_trip,
    put_guid_prefix,
};
use crate::serialization::{
    endian_value, get_uint, lemma_octet_ranges, lemma_octets_of, octets_of, put_uint, Endianness,
    Error,
};
use crate::structure::guid::GuidPrefix;
use crate::structure::sequence_number::SEQUENCE_NUMBER_SET_MAX_BITS;
use vstd::prelude::*;
use vstd::slice::slice_subrange;

verus! {

/// The major version of the protocol that this implementation speaks.
pub const PROTOCOL_VERSION_MAJOR: u8 = 2;

/// The minor version of the protocol that this implementation speaks.
pub const PROTOCOL_VERSION_MINOR: u8 = 3;

/// The first octet of the tag of this implementation.
pub const VENDOR_ID_0: u8 = 0x01;

/// The second octet of the tag of this implementation.
pub const VENDOR_ID_1: u8 = 0x12;

/// The most octets that the body of a submessage can have.
pub const MAX_SUBMESSAGE_BODY: usize = 0xffff;

/// The head of a datagram: who speaks, and in which version of the protocol.
#[derive(Debug, Clone, Copy)]
pub struct Header {
    pub protocol_major: u8,
    pub protocol_minor: u8,
    pub vendor_id0: u8,
    pub vendor_id1: u8,
    pub guid_prefix: GuidPrefix,
}

/// The twenty octets of a header: the letters RTPS, the version, the vendor
/// and the prefix.
pub open spec fn header_octets(h: Header) -> Seq<u8> {
    seq![
        0x52u8,
        0x54u8,
        0x50u8,
        0x53u8,
        h.protocol_major,
        h.protocol_minor,
        h.vendor_id0,
        h.vendor_id1,
    ] + guid_prefix_octets(h.guid_prefix)
}

/// The header that a datagram begins with.
///
/// Fails with `Eof` where the datagram is shorter than a header and with
/// `BadMagic` where it does not begin with the letters RTPS.
pub open spec fn header_of(octets: Seq<u8>) -> Result<Header, Error> {
    if octets.len() < 20 {
        Err(Error::Eof)
    } else if octets[0] != 0x52 || octets[1] != 0x54 || octets[2] != 0x50 || octets[3] != 0x53 {
        Err(Error::BadMagic)
    } else {
        Ok(
            Header {
                protocol_major: octets[4],
                protocol_minor: octets[5],
                vendor_id0: octets[6],
                vendor_id1: octets[7],
                guid_prefix: guid_prefix_of(octets.subrange(8, 20)),
            },
        )
    }
}

/// A header comes back from its wire form, whatever follows it.
pub proof fn lemma_header_round_trip(h: Header, tail: Seq<u8>)
    ensures
        header_octets(h).len() == 20,
        header_of(header_octets(h) + tail) == Ok::<Header, Error>(h),
{
    lemma_guid_prefix_round_trip(h.guid_prefix);
    assert((header_octets(h) + tail).subrange(8, 20) =~= guid_prefix_octets(h.guid_prefix));
}

impl Header {
    /// The header of a datagram of the participant with the prefix
    /// `guid_prefix`.
    pub fn new(guid_prefix: GuidPrefix) -> (h: Header)
        ensures
            h == (Header {
                protocol_major: PROTOCOL_VERSION_MAJOR,
                protocol_minor: PROTOCOL_VERSION_MINOR,
                vendor_id0: VENDOR_ID_0,
                vendor_id1: VENDOR_ID_1,
                guid_prefix,
            }),
    {
        Header {
            protocol_major: PROTOCOL_VERSION_MAJOR,
            protocol_minor: PROTOCOL_VERSION_MINOR,
            vendor_id0: VENDOR_ID_0,
            vendor_id1: VENDOR_ID_1,
            guid_prefix,
        }
    }

    /// Puts the twenty octets of the header behind `out`.
    pub fn write(&self, out: &mut Vec<u8>)
        ensures
            final(out)@ == old(out)@ + header_octets(*self),
    {
        out.push(0x52);
        out.push(0x54);
        out.push(0x50);
        out.push(0x53);
        out.push(self.protocol_major);
        out.push(self.protocol_minor);
        out.push(self.vendor_id0);
        out.push(self.vendor_id1);
        put_guid_prefix(out, self.guid_prefix);
        assert(out@ =~= old(out)@ + header_octets(*self));
    }

    /// The header that the datagram begins with.
    pub fn read(buf: &[u8]) -> (r: Result<Header, Error>)
        ensures
            r == header_of(buf@),
    {
        if buf.len() < 20 {
            return Err(Error::Eof);
        }
        if buf[0] != 0x52 || buf[1] != 0x54 || buf[2] != 0x50 || buf[3] != 0x53 {
            return Err(Error::BadMagic);
        }
        Ok(
            Header {
                protocol_major: buf[4],
                protocol_minor: buf[5],
                vendor_id0: buf[6],
                vendor_id1: buf[7],
                guid_prefix: get_guid_prefix(buf, 8),
            },
        )
    }
}

/// One submessage.
pub enum Submessage {
    Data(Data),
    Heartbeat(Heartbeat),
    AckNack(AckNack),
    Gap(Gap),
    InfoTimestamp(InfoTimestamp),
    InfoDestination(InfoDestination),
    InfoSource(InfoSource),
    InfoReply(InfoReply),
}

/// What a `Submessage` stands for.
pub enum SubmessageView {
    Data(DataView),
    Heartbeat(Heartbeat),
    AckNack(AckNackView),
    Gap(GapView),
    InfoTimestamp(InfoTimestamp),
    InfoDestination(InfoDestination),
    InfoSource(InfoSource),
    InfoReply(InfoReplyView),
}

impl View for Submessage {
    type V = SubmessageView;

    open spec fn view(&self) -> SubmessageView {
        match self {
            Submessage::Data(d) => SubmessageView::Data(d@),
            Submessage::Heartbeat(h) => SubmessageView::Heartbeat(*h),
            Submessage::AckNack(a) => SubmessageView::AckNack(a@),
            Submessage::Gap(g) => SubmessageView::Gap(g@),
            Submessage::InfoTimestamp(i) => SubmessageView::InfoTimestamp(*i),
            Submessage::InfoDestination(i) => SubmessageView::InfoDestination(*i),
            Submessage::InfoSource(i) => SubmessageView::InfoSource(*i),
            Submessage::InfoReply(i) => SubmessageView::InfoReply(i@),
        }
    }
}

impl SubmessageView {
    /// The kind octet of the submessage.
    pub open spec fn kind(self) -> u8 {
        match self {
            SubmessageView::Data(_) => SUBMESSAGE_KIND_DATA,
            SubmessageView::Heartbeat(_) => SUBMESSAGE_KIND_HEARTBEAT,
            SubmessageView::AckNack(_) => SUBMESSAGE_KIND_ACKNACK,
            SubmessageView::Gap(_) => SUBMESSAGE_KIND_GAP,
            SubmessageView::InfoTimestamp(_) => SUBMESSAGE_KIND_INFO_TS,
            SubmessageView::InfoDestination(_) => SUBMESSAGE_KIND_INFO_DST,
            SubmessageView::InfoSource(_) => SUBMESSAGE_KIND_INFO_SRC,
            SubmessageView::InfoReply(_) => SUBMESSAGE_KIND_INFO_REPLY,
        }
    }

    /// The flag octet of the submessage in the given byte order.
    pub open spec fn flags(self, e: Endianness) -> u8 {
        match self {
            SubmessageView::Data(d) => data_flags(d, e),
            SubmessageView::Heartbeat(h) => heartbeat_flags(h, e),
            SubmessageView::AckNack(a) => acknack_flags(a, e),
            SubmessageView::Gap(_) => gap_flags(e),
            SubmessageView::InfoTimestamp(i) => info_timestamp_flags(i, e),
            SubmessageView::InfoDestination(_) => spec_flags_of(
                spec_is_little(e),
                false,
                false,
                false,
            ),
            SubmessageView::InfoSource(_) => spec_flags_of(spec_is_little(e), false, false, false),
            SubmessageView::InfoReply(i) => info_reply_flags(i, e),
        }
    }

    /// The body of the submessage in the given byte order.
    pub open spec fn body(self, e: Endianness) -> Seq<u8> {
        match self {
            SubmessageView::Data(d) => data_octets(d, e),
            SubmessageView::Heartbeat(h) => heartbeat_octets(h, e),
            SubmessageView::AckNack(a) => acknack_octets(a, e),
            SubmessageView::Gap(g) => gap_octets(g, e),
            SubmessageView::InfoTimestamp(i) => info_timestamp_octets(i, e),
            SubmessageView::InfoDestination(i) => info_destination_octets(i),
            SubmessageView::InfoSource(i) => info_source_octets(i),
            SubmessageView::InfoReply(i) => info_reply_octets(i, e),
        }
    }

    /// What must hold of a submessage for it to have a wire form that spells
    /// it: its windows are windows, its status holds flags only, its payload
    /// has two option octets and is there where it is said to hold a key,
    /// its lists are no longer than their count can say, and its body is no
    /// longer than a body can be.
    pub open spec fn encodable(self, e: Endianness) -> bool {
        &&& self.body(e).len() <= MAX_SUBMESSAGE_BODY
        &&& match self {
            SubmessageView::Data(d) => {
                &&& d.inline_qos matches Some(qos) ==> (qos.status_info matches Some(s) ==> s.wf())
                &&& d.serialized_payload matches Some(p) ==> p.representation_options.len() == 2
                &&& d.payload_is_key ==> d.serialized_payload is Some
            },
            SubmessageView::AckNack(a) => a.bits.len() <= SEQUENCE_NUMBER_SET_MAX_BITS && a.base.0
                + a.bits.len() <= i64::MAX + 1,
            SubmessageView::Gap(g) => g.bits.len() <= SEQUENCE_NUMBER_SET_MAX_BITS && g.base.0
                + g.bits.len() <= i64::MAX + 1,
            SubmessageView::InfoReply(i) => {
                &&& i.unicast_locator_list.len() <= u32::MAX
                &&& i.multicast_locator_list matches Some(list) ==> list.len() <= u32::MAX
            },
            _ => true,
        }
    }
}

/// The wire form of a submessage: its kind, its flags, the length of its
/// body, and its body.
pub open spec fn submessage_octets(sub: SubmessageView, e: Endianness) -> Seq<u8> {
    seq![sub.kind(), sub.flags(e)] + octets_of(e, sub.body(e).len(), 2) + sub.body(e)
}

/// Whether a submessage of this kind is passed over: kinds that are known
/// and not taken in, and unknown kinds whose highest bit is set.
pub open spec fn passed_over(kind: u8) -> bool {
    ||| kind == SUBMESSAGE_KIND_PAD
    ||| kind == SUBMESSAGE_KIND_INFO_REPLY_IP4
    ||| kind == SUBMESSAGE_KIND_NACK_FRAG
    ||| kind == SUBMESSAGE_KIND_HEARTBEAT_FRAG
    ||| kind == SUBMESSAGE_KIND_DATA_FRAG
    ||| kind >= 0x80
}

/// How many octets the body of the submessage has that `octets` begin with:
/// what its length field says, and all octets that follow where the field
/// says zero and the kind is one whose body is never empty.
pub open spec fn body_len_at(octets: Seq<u8>) -> int {
    let kind = octets[0];
    let announced = endian_value(spec_endianness_of(octets[1]), octets.subrange(2, 4));
    if announced == 0 && kind != SUBMESSAGE_KIND_PAD && kind != SUBMESSAGE_KIND_INFO_TS {
        octets.len() - 4
    } else {
        announced as int
    }
}

/// The submessage that the body of a given kind and the flag octet spell;
/// `None` where the kind is passed over.
///
/// Fails as the submessage's own reading fails, and with `UnknownSubmessage`
/// where the kind is not known and may not be passed over.
pub open spec fn submessage_of(kind: u8, flags: u8, body: Seq<u8>) -> Result<
    Option<SubmessageView>,
    Error,
> {
    if kind == SUBMESSAGE_KIND_DATA {
        match data_of(body, flags) {
            Ok(d) => Ok(Some(SubmessageView::Data(d))),
            Err(e) => Err(e),
        }
    } else if kind == SUBMESSAGE_KIND_HEARTBEAT {
        match heartbeat_of(body, flags) {
            Ok(h) => Ok(Some(SubmessageView::Heartbeat(h))),
            Err(e) => Err(e),
        }
    } else if kind == SUBMESSAGE_KIND_ACKNACK {
        match acknack_of(body, flags) {
            Ok(a) => Ok(Some(SubmessageView::AckNack(a))),
            Err(e) => Err(e),
        }
    } else if kind == SUBMESSAGE_KIND_GAP {
        match gap_of(body, flags) {
            Ok(g) => Ok(Some(SubmessageView::Gap(g))),
            Err(e) => Err(e),
        }
    } else if kind == SUBMESSAGE_KIND_INFO_TS {
        match info_timestamp_of(body, flags) {
            Ok(i) => Ok(Some(SubmessageView::InfoTimestamp(i))),
            Err(e) => Err(e),
        }
    } else if kind == SUBMESSAGE_KIND_INFO_DST {
        match info_destination_of(body) {
            Ok(i) => Ok(Some(SubmessageView::InfoDestination(i))),
            Err(e) => Err(e),
        }
    } else if kind == SUBMESSAGE_KIND_INFO_SRC {
        match info_source_of(body) {
            Ok(i) => Ok(Some(SubmessageView::InfoSource(i))),
            Err(e) => Err(e),
        }
    } else if kind == SUBMESSAGE_KIND_INFO_REPLY {
        match info_reply_of(body, flags) {
            Ok(i) => Ok(Some(SubmessageView::InfoReply(i))),
            Err(e) => Err(e),
        }
    } else if passed_over(kind) {
        Ok(None)
    } else {
        Err(Error::UnknownSubmessage(kind))
    }
}

/// The submessage that `octets` begin with, and how many octets it takes.
///
/// Fails with `Eof` where the octets end within the submessage, and as
/// `submessage_of` does.
pub open spec fn submessage_at(octets: Seq<u8>) -> Result<(Option<SubmessageView>, int), Error> {
    if octets.len() < 4 {
        Err(Error::Eof)
    } else {
        let n = body_len_at(octets);
        if octets.len() < 4 + n {
            Err(Error::Eof)
        } else {
            match submessage_of(octets[0], octets[1], octets.subrange(4, 4 + n)) {
                Ok(sub) => Ok((sub, 4 + n)),
                Err(e) => Err(e),
            }
        }
    }
}

/// Where the parts of a submessage stand among its octets.
proof fn lemma_frame(kind: u8, flags: u8, body: Seq<u8>, e: Endianness, tail: Seq<u8>)
    requires
        spec_endianness_of(flags) == e,
        body.len() <= MAX_SUBMESSAGE_BODY,
        body.len() > 0 || kind == SUBMESSAGE_KIND_PAD || kind == SUBMESSAGE_KIND_INFO_TS,
    ensures
        ({
            let all = seq![kind, flags] + octets_of(e, body.len(), 2) + body + tail;
            &&& all.len() == 4 + body.len() + tail.len()
            &&& all[0] == kind
            &&& all[1] == flags
            &&& body_len_at(all) == body.len()
            &&& all.subrange(4, 4 + (body.len() as int)) == body
        }),
{
    let all = seq![kind, flags] + octets_of(e, body.len(), 2) + body + tail;
    lemma_octet_ranges();
    lemma_octets_of(e, body.len(), 2);
    assert(all.subrange(2, 4) =~= octets_of(e, body.len(), 2));
    assert(all.subrange(4, 4 + (body.len() as int)) =~= body);
}

/// What the flags of a submessage say of its byte order.
proof fn lemma_flags_say_byte_order(e: Endianness, f1: bool, f2: bool, f3: bool)
    ensures
        spec_endianness_of(spec_flags_of(spec_is_little(e), f1, f2, f3)) == e,
        spec_flag(spec_flags_of(spec_is_little(e), f1, f2, f3), 1) == f1,
        spec_flag(spec_flags_of(spec_is_little(e), f1, f2, f3), 2) == f2,
        spec_flag(spec_flags_of(spec_is_little(e), f1, f2, f3), 3) == f3,
{
}

/// The body of a submessage spells the submessage.
proof fn lemma_body_round_trip(sub: SubmessageView, e: Endianness)
    requires
        sub.encodable(e),
    ensures
        submessage_of(sub.kind(), sub.flags(e), sub.body(e)) == Ok::<Option<SubmessageView>, Error>(
            Some(sub),
        ),
        spec_endianness_of(sub.flags(e)) == e,
        sub.body(e).len() > 0 || sub.kind() == SUBMESSAGE_KIND_INFO_TS,
{
    match sub {
        SubmessageView::Data(d) => {
            lemma_data_round_trip(d, e);
            lemma_flags_say_byte_order(
                e,
                d.inline_qos is Some,
                d.serialized_payload is Some && !d.payload_is_key,
                d.serialized_payload is Some && d.payload_is_key,
            );
            assert(submessage_of(SUBMESSAGE_KIND_DATA, data_flags(d, e), data_octets(d, e)) == Ok::<
                Option<SubmessageView>,
                Error,
            >(Some(sub)));
        },
        SubmessageView::Heartbeat(h) => {
            lemma_heartbeat_round_trip(h, e);
            lemma_flags_say_byte_order(e, h.final_flag, h.liveliness_flag, false);
            assert(submessage_of(
                SUBMESSAGE_KIND_HEARTBEAT,
                heartbeat_flags(h, e),
                heartbeat_octets(h, e),
            ) == Ok::<Option<SubmessageView>, Error>(Some(sub)));
        },
        SubmessageView::AckNack(a) => {
            lemma_acknack_round_trip(a, e);
            lemma_flags_say_byte_order(e, a.final_flag, false, false);
            assert(submessage_of(SUBMESSAGE_KIND_ACKNACK, acknack_flags(a, e), acknack_octets(a, e))
                == Ok::<Option<SubmessageView>, Error>(Some(sub)));
        },
        SubmessageView::Gap(g) => {
            lemma_gap_round_trip(g, e);
            lemma_flags_say_byte_order(e, false, false, false);
            assert(submessage_of(SUBMESSAGE_KIND_GAP, gap_flags(e), gap_octets(g, e)) == Ok::<
                Option<SubmessageView>,
                Error,
            >(Some(sub)));
        },
        SubmessageView::InfoTimestamp(i) => {
            lemma_info_timestamp_round_trip(i, e);
            lemma_flags_say_byte_order(e, i.timestamp is None, false, false);
            assert(submessage_of(
                SUBMESSAGE_KIND_INFO_TS,
                info_timestamp_flags(i, e),
                info_timestamp_octets(i, e),
            ) == Ok::<Option<SubmessageView>, Error>(Some(sub)));
        },
        SubmessageView::InfoDestination(i) => {
            lemma_info_destination_round_trip(i);
            lemma_flags_say_byte_order(e, false, false, false);
            assert(submessage_of(
                SUBMESSAGE_KIND_INFO_DST,
                spec_flags_of(spec_is_little(e), false, false, false),
                info_destination_octets(i),
            ) == Ok::<Option<SubmessageView>, Error>(Some(sub)));
        },
        SubmessageView::InfoSource(i) => {
            lemma_info_source_round_trip(i);
            lemma_flags_say_byte_order(e, false, false, false);
            assert(submessage_of(
                SUBMESSAGE_KIND_INFO_SRC,
                spec_flags_of(spec_is_little(e), false, false, false),
                info_source_octets(i),
            ) == Ok::<Option<SubmessageView>, Error>(Some(sub)));
        },
        SubmessageView::InfoReply(i) => {
            lemma_info_reply_round_trip(i, e);
            lemma_flags_say_byte_order(e, i.multicast_locator_list is Some, false, false);
            assert(submessage_of(
                SUBMESSAGE_KIND_INFO_REPLY,
                info_reply_flags(i, e),
                info_reply_octets(i, e),
            ) == Ok::<Option<SubmessageView>, Error>(Some(sub)));
        },
    }
}

/// A submessage comes back from its wire form, whatever follows it.
pub proof fn lemma_submessage_round_trip(sub: SubmessageView, e: Endianness, tail: Seq<u8>)
    requires
        sub.encodable(e),
    ensures
        submessage_at(submessage_octets(sub, e) + tail) == Ok::<
            (Option<SubmessageView>, int),
            Error,
        >((Some(sub), submessage_octets(sub, e).len() as int)),
        submessage_octets(sub, e).len() >= 4,
{
    lemma_body_round_trip(sub, e);
    lemma_frame(sub.kind(), sub.flags(e), sub.body(e), e, tail);
    lemma_octets_of(e, sub.body(e).len(), 2);
    assert(submessage_octets(sub, e) + tail =~= seq![sub.kind(), sub.flags(e)] + octets_of(
        e,
        sub.body(e).len(),
        2,
    ) + sub.body(e) + tail);
}

/// The submessages that `octets` consist of, and the error at which the
/// reading of them ended, if it ended at one: the submessages before a
/// malformed one count, the rest of the datagram does not.
pub open spec fn submessages_of(octets: Seq<u8>) -> (Seq<SubmessageView>, Option<Error>)
    decreases octets.len(),
{
    if octets.len() == 0 {
        (Seq::empty(), None)
    } else {
        match submessage_at(octets) {
            Err(e) => (Seq::empty(), Some(e)),
            Ok((sub, n)) => if 4 <= n <= octets.len() {
                let (more, error) = submessages_of(octets.subrange(n, octets.len() as int));
                match sub {
                    Some(s) => (seq![s] + more, error),
                    None => (more, error),
                }
            } else {
                (Seq::empty(), Some(Error::Malformed))
            },
        }
    }
}

/// The wire form of a list of submessages.
pub open spec fn submessages_octets(subs: Seq<SubmessageView>, e: Endianness) -> Seq<u8>
    decreases subs.len(),
{
    if subs.len() == 0 {
        Seq::empty()
    } else {
        submessage_octets(subs[0], e) + submessages_octets(subs.skip(1), e)
    }
}

/// A list of submessages comes back from its wire form.
pub proof fn lemma_submessages_round_trip(subs: Seq<SubmessageView>, e: Endianness)
    requires
        forall|i: int| 0 <= i < subs.len() ==> (#[trigger] subs[i]).encodable(e),
    ensures
        submessages_of(submessages_octets(subs, e)) == (subs, None::<Error>),
    decreases subs.len(),
{
    if subs.len() > 0 {
        let tail = submessages_octets(subs.skip(1), e);
        let own = submessage_octets(subs[0], e);
        lemma_submessage_round_trip(subs[0], e, tail);
        assert forall|i: int| 0 <= i < subs.skip(1).len() implies (#[trigger] subs.skip(
            1,
        )[i]).encodable(e) by {
            assert(subs.skip(1)[i] == subs[i + 1]);
        }
        lemma_submessages_round_trip(subs.skip(1), e);
        let all = own + tail;
        assert(all.subrange(own.len() as int, all.len() as int) =~= tail);
        assert(seq![subs[0]] + subs.skip(1) =~= subs);
    }
}

/// The wire form of a message: its header and its submessages.
pub open spec fn message_octets(header: Header, subs: Seq<SubmessageView>, e: Endianness) -> Seq<
    u8,
> {
    header_octets(header) + submessages_octets(subs, e)
}

/// A message comes back from its wire form: its header and each of its
/// submessages, and no error.
pub proof fn lemma_message_round_trip(header: Header, subs: Seq<SubmessageView>, e: Endianness)
    requires
        forall|i: int| 0 <= i < subs.len() ==> (#[trigger] subs[i]).encodable(e),
    ensures
        header_of(message_octets(header, subs, e)) == Ok::<Header, Error>(header),
        submessages_of(
            message_octets(header, subs, e).subrange(
                20,
                message_octets(header, subs, e).len() as int,
            ),
        ) == (subs, None::<Error>),
{
    let body = submessages_octets(subs, e);
    lemma_header_round_trip(header, body);
    lemma_submessages_round_trip(subs, e);
    let all = message_octets(header, subs, e);
    assert(all.subrange(20, all.len() as int) =~= body);
}

/// The wire form of a list with one more submessage is the wire form of the
/// list and then that of the submessage.
pub proof fn lemma_submessages_octets_push(
    subs: Seq<SubmessageView>,
    sub: SubmessageView,
    e: Endianness,
)
    ensures
        submessages_octets(subs.push(sub), e) == submessages_octets(subs, e) + submessage_octets(
            sub,
            e,
        ),
    decreases subs.len(),
{
    let all = subs.push(sub);
    if subs.len() == 0 {
        assert(all.skip(1) =~= Seq::<SubmessageView>::empty());
        assert(submessages_octets(all.skip(1), e) =~= Seq::<u8>::empty());
        assert(all[0] == sub);
        assert(submessages_octets(all, e) =~= submessages_octets(subs, e) + submessage_octets(
            sub,
            e,
        ));
    } else {
        lemma_submessages_octets_push(subs.skip(1), sub, e);
        assert(all.skip(1) =~= subs.skip(1).push(sub));
        assert(submessages_octets(all, e) =~= submessages_octets(subs, e) + submessage_octets(
            sub,
            e,
        ));
    }
}

/// What a list of submessages stands for.
pub open spec fn views_of(subs: Seq<Submessage>) -> Seq<SubmessageView> {
    Seq::new(subs.len(), |i: int| subs[i]@)
}

impl Submessage {
    /// The windows of the submessage are windows.
    pub open spec fn wf(&self) -> bool {
        match self {
            Submessage::AckNack(a) => a.reader_sn_state.wf(),
            Submessage::Gap(g) => g.gap_list.wf(),
            _ => true,
        }
    }

    /// The kind octet of the submessage.
    pub fn kind(&self) -> (k: u8)
        ensures
            k == self@.kind(),
    {
        match self {
            Submessage::Data(_) => SUBMESSAGE_KIND_DATA,
            Submessage::Heartbeat(_) => SUBMESSAGE_KIND_HEARTBEAT,
            Submessage::AckNack(_) => SUBMESSAGE_KIND_ACKNACK,
            Submessage::Gap(_) => SUBMESSAGE_KIND_GAP,
            Submessage::InfoTimestamp(_) => SUBMESSAGE_KIND_INFO_TS,
            Submessage::InfoDestination(_) => SUBMESSAGE_KIND_INFO_DST,
            Submessage::InfoSource(_) => SUBMESSAGE_KIND_INFO_SRC,
            Submessage::InfoReply(_) => SUBMESSAGE_KIND_INFO_REPLY,
        }
    }

    /// Puts the wire form of the submessage behind `out`.
    ///
    /// Fails with `SequenceTooLong`, and puts nothing, where the body is
    /// longer than the length field can say.
    pub fn write(&self, out: &mut Vec<u8>, e: Endianness) -> (r: Result<(), Error>)
        requires
            self.wf(),
        ensures
            match r {
                Ok(()) => self@.body(e).len() <= MAX_SUBMESSAGE_BODY && final(out)@ == old(out)@
                    + submessage_octets(self@, e),
                Err(err) => err == Error::SequenceTooLong && self@.body(e).len()
                    > MAX_SUBMESSAGE_BODY && final(out)@ == old(out)@,
            },
    {
        let mut body: Vec<u8> = Vec::new();
        let flags = match self {
            Submessage::Data(d) => {
                d.write_body(&mut body, e);
                d.flags(e)
            },
            Submessage::Heartbeat(h) => {
                h.write_body(&mut body, e);
                h.flags(e)
            },
            Submessage::AckNack(a) => {
                a.write_body(&mut body, e);
                a.flags(e)
            },
            Submessage::Gap(g) => {
                g.write_body(&mut body, e);
                g.flags(e)
            },
            Submessage::InfoTimestamp(i) => {
                i.write_body(&mut body, e);
                i.flags(e)
            },
            Submessage::InfoDestination(i) => {
                i.write_body(&mut body);
                flags_of(is_little(e), false, false, false)
            },
            Submessage::InfoSource(i) => {
                i.write_body(&mut body);
                flags_of(is_little(e), false, false, false)
            },
            Submessage::InfoReply(i) => {
                i.write_body(&mut body, e);
                i.flags(e)
            },
        };
        assert(body@ =~= self@.body(e));
        if body.len() > MAX_SUBMESSAGE_BODY {
            return Err(Error::SequenceTooLong);
        }
        out.push(self.kind());
        out.push(flags);
        put_uint(out, body.len() as u64, 2, e);
        out.append(&mut body);
        assert(out@ =~= old(out)@ + submessage_octets(self@, e));
        Ok(())
    }

    /// The submessage that the octets of `buf` from `at` on begin with, and
    /// the place behind it; no submessage where it is of a kind that is
    /// passed over.
    pub fn read(buf: &[u8], at: usize) -> (r: Result<(Option<Submessage>, usize), Error>)
        requires
            at <= buf@.len(),
        ensures
            match r {
                Ok((sub, next)) => {
                    &&& submessage_at(buf@.subrange(at as int, buf@.len() as int)) == Ok::<
                        (Option<SubmessageView>, int),
                        Error,
                    >(
                        (
                            match sub {
                                Some(s) => Some(s@),
                                None => None,
                            },
                            next - at,
                        ),
                    )
                    &&& at + 4 <= next <= buf@.len()
                    &&& sub matches Some(s) ==> s.wf()
                },
                Err(err) => submessage_at(buf@.subrange(at as int, buf@.len() as int)) == Err::<
                    (Option<SubmessageView>, int),
                    Error,
                >(err),
            },
    {
        let len = buf.len();
        let ghost octets = buf@.subrange(at as int, len as int);
        if len - at < 4 {
            return Err(Error::Eof);
        }
        let kind = buf[at];
        let flags = buf[at + 1];
        let e = endianness_of(flags);
        let announced = get_uint(buf, at + 2, 2, e);
        proof {
            lemma_octet_ranges();
            assert(octets.subrange(2, 4) =~= buf@.subrange(at + 2, at + 4));
            assert(octets[0] == kind && octets[1] == flags);
        }
        let n: usize = if announced == 0 && kind != SUBMESSAGE_KIND_PAD && kind
            != SUBMESSAGE_KIND_INFO_TS {
            len - at - 4
        } else {
            announced as usize
        };
        if len - at - 4 < n {
            return Err(Error::Eof);
        }
        let body = slice_subrange(buf, at + 4, at + 4 + n);
        assert(body@ =~= octets.subrange(4, 4 + n));
        let next = at + 4 + n;
        let sub = if kind == SUBMESSAGE_KIND_DATA {
            match Data::read_body(body, flags) {
                Ok(d) => Some(Submessage::Data(d)),
                Err(err) => {
                    return Err(err);
                },
            }
        } else if kind == SUBMESSAGE_KIND_HEARTBEAT {
            match Heartbeat::read_body(body, flags) {
                Ok(h) => Some(Submessage::Heartbeat(h)),
                Err(err) => {
                    return Err(err);
                },
            }
        } else if kind == SUBMESSAGE_KIND_ACKNACK {
            match AckNack::read_body(body, flags) {
                Ok(a) => Some(Submessage::AckNack(a)),
                Err(err) => {
                    return Err(err);
                },
            }
        } else if kind == SUBMESSAGE_KIND_GAP {
            match Gap::read_body(body, flags) {
                Ok(g) => Some(Submessage::Gap(g)),
                Err(err) => {
                    return Err(err);
                },
            }
        } else if kind == SUBMESSAGE_KIND_INFO_TS {
            match InfoTimestamp::read_body(body, flags) {
                Ok(i) => Some(Submessage::InfoTimestamp(i)),
                Err(err) => {
                    return Err(err);
                },
            }
        } else if kind == SUBMESSAGE_KIND_INFO_DST {
            match InfoDestination::read_body(body) {
                Ok(i) => Some(Submessage::InfoDestination(i)),
                Err(err) => {
                    return Err(err);
                },
            }
        } else if kind == SUBMESSAGE_KIND_INFO_SRC {
            match InfoSource::read_body(body) {
                Ok(i) => Some(Submessage::InfoSource(i)),
                Err(err) => {
                    return Err(err);
                },
            }
        } else if kind == SUBMESSAGE_KIND_INFO_REPLY {
            match InfoReply::read_body(body, flags) {
                Ok(i) => Some(Submessage::InfoReply(i)),
                Err(err) => {
                    return Err(err);
                },
            }
        } else if kind == SUBMESSAGE_KIND_PAD || kind == SUBMESSAGE_KIND_INFO_REPLY_IP4 || kind
            == SUBMESSAGE_KIND_NACK_FRAG || kind == SUBMESSAGE_KIND_HEARTBEAT_FRAG || kind
            == SUBMESSAGE_KIND_DATA_FRAG || kind >= 0x80 {
            None
        } else {
            return Err(Error::UnknownSubmessage(kind));
        };
        Ok((sub, next))
    }
}

/// A datagram: a header and submessages.
pub struct Message {
    pub header: Header,
    pub submessages: Vec<Submessage>,
}

impl Message {
    /// The windows of the submessages are windows.
    pub open spec fn wf(&self) -> bool {
        forall|i: int| 0 <= i < self.submessages@.len() ==> (#[trigger] self.submessages@[i]).wf()
    }

    /// A message without submessages.
    pub fn new(header: Header) -> (m: Message)
        ensures
            m.header == header,
            m.submessages@.len() == 0,
            m.wf(),
    {
        Message { header, submessages: Vec::new() }
    }

    /// Puts a submessage behind those of the message.
    pub fn add_submessage(&mut self, submessage: Submessage)
        requires
            old(self).wf(),
            submessage.wf(),
        ensures
            final(self).wf(),
            final(self).header == old(self).header,
            final(self).submessages@ == old(self).submessages@.push(submessage),
    {
        self.submessages.push(submessage);
    }

    /// The wire form of the message in the given byte order.
    ///
    /// Fails with `SequenceTooLong` where the body of a submessage is longer
    /// than its length field can say.
    pub fn encode(&self, e: Endianness) -> (r: Result<Vec<u8>, Error>)
        requires
            self.wf(),
        ensures
            match r {
                Ok(octets) => {
                    &&& octets@ == message_octets(self.header, views_of(self.submessages@), e)
                    &&& forall|i: int|
                        0 <= i < self.submessages@.len() ==> (#[trigger] self.submessages@[i])@.body(
                            e,
                        ).len() <= MAX_SUBMESSAGE_BODY
                },
                Err(err) => err == Error::SequenceTooLong && exists|i: int|
                    0 <= i < self.submessages@.len() && (#[trigger] self.submessages@[i])@.body(
                        e,
                    ).len() > MAX_SUBMESSAGE_BODY,
            },
    {
        let mut out: Vec<u8> = Vec::new();
        self.header.write(&mut out);
        let ghost views = views_of(self.submessages@);
        let n = self.submessages.len();
        let mut i: usize = 0;
        proof {
            assert(views.take(0) =~= Seq::<SubmessageView>::empty());
            assert(out@ =~= header_octets(self.header) + submessages_octets(views.take(0), e));
        }
        while i < n
            invariant
                self.wf(),
                n == self.submessages@.len(),
                i <= n,
                views == views_of(self.submessages@),
                out@ == header_octets(self.header) + submessages_octets(views.take(i as int), e),
                forall|k: int|
                    0 <= k < i ==> (#[trigger] self.submessages@[k])@.body(e).len()
                        <= MAX_SUBMESSAGE_BODY,
            decreases n - i,
        {
            match self.submessages[i].write(&mut out, e) {
                Ok(()) => {},
                Err(err) => {
                    return Err(err);
                },
            }
            proof {
                lemma_submessages_octets_push(views.take(i as int), views[i as int], e);
                assert(views.take(i as int + 1) =~= views.take(i as int).push(views[i as int]));
            }
            i += 1;
        }
        assert(views.take(n as int) =~= views);
        Ok(out)
    }

    /// The message that the datagram spells: its header and the submessages
    /// up to the first that is malformed, with the error found there.
    ///
    /// Fails where the datagram does not begin with a header.
    pub fn decode(buf: &[u8]) -> (r: Result<(Message, Option<Error>), Error>)
        ensures
            match r {
                Ok((message, error)) => {
                    &&& header_of(buf@) == Ok::<Header, Error>(message.header)
                    &&& submessages_of(buf@.subrange(20, buf@.len() as int)) == (
                        views_of(message.submessages@),
                        error,
                    )
                    &&& message.wf()
                },
                Err(err) => header_of(buf@) == Err::<Header, Error>(err),
            },
    {
        let header = match Header::read(buf) {
            Ok(header) => header,
            Err(err) => {
                return Err(err);
            },
        };
        let len = buf.len();
        let ghost whole = submessages_of(buf@.subrange(20, len as int));
        let mut submessages: Vec<Submessage> = Vec::new();
        let mut error: Option<Error> = None;
        let mut pos: usize = 20;
        proof {
            assert(views_of(submessages@) =~= Seq::<SubmessageView>::empty());
            assert(Seq::<SubmessageView>::empty() + whole.0 =~= whole.0);
        }
        loop
            invariant_except_break
                20 <= pos <= len,
                len == buf@.len(),
                error is None,
                whole == submessages_of(buf@.subrange(20, len as int)),
                whole == (
                    views_of(submessages@) + submessages_of(
                        buf@.subrange(pos as int, len as int),
                    ).0,
                    submessages_of(buf@.subrange(pos as int, len as int)).1,
                ),
                forall|i: int| 0 <= i < submessages@.len() ==> (#[trigger] submessages@[i]).wf(),
            ensures
                whole == submessages_of(buf@.subrange(20, len as int)),
                whole == (views_of(submessages@), error),
                forall|i: int| 0 <= i < submessages@.len() ==> (#[trigger] submessages@[i]).wf(),
            decreases len - pos,
        {
            let ghost rest = buf@.subrange(pos as int, len as int);
            let ghost before = views_of(submessages@);
            if pos >= len {
                proof {
                    assert(rest.len() == 0);
                    assert(before + Seq::<SubmessageView>::empty() =~= before);
                }
                break ;
            }
            match Submessage::read(buf, pos) {
                Err(err) => {
                    error = Some(err);
                    proof {
                        assert(before + Seq::<SubmessageView>::empty() =~= before);
                    }
                    break ;
                },
                Ok((sub, next)) => {
                    proof {
                        assert(rest.subrange(next - pos, rest.len() as int) =~= buf@.subrange(
                            next as int,
                            len as int,
                        ));
                    }
                    let ghost more = submessages_of(buf@.subrange(next as int, len as int)).0;
                    match sub {
                        Some(s) => {
                            submessages.push(s);
                            proof {
                                assert(views_of(submessages@) =~= before.push(s@));
                                assert(before + (seq![s@] + more) =~= before.push(s@) + more);
                            }
                        },
                        None => {},
                    }
                    pos = next;
                },
            }
        }
        Ok((Message { header, submessages }, error))
    }
}

} // verus!
