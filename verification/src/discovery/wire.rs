//! The records of discovery as parameter lists: what a participant
//! announces of itself and of its readers and writers.

use crate::dds::qos::{Deadline, Durability, History, Ownership, QosPolicies, Reliability};
use crate::discovery::data_types::{
    DiscoveredEndpointData, DiscoveredEndpointView, ParticipantDataView,
    SPDPDiscoveredParticipantData,
};
use crate::discovery::parameter_list::{
    get_parameter_list, lemma_parameter_list_round_trip, no_sentinel, parameter_list_octets,
    parameter_list_of, parameters_view, put_parameter_list, values_fit, Parameter, ParameterView,
};
use crate::messages::serialized_payload::{
    bytes_as_slice, RepresentationIdentifier, SerializedPayload, SerializedPayloadView,
};
use crate::messages::wire::{
    entity_id_octets, entity_id_of, get_entity_id, get_guid_prefix, get_locator, guid_prefix_octets,
    guid_prefix_of, lemma_entity_id_round_trip, lemma_guid_prefix_round_trip,
    lemma_locator_round_trip, locator_octets, locator_of, put_entity_id, put_guid_prefix,
    put_locator,
};
use crate::serialization::{
    endian_value, get_uint, i32_from_wire, i32_to_wire, lemma_octet_ranges, lemma_octets_of,
    lemma_octets_of_value, octets_of, put_uint, read_u128_be, signed_32, string_from_utf8,
    unsigned_32, write_u128_be, Endianness, Error,
};
use crate::structure::guid::{EntityId, GUID};
use crate::structure::locator::Locator;
use crate::structure::time::Duration;
use vstd::prelude::*;
use vstd::slice::{slice_subrange, slice_to_vec};
use vstd::string::StrSliceExecFns;
use vstd::utf8::{decode_utf8, encode_utf8, valid_utf8};

verus! {

/// The id of the parameter that holds the lease of a participant.
pub const PID_PARTICIPANT_LEASE_DURATION: u16 = 0x0002;

/// The id of the parameter that holds the name of a topic.
pub const PID_TOPIC_NAME: u16 = 0x0005;

/// The id of the parameter that holds the name of a type.
pub const PID_TYPE_NAME: u16 = 0x0007;

/// The id of the parameter that holds the version of the protocol.
pub const PID_PROTOCOL_VERSION: u16 = 0x0015;

/// The id of the parameter that holds the vendor.
pub const PID_VENDORID: u16 = 0x0016;

/// The id of the parameter that holds the reliability.
pub const PID_RELIABILITY: u16 = 0x001a;

/// The id of the parameter that holds the durability.
pub const PID_DURABILITY: u16 = 0x001d;

/// The id of the parameter that holds the ownership.
pub const PID_OWNERSHIP: u16 = 0x001f;

/// The id of the parameter that holds the deadline.
pub const PID_DEADLINE: u16 = 0x0023;

/// The id of a parameter that holds a locator of an endpoint.
pub const PID_UNICAST_LOCATOR: u16 = 0x002f;

/// The id of a parameter that holds a locator of the group of an endpoint.
pub const PID_MULTICAST_LOCATOR: u16 = 0x0030;

/// The id of a parameter that holds a locator for the samples of users.
pub const PID_DEFAULT_UNICAST_LOCATOR: u16 = 0x0031;

/// The id of a parameter that holds a locator for discovery.
pub const PID_METATRAFFIC_UNICAST_LOCATOR: u16 = 0x0032;

/// The id of a parameter that holds a locator of the group for discovery.
pub const PID_METATRAFFIC_MULTICAST_LOCATOR: u16 = 0x0033;

/// The id of the parameter that holds the history.
pub const PID_HISTORY: u16 = 0x0040;

/// The id of a parameter that holds a locator of the group for the samples
/// of users.
pub const PID_DEFAULT_MULTICAST_LOCATOR: u16 = 0x0048;

/// The id of the parameter that holds the GUID of a participant.
pub const PID_PARTICIPANT_GUID: u16 = 0x0050;

/// The id of the parameter that holds the GUID of an endpoint.
pub const PID_ENDPOINT_GUID: u16 = 0x005a;

/// The lease of a participant that names none, in seconds.
pub const DEFAULT_LEASE_SECONDS: i32 = 100;

/// The sixteen octets of a GUID: its prefix, then its entity id.
pub open spec fn guid_octets(g: GUID) -> Seq<u8> {
    guid_prefix_octets(g.guidPrefix) + entity_id_octets(g.entityId)
}

/// The GUID that sixteen octets spell.
pub open spec fn guid_of(octets: Seq<u8>) -> GUID {
    GUID {
        guidPrefix: guid_prefix_of(octets.subrange(0, 12)),
        entityId: entity_id_of(octets.subrange(12, 16)),
    }
}

/// Sixteen octets spell the GUID whose octets they are.
pub proof fn lemma_guid_round_trip(g: GUID)
    ensures
        guid_octets(g).len() == 16,
        guid_of(guid_octets(g)) == g,
{
    lemma_guid_prefix_round_trip(g.guidPrefix);
    lemma_entity_id_round_trip(g.entityId);
    let octets = guid_octets(g);
    assert(octets.subrange(0, 12) =~= guid_prefix_octets(g.guidPrefix));
    assert(octets.subrange(12, 16) =~= entity_id_octets(g.entityId));
}

/// The eight octets of a span of time: its seconds, then its fraction, each
/// in the given byte order.
pub open spec fn duration_octets(d: Duration, e: Endianness) -> Seq<u8> {
    octets_of(e, unsigned_32(d.seconds as int), 4) + octets_of(e, d.fraction as nat, 4)
}

/// The span of time that eight octets spell.
pub open spec fn duration_of(octets: Seq<u8>, e: Endianness) -> Duration {
    Duration {
        seconds: signed_32(endian_value(e, octets.subrange(0, 4))) as i32,
        fraction: endian_value(e, octets.subrange(4, 8)) as u32,
    }
}

/// Eight octets spell the span of time whose octets they are.
pub proof fn lemma_duration_round_trip(d: Duration, e: Endianness)
    ensures
        duration_octets(d, e).len() == 8,
        duration_of(duration_octets(d, e), e) == d,
{
    lemma_octet_ranges();
    lemma_octets_of(e, unsigned_32(d.seconds as int), 4);
    lemma_octets_of(e, d.fraction as nat, 4);
    let octets = duration_octets(d, e);
    assert(octets.subrange(0, 4) =~= octets_of(e, unsigned_32(d.seconds as int), 4));
    assert(octets.subrange(4, 8) =~= octets_of(e, d.fraction as nat, 4));
}

/// The parameter of the given id whose value is the octets of a GUID.
fn guid_parameter(id: u16, g: GUID) -> (p: Parameter)
    ensures
        p@ == (ParameterView { id, value: guid_octets(g) }),
{
    let mut value: Vec<u8> = Vec::new();
    put_guid_prefix(&mut value, g.guidPrefix);
    put_entity_id(&mut value, g.entityId);
    assert(value@ =~= guid_octets(g));
    Parameter { id, value }
}

/// The GUID that the first sixteen octets of a value spell.
fn guid_of_value(value: &Vec<u8>) -> (g: GUID)
    requires
        value@.len() >= 16,
    ensures
        g == guid_of(value@.subrange(0, 16)),
{
    let buf = value.as_slice();
    let prefix = get_guid_prefix(buf, 0);
    let id = get_entity_id(buf, 12);
    proof {
        let octets = value@.subrange(0, 16);
        assert(octets.subrange(0, 12) =~= buf@.subrange(0, 12));
        assert(octets.subrange(12, 16) =~= buf@.subrange(12, 16));
    }
    GUID { guidPrefix: prefix, entityId: id }
}

/// The parameter of the given id whose value is the octets of a span of
/// time.
fn duration_parameter(id: u16, d: Duration, e: Endianness) -> (p: Parameter)
    ensures
        p@ == (ParameterView { id, value: duration_octets(d, e) }),
{
    let mut value: Vec<u8> = Vec::new();
    put_uint(&mut value, i32_to_wire(d.seconds) as u64, 4, e);
    put_uint(&mut value, d.fraction as u64, 4, e);
    assert(value@ =~= duration_octets(d, e));
    Parameter { id, value }
}

/// The span of time that the first eight octets of a value spell.
fn duration_of_value(value: &Vec<u8>, e: Endianness) -> (d: Duration)
    requires
        value@.len() >= 8,
    ensures
        d == duration_of(value@.subrange(0, 8), e),
{
    let buf = value.as_slice();
    let seconds = get_uint(buf, 0, 4, e);
    let fraction = get_uint(buf, 4, 4, e);
    proof {
        lemma_octet_ranges();
        let octets = value@.subrange(0, 8);
        assert(octets.subrange(0, 4) =~= buf@.subrange(0, 4));
        assert(octets.subrange(4, 8) =~= buf@.subrange(4, 8));
    }
    Duration { seconds: i32_from_wire(seconds as u32), fraction: fraction as u32 }
}

/// The parameter of the given id whose value is the octets of a locator.
fn locator_parameter(id: u16, l: &Locator, e: Endianness) -> (p: Parameter)
    ensures
        p@ == (ParameterView { id, value: locator_octets(*l, e) }),
{
    let mut value: Vec<u8> = Vec::new();
    put_locator(&mut value, l, e);
    assert(value@ =~= locator_octets(*l, e));
    Parameter { id, value }
}

/// The locator that the first twenty-four octets of a value spell.
fn locator_of_value(value: &Vec<u8>, e: Endianness) -> (l: Locator)
    requires
        value@.len() >= 24,
    ensures
        l == locator_of(value@.subrange(0, 24), e),
{
    let buf = value.as_slice();
    let l = get_locator(buf, 0, e);
    assert(value@.subrange(0, 24) =~= buf@.subrange(0, 24));
    l
}

/// One parameter of the given id for each locator of a list.
pub open spec fn locator_parameters(id: u16, list: Seq<Locator>, e: Endianness) -> Seq<
    ParameterView,
> {
    Seq::new(list.len(), |i: int| ParameterView { id, value: locator_octets(list[i], e) })
}

/// Puts one parameter of the given id for each locator of a list behind
/// `out`.
fn put_locator_parameters(out: &mut Vec<Parameter>, id: u16, list: &Vec<Locator>, e: Endianness)
    ensures
        parameters_view(final(out)@) == parameters_view(old(out)@) + locator_parameters(
            id,
            list@,
            e,
        ),
{
    let n = list.len();
    let mut i: usize = 0;
    assert(parameters_view(out@) =~= parameters_view(old(out)@) + locator_parameters(
        id,
        list@.take(0),
        e,
    ));
    while i < n
        invariant
            i <= n,
            n == list@.len(),
            parameters_view(out@) == parameters_view(old(out)@) + locator_parameters(
                id,
                list@.take(i as int),
                e,
            ),
        decreases n - i,
    {
        let ghost before = parameters_view(out@);
        let p = locator_parameter(id, &list[i], e);
        out.push(p);
        proof {
            assert(parameters_view(out@) =~= before.push(p@));
            assert(list@.take(i as int + 1) =~= list@.take(i as int).push(list@[i as int]));
            assert(parameters_view(out@) =~= parameters_view(old(out)@) + locator_parameters(
                id,
                list@.take(i as int + 1),
                e,
            ));
        }
        i += 1;
    }
    assert(list@.take(n as int) =~= list@);
}

/// The parameters of what a participant announces of itself: the version
/// of the protocol, the vendor, the GUID, the lease, and a parameter for
/// each locator.
pub open spec fn participant_parameters(d: ParticipantDataView, e: Endianness) -> Seq<
    ParameterView,
> {
    seq![
        ParameterView {
            id: PID_PROTOCOL_VERSION,
            value: seq![d.protocol_major, d.protocol_minor, 0u8, 0u8],
        },
        ParameterView { id: PID_VENDORID, value: seq![d.vendor_id0, d.vendor_id1, 0u8, 0u8] },
        ParameterView { id: PID_PARTICIPANT_GUID, value: guid_octets(d.participant_guid) },
        ParameterView {
            id: PID_PARTICIPANT_LEASE_DURATION,
            value: duration_octets(d.lease_duration, e),
        },
    ] + locator_parameters(PID_DEFAULT_UNICAST_LOCATOR, d.default_unicast_locators, e)
        + locator_parameters(PID_DEFAULT_MULTICAST_LOCATOR, d.default_multicast_locators, e)
        + locator_parameters(PID_METATRAFFIC_UNICAST_LOCATOR, d.metatraffic_unicast_locators, e)
        + locator_parameters(
        PID_METATRAFFIC_MULTICAST_LOCATOR,
        d.metatraffic_multicast_locators,
        e,
    )
}

/// A participant of which nothing is known: no GUID, no version, no vendor,
/// no locator, and the lease that holds where none is named.
pub open spec fn blank_participant() -> ParticipantDataView {
    ParticipantDataView {
        participant_guid: GUID {
            guidPrefix: guid_prefix_of(Seq::new(12, |i: int| 0u8)),
            entityId: EntityId::spec_unknown(),
        },
        protocol_major: 0,
        protocol_minor: 0,
        vendor_id0: 0,
        vendor_id1: 0,
        default_unicast_locators: Seq::empty(),
        default_multicast_locators: Seq::empty(),
        metatraffic_unicast_locators: Seq::empty(),
        metatraffic_multicast_locators: Seq::empty(),
        lease_duration: Duration { seconds: DEFAULT_LEASE_SECONDS, fraction: 0 },
    }
}

/// What is known of a participant after one more parameter: a version, a
/// vendor, a GUID or a lease takes the place of the one before, a locator
/// joins its list, and a parameter of another id says nothing.
///
/// Fails with `Malformed` where the value is shorter than what it holds.
pub open spec fn participant_with(d: ParticipantDataView, p: ParameterView, e: Endianness) -> Result<
    ParticipantDataView,
    Error,
> {
    if p.id == PID_PROTOCOL_VERSION {
        if p.value.len() < 2 {
            Err(Error::Malformed)
        } else {
            Ok(ParticipantDataView { protocol_major: p.value[0], protocol_minor: p.value[1], ..d })
        }
    } else if p.id == PID_VENDORID {
        if p.value.len() < 2 {
            Err(Error::Malformed)
        } else {
            Ok(ParticipantDataView { vendor_id0: p.value[0], vendor_id1: p.value[1], ..d })
        }
    } else if p.id == PID_PARTICIPANT_GUID {
        if p.value.len() < 16 {
            Err(Error::Malformed)
        } else {
            Ok(ParticipantDataView { participant_guid: guid_of(p.value.subrange(0, 16)), ..d })
        }
    } else if p.id == PID_PARTICIPANT_LEASE_DURATION {
        if p.value.len() < 8 {
            Err(Error::Malformed)
        } else {
            Ok(ParticipantDataView { lease_duration: duration_of(p.value.subrange(0, 8), e), ..d })
        }
    } else if p.id == PID_DEFAULT_UNICAST_LOCATOR || p.id == PID_DEFAULT_MULTICAST_LOCATOR || p.id
        == PID_METATRAFFIC_UNICAST_LOCATOR || p.id == PID_METATRAFFIC_MULTICAST_LOCATOR {
        if p.value.len() < 24 {
            Err(Error::Malformed)
        } else {
            Ok(participant_with_locator(d, p.id, locator_of(p.value.subrange(0, 24), e)))
        }
    } else {
        Ok(d)
    }
}

/// A participant with one more locator in the list that the id names.
pub open spec fn participant_with_locator(d: ParticipantDataView, id: u16, l: Locator) -> ParticipantDataView {
    participant_with_locators(d, id, seq![l])
}

/// A participant with more locators in the list that the id names.
pub open spec fn participant_with_locators(d: ParticipantDataView, id: u16, list: Seq<Locator>) -> ParticipantDataView {
    if id == PID_DEFAULT_UNICAST_LOCATOR {
        ParticipantDataView { default_unicast_locators: d.default_unicast_locators + list, ..d }
    } else if id == PID_DEFAULT_MULTICAST_LOCATOR {
        ParticipantDataView { default_multicast_locators: d.default_multicast_locators + list, ..d }
    } else if id == PID_METATRAFFIC_UNICAST_LOCATOR {
        ParticipantDataView {
            metatraffic_unicast_locators: d.metatraffic_unicast_locators + list,
            ..d
        }
    } else if id == PID_METATRAFFIC_MULTICAST_LOCATOR {
        ParticipantDataView {
            metatraffic_multicast_locators: d.metatraffic_multicast_locators + list,
            ..d
        }
    } else {
        d
    }
}

/// What is known of a participant after a row of parameters, each taken in
/// its turn.
pub open spec fn participant_with_all(
    d: ParticipantDataView,
    ps: Seq<ParameterView>,
    e: Endianness,
) -> Result<ParticipantDataView, Error>
    decreases ps.len(),
{
    if ps.len() == 0 {
        Ok(d)
    } else {
        match participant_with(d, ps[0], e) {
            Ok(next) => participant_with_all(next, ps.skip(1), e),
            Err(x) => Err(x),
        }
    }
}

/// The octets of what a participant announces of itself: the parameter list
/// of its parameters.
pub open spec fn participant_octets(d: ParticipantDataView, e: Endianness) -> Seq<u8> {
    parameter_list_octets(participant_parameters(d, e), e)
}

/// What the octets of a parameter list say of a participant.
///
/// Fails as the list does, and with `Malformed` where the value of a
/// parameter is shorter than what it holds.
pub open spec fn participant_of(octets: Seq<u8>, e: Endianness) -> Result<
    ParticipantDataView,
    Error,
> {
    match parameter_list_of(octets, e) {
        Ok(ps) => participant_with_all(blank_participant(), ps, e),
        Err(x) => Err(x),
    }
}

/// A row of parameters, then another, is taken as the first and then the
/// second.
pub proof fn lemma_participant_with_both(
    d: ParticipantDataView,
    a: Seq<ParameterView>,
    b: Seq<ParameterView>,
    e: Endianness,
)
    ensures
        participant_with_all(d, a + b, e) == match participant_with_all(d, a, e) {
            Ok(next) => participant_with_all(next, b, e),
            Err(x) => Err(x),
        },
    decreases a.len(),
{
    if a.len() == 0 {
        assert(a + b =~= b);
    } else {
        assert((a + b)[0] == a[0]);
        assert((a + b).skip(1) =~= a.skip(1) + b);
        match participant_with(d, a[0], e) {
            Ok(next) => lemma_participant_with_both(next, a.skip(1), b, e),
            Err(_) => {},
        }
    }
}

/// The parameters of a list of locators put the locators behind those of
/// the list that their id names.
pub proof fn lemma_participant_with_locators(
    d: ParticipantDataView,
    id: u16,
    list: Seq<Locator>,
    e: Endianness,
)
    requires
        id == PID_DEFAULT_UNICAST_LOCATOR || id == PID_DEFAULT_MULTICAST_LOCATOR || id
            == PID_METATRAFFIC_UNICAST_LOCATOR || id == PID_METATRAFFIC_MULTICAST_LOCATOR,
    ensures
        participant_with_all(d, locator_parameters(id, list, e), e) == Ok::<
            ParticipantDataView,
            Error,
        >(participant_with_locators(d, id, list)),
    decreases list.len(),
{
    let ps = locator_parameters(id, list, e);
    if list.len() == 0 {
        assert(d.default_unicast_locators + list =~= d.default_unicast_locators);
        assert(d.default_multicast_locators + list =~= d.default_multicast_locators);
        assert(d.metatraffic_unicast_locators + list =~= d.metatraffic_unicast_locators);
        assert(d.metatraffic_multicast_locators + list =~= d.metatraffic_multicast_locators);
    } else {
        lemma_locator_round_trip(list[0], e);
        assert(ps[0].value.subrange(0, 24) =~= locator_octets(list[0], e));
        let next = participant_with_locator(d, id, list[0]);
        assert(participant_with(d, ps[0], e) == Ok::<ParticipantDataView, Error>(next));
        assert(ps.skip(1) =~= locator_parameters(id, list.skip(1), e));
        lemma_participant_with_locators(next, id, list.skip(1), e);
        assert(d.default_unicast_locators + seq![list[0]] + list.skip(1)
            =~= d.default_unicast_locators + list);
        assert(d.default_multicast_locators + seq![list[0]] + list.skip(1)
            =~= d.default_multicast_locators + list);
        assert(d.metatraffic_unicast_locators + seq![list[0]] + list.skip(1)
            =~= d.metatraffic_unicast_locators + list);
        assert(d.metatraffic_multicast_locators + seq![list[0]] + list.skip(1)
            =~= d.metatraffic_multicast_locators + list);
    }
}

/// The parameters of a participant say of a participant of which nothing
/// was known what the participant is.
pub proof fn lemma_participant_parameters_round_trip(d: ParticipantDataView, e: Endianness)
    ensures
        values_fit(participant_parameters(d, e)),
        no_sentinel(participant_parameters(d, e)),
        participant_with_all(blank_participant(), participant_parameters(d, e), e) == Ok::<
            ParticipantDataView,
            Error,
        >(d),
{
    let blank = blank_participant();
    let head = seq![
        ParameterView {
            id: PID_PROTOCOL_VERSION,
            value: seq![d.protocol_major, d.protocol_minor, 0u8, 0u8],
        },
        ParameterView { id: PID_VENDORID, value: seq![d.vendor_id0, d.vendor_id1, 0u8, 0u8] },
        ParameterView { id: PID_PARTICIPANT_GUID, value: guid_octets(d.participant_guid) },
        ParameterView {
            id: PID_PARTICIPANT_LEASE_DURATION,
            value: duration_octets(d.lease_duration, e),
        },
    ];
    let a = locator_parameters(PID_DEFAULT_UNICAST_LOCATOR, d.default_unicast_locators, e);
    let b = locator_parameters(PID_DEFAULT_MULTICAST_LOCATOR, d.default_multicast_locators, e);
    let c = locator_parameters(
        PID_METATRAFFIC_UNICAST_LOCATOR,
        d.metatraffic_unicast_locators,
        e,
    );
    let f = locator_parameters(
        PID_METATRAFFIC_MULTICAST_LOCATOR,
        d.metatraffic_multicast_locators,
        e,
    );
    let all = participant_parameters(d, e);
    assert(all == head + a + b + c + f);
    lemma_guid_round_trip(d.participant_guid);
    lemma_duration_round_trip(d.lease_duration, e);
    assert forall|i: int| 0 <= i < all.len() implies (#[trigger] all[i]).value.len() <= 0xffff
        && all[i].id != 1 by {
        if i >= 4 {
            let k = i - 4;
            if k < a.len() {
                lemma_locator_round_trip(d.default_unicast_locators[k], e);
            } else if k < a.len() + b.len() {
                lemma_locator_round_trip(d.default_multicast_locators[k - a.len()], e);
            } else if k < a.len() + b.len() + c.len() {
                lemma_locator_round_trip(
                    d.metatraffic_unicast_locators[k - a.len() - b.len()],
                    e,
                );
            } else {
                lemma_locator_round_trip(
                    d.metatraffic_multicast_locators[k - a.len() - b.len() - c.len()],
                    e,
                );
            }
        }
    }
    // the four parameters that stand first
    let d1 = ParticipantDataView {
        protocol_major: d.protocol_major,
        protocol_minor: d.protocol_minor,
        ..blank
    };
    let d2 = ParticipantDataView { vendor_id0: d.vendor_id0, vendor_id1: d.vendor_id1, ..d1 };
    let d3 = ParticipantDataView { participant_guid: d.participant_guid, ..d2 };
    let d4 = ParticipantDataView { lease_duration: d.lease_duration, ..d3 };
    assert(participant_with(blank, head[0], e) == Ok::<ParticipantDataView, Error>(d1));
    assert(participant_with(d1, head[1], e) == Ok::<ParticipantDataView, Error>(d2));
    assert(head[2].value.subrange(0, 16) =~= guid_octets(d.participant_guid));
    assert(participant_with(d2, head[2], e) == Ok::<ParticipantDataView, Error>(d3));
    assert(head[3].value.subrange(0, 8) =~= duration_octets(d.lease_duration, e));
    assert(participant_with(d3, head[3], e) == Ok::<ParticipantDataView, Error>(d4));
    assert(head.skip(1)[0] == head[1]);
    assert(head.skip(1).skip(1)[0] == head[2]);
    assert(head.skip(1).skip(1).skip(1)[0] == head[3]);
    assert(head.skip(1).skip(1).skip(1).skip(1).len() == 0);
    assert(participant_with_all(d4, head.skip(1).skip(1).skip(1).skip(1), e) == Ok::<
        ParticipantDataView,
        Error,
    >(d4));
    assert(participant_with_all(d3, head.skip(1).skip(1).skip(1), e) == Ok::<
        ParticipantDataView,
        Error,
    >(d4));
    assert(participant_with_all(d2, head.skip(1).skip(1), e) == Ok::<ParticipantDataView, Error>(
        d4,
    ));
    assert(participant_with_all(d1, head.skip(1), e) == Ok::<ParticipantDataView, Error>(d4));
    assert(participant_with_all(blank, head, e) == Ok::<ParticipantDataView, Error>(d4));
    // the locators
    let d5 = participant_with_locators(d4, PID_DEFAULT_UNICAST_LOCATOR, d.default_unicast_locators);
    let d6 = participant_with_locators(
        d5,
        PID_DEFAULT_MULTICAST_LOCATOR,
        d.default_multicast_locators,
    );
    let d7 = participant_with_locators(
        d6,
        PID_METATRAFFIC_UNICAST_LOCATOR,
        d.metatraffic_unicast_locators,
    );
    let d8 = participant_with_locators(
        d7,
        PID_METATRAFFIC_MULTICAST_LOCATOR,
        d.metatraffic_multicast_locators,
    );
    lemma_participant_with_locators(d4, PID_DEFAULT_UNICAST_LOCATOR, d.default_unicast_locators, e);
    lemma_participant_with_locators(
        d5,
        PID_DEFAULT_MULTICAST_LOCATOR,
        d.default_multicast_locators,
        e,
    );
    lemma_participant_with_locators(
        d6,
        PID_METATRAFFIC_UNICAST_LOCATOR,
        d.metatraffic_unicast_locators,
        e,
    );
    lemma_participant_with_locators(
        d7,
        PID_METATRAFFIC_MULTICAST_LOCATOR,
        d.metatraffic_multicast_locators,
        e,
    );
    lemma_participant_with_both(blank, head, a, e);
    lemma_participant_with_both(blank, head + a, b, e);
    lemma_participant_with_both(blank, head + a + b, c, e);
    lemma_participant_with_both(blank, head + a + b + c, f, e);
    assert(Seq::<Locator>::empty() + d.default_unicast_locators =~= d.default_unicast_locators);
    assert(Seq::<Locator>::empty() + d.default_multicast_locators
        =~= d.default_multicast_locators);
    assert(Seq::<Locator>::empty() + d.metatraffic_unicast_locators
        =~= d.metatraffic_unicast_locators);
    assert(Seq::<Locator>::empty() + d.metatraffic_multicast_locators
        =~= d.metatraffic_multicast_locators);
    assert(d8 == d);
}

/// The octets of what a participant announces say of the participant what
/// it is, whatever follows them.
pub proof fn lemma_participant_round_trip(d: ParticipantDataView, e: Endianness, rest: Seq<u8>)
    ensures
        participant_of(participant_octets(d, e) + rest, e) == Ok::<ParticipantDataView, Error>(d),
{
    lemma_participant_parameters_round_trip(d, e);
    lemma_parameter_list_round_trip(participant_parameters(d, e), e, rest);
}

/// The parameters of what a participant announces of itself.
pub fn participant_to_parameters(d: &SPDPDiscoveredParticipantData, e: Endianness) -> (ps: Vec<
    Parameter,
>)
    ensures
        parameters_view(ps@) == participant_parameters(d@, e),
{
    let mut ps: Vec<Parameter> = Vec::new();
    let mut version: Vec<u8> = Vec::new();
    version.push(d.protocol_major);
    version.push(d.protocol_minor);
    version.push(0);
    version.push(0);
    assert(version@ =~= seq![d.protocol_major, d.protocol_minor, 0u8, 0u8]);
    ps.push(Parameter { id: PID_PROTOCOL_VERSION, value: version });
    let mut vendor: Vec<u8> = Vec::new();
    vendor.push(d.vendor_id0);
    vendor.push(d.vendor_id1);
    vendor.push(0);
    vendor.push(0);
    assert(vendor@ =~= seq![d.vendor_id0, d.vendor_id1, 0u8, 0u8]);
    ps.push(Parameter { id: PID_VENDORID, value: vendor });
    ps.push(guid_parameter(PID_PARTICIPANT_GUID, d.participant_guid));
    ps.push(duration_parameter(PID_PARTICIPANT_LEASE_DURATION, d.lease_duration, e));
    let ghost head = parameters_view(ps@);
    assert(head =~= seq![
        ParameterView {
            id: PID_PROTOCOL_VERSION,
            value: seq![d.protocol_major, d.protocol_minor, 0u8, 0u8],
        },
        ParameterView { id: PID_VENDORID, value: seq![d.vendor_id0, d.vendor_id1, 0u8, 0u8] },
        ParameterView { id: PID_PARTICIPANT_GUID, value: guid_octets(d.participant_guid) },
        ParameterView {
            id: PID_PARTICIPANT_LEASE_DURATION,
            value: duration_octets(d.lease_duration, e),
        },
    ]);
    put_locator_parameters(&mut ps, PID_DEFAULT_UNICAST_LOCATOR, &d.default_unicast_locators, e);
    put_locator_parameters(
        &mut ps,
        PID_DEFAULT_MULTICAST_LOCATOR,
        &d.default_multicast_locators,
        e,
    );
    put_locator_parameters(
        &mut ps,
        PID_METATRAFFIC_UNICAST_LOCATOR,
        &d.metatraffic_unicast_locators,
        e,
    );
    put_locator_parameters(
        &mut ps,
        PID_METATRAFFIC_MULTICAST_LOCATOR,
        &d.metatraffic_multicast_locators,
        e,
    );
    ps
}

/// Takes one more parameter into what is known of a participant.
fn participant_take(d: &mut SPDPDiscoveredParticipantData, p: &Parameter, e: Endianness) -> (r:
    Result<(), Error>)
    ensures
        match r {
            Ok(()) => participant_with(old(d)@, p@, e) == Ok::<ParticipantDataView, Error>(
                final(d)@,
            ),
            Err(x) => participant_with(old(d)@, p@, e) == Err::<ParticipantDataView, Error>(x),
        },
{
    let n = p.value.len();
    if p.id == PID_PROTOCOL_VERSION {
        if n < 2 {
            return Err(Error::Malformed);
        }
        d.protocol_major = p.value[0];
        d.protocol_minor = p.value[1];
    } else if p.id == PID_VENDORID {
        if n < 2 {
            return Err(Error::Malformed);
        }
        d.vendor_id0 = p.value[0];
        d.vendor_id1 = p.value[1];
    } else if p.id == PID_PARTICIPANT_GUID {
        if n < 16 {
            return Err(Error::Malformed);
        }
        d.participant_guid = guid_of_value(&p.value);
    } else if p.id == PID_PARTICIPANT_LEASE_DURATION {
        if n < 8 {
            return Err(Error::Malformed);
        }
        d.lease_duration = duration_of_value(&p.value, e);
    } else if p.id == PID_DEFAULT_UNICAST_LOCATOR {
        if n < 24 {
            return Err(Error::Malformed);
        }
        d.default_unicast_locators.push(locator_of_value(&p.value, e));
        assert(d.default_unicast_locators@ =~= old(d).default_unicast_locators@ + seq![
            locator_of(p@.value.subrange(0, 24), e),
        ]);
    } else if p.id == PID_DEFAULT_MULTICAST_LOCATOR {
        if n < 24 {
            return Err(Error::Malformed);
        }
        d.default_multicast_locators.push(locator_of_value(&p.value, e));
        assert(d.default_multicast_locators@ =~= old(d).default_multicast_locators@ + seq![
            locator_of(p@.value.subrange(0, 24), e),
        ]);
    } else if p.id == PID_METATRAFFIC_UNICAST_LOCATOR {
        if n < 24 {
            return Err(Error::Malformed);
        }
        d.metatraffic_unicast_locators.push(locator_of_value(&p.value, e));
        assert(d.metatraffic_unicast_locators@ =~= old(d).metatraffic_unicast_locators@ + seq![
            locator_of(p@.value.subrange(0, 24), e),
        ]);
    } else if p.id == PID_METATRAFFIC_MULTICAST_LOCATOR {
        if n < 24 {
            return Err(Error::Malformed);
        }
        d.metatraffic_multicast_locators.push(locator_of_value(&p.value, e));
        assert(d.metatraffic_multicast_locators@ =~= old(d).metatraffic_multicast_locators@
            + seq![locator_of(p@.value.subrange(0, 24), e)]);
    }
    Ok(())
}

/// What a row of parameters says of a participant.
///
/// Fails with `Malformed` where the value of a parameter is shorter than
/// what it holds.
pub fn participant_of_parameters(ps: &Vec<Parameter>, e: Endianness) -> (r: Result<
    SPDPDiscoveredParticipantData,
    Error,
>)
    ensures
        match r {
            Ok(d) => participant_with_all(blank_participant(), parameters_view(ps@), e) == Ok::<
                ParticipantDataView,
                Error,
            >(d@),
            Err(x) => participant_with_all(blank_participant(), parameters_view(ps@), e) == Err::<
                ParticipantDataView,
                Error,
            >(x),
        },
{
    let mut d = SPDPDiscoveredParticipantData {
        participant_guid: GUID::new(),
        protocol_major: 0,
        protocol_minor: 0,
        vendor_id0: 0,
        vendor_id1: 0,
        default_unicast_locators: Vec::new(),
        default_multicast_locators: Vec::new(),
        metatraffic_unicast_locators: Vec::new(),
        metatraffic_multicast_locators: Vec::new(),
        lease_duration: Duration::from_secs(DEFAULT_LEASE_SECONDS),
    };
    proof {
        let q = guid_prefix_of(Seq::new(12, |i: int| 0u8));
        assert(q.entityKey@ == d.participant_guid.guidPrefix.entityKey@);
        assert(q.entityKey =~= d.participant_guid.guidPrefix.entityKey);
        assert(d@.default_unicast_locators =~= Seq::empty());
        assert(d@.default_multicast_locators =~= Seq::empty());
        assert(d@.metatraffic_unicast_locators =~= Seq::empty());
        assert(d@.metatraffic_multicast_locators =~= Seq::empty());
        assert(d@ == blank_participant());
    }
    let ghost view = parameters_view(ps@);
    let n = ps.len();
    let mut i: usize = 0;
    assert(view.skip(0) =~= view);
    while i < n
        invariant
            i <= n,
            n == ps@.len(),
            view == parameters_view(ps@),
            participant_with_all(blank_participant(), view, e) == participant_with_all(
                d@,
                view.skip(i as int),
                e,
            ),
        decreases n - i,
    {
        proof {
            assert(view.skip(i as int)[0] == ps@[i as int]@);
            assert(view.skip(i as int).skip(1) =~= view.skip(i as int + 1));
        }
        match participant_take(&mut d, &ps[i], e) {
            Ok(()) => {},
            Err(x) => {
                return Err(x);
            },
        }
        i += 1;
    }
    Ok(d)
}

/// The octets of what a participant announces of itself.
pub fn write_participant(d: &SPDPDiscoveredParticipantData, e: Endianness) -> (out: Vec<u8>)
    ensures
        out@ == participant_octets(d@, e),
{
    let ps = participant_to_parameters(d, e);
    let mut out: Vec<u8> = Vec::new();
    proof {
        lemma_participant_parameters_round_trip(d@, e);
    }
    let r = put_parameter_list(&mut out, &ps, e);
    assert(r is Ok);
    assert(out@ =~= participant_octets(d@, e));
    out
}

/// What the octets of a parameter list say of a participant.
///
/// Fails with `Eof` where the octets end before the sentinel, and with
/// `Malformed` where the value of a parameter is shorter than what it
/// holds.
pub fn read_participant(buf: &[u8], e: Endianness) -> (r: Result<
    SPDPDiscoveredParticipantData,
    Error,
>)
    ensures
        match r {
            Ok(d) => participant_of(buf@, e) == Ok::<ParticipantDataView, Error>(d@),
            Err(x) => participant_of(buf@, e) == Err::<ParticipantDataView, Error>(x),
        },
{
    match get_parameter_list(buf, e) {
        Ok(ps) => participant_of_parameters(&ps, e),
        Err(x) => Err(x),
    }
}

/// The most octets that a text can have in UTF-8 for its parameter to hold
/// it.
pub const MAX_TEXT_OCTETS: usize = 0xfff7;

/// The fraction of a second that a reliable writer may block, as it is
/// announced: a tenth of a second.
pub const MAX_BLOCKING_FRACTION: u32 = 0x1999_999a;

/// The zero octets that fill `n` octets up to a multiple of four.
pub open spec fn padding(n: nat) -> Seq<u8> {
    Seq::new(((4 - n % 4) % 4) as nat, |i: int| 0u8)
}

/// Whether a text is short enough for a parameter to hold it.
pub open spec fn text_fits(chars: Seq<char>) -> bool {
    encode_utf8(chars).len() <= MAX_TEXT_OCTETS
}

/// The octets of a text: the count of its octets in UTF-8 and one, the
/// octets, a zero octet, and zero octets up to a multiple of four.
pub open spec fn text_octets(chars: Seq<char>, e: Endianness) -> Seq<u8> {
    let text = encode_utf8(chars);
    octets_of(e, (text.len() + 1) as nat, 4) + text + seq![0u8] + padding((text.len() + 1) as nat)
}

/// The text that a value spells.
///
/// Fails with `Malformed` where the value is shorter than its count says or
/// the count is zero, and with `InvalidText` where the octets are not UTF-8.
pub open spec fn text_of(value: Seq<u8>, e: Endianness) -> Result<Seq<char>, Error> {
    if value.len() < 4 {
        Err(Error::Malformed)
    } else {
        let n = endian_value(e, value.subrange(0, 4)) as int;
        if n == 0 || value.len() < 4 + n {
            Err(Error::Malformed)
        } else {
            let text = value.subrange(4, 4 + n - 1);
            if valid_utf8(text) {
                Ok(decode_utf8(text))
            } else {
                Err(Error::InvalidText)
            }
        }
    }
}

/// The octets of a text that fits spell the text, and are a multiple of
/// four, no more than a parameter can hold.
pub proof fn lemma_text_round_trip(chars: Seq<char>, e: Endianness)
    requires
        text_fits(chars),
    ensures
        text_of(text_octets(chars, e), e) == Ok::<Seq<char>, Error>(chars),
        text_octets(chars, e).len() % 4 == 0,
        text_octets(chars, e).len() <= 0xffff,
{
    broadcast use vstd::utf8::encode_utf8_valid_utf8, vstd::utf8::encode_utf8_decode_utf8;

    let text = encode_utf8(chars);
    let n = text.len() + 1;
    let value = text_octets(chars, e);
    lemma_octet_ranges();
    lemma_octets_of(e, n as nat, 4);
    assert(value.subrange(0, 4) =~= octets_of(e, n as nat, 4));
    assert(value.subrange(4, 4 + n - 1) =~= text);
    assert(valid_utf8(text));
    assert(decode_utf8(text) == chars);
}

/// The parameter of the given id whose value is the octets of a text.
///
/// Fails with `SequenceTooLong` where the text does not fit.
fn text_parameter(id: u16, text: &String, e: Endianness) -> (r: Result<Parameter, Error>)
    ensures
        match r {
            Ok(p) => text_fits(text@) && p@ == (ParameterView {
                id,
                value: text_octets(text@, e),
            }),
            Err(x) => !text_fits(text@) && x == Error::SequenceTooLong,
        },
{
    let mut octets = text.as_str().as_bytes_vec();
    let ghost spelled = octets@;
    assert(spelled == encode_utf8(text@));
    let n = octets.len();
    if n > MAX_TEXT_OCTETS {
        return Err(Error::SequenceTooLong);
    }
    let mut value: Vec<u8> = Vec::new();
    put_uint(&mut value, (n + 1) as u64, 4, e);
    value.append(&mut octets);
    value.push(0);
    let ghost head = value@;
    let pad: usize = (4 - (n + 1) % 4) % 4;
    let mut k: usize = 0;
    while k < pad
        invariant
            k <= pad,
            value@ == head + Seq::new(k as nat, |i: int| 0u8),
        decreases pad - k,
    {
        value.push(0);
        assert(value@ =~= head + Seq::new((k + 1) as nat, |i: int| 0u8));
        k += 1;
    }
    assert(value@ =~= text_octets(text@, e));
    Ok(Parameter { id, value })
}

/// The text that a value spells.
fn text_of_value(value: &Vec<u8>, e: Endianness) -> (r: Result<String, Error>)
    ensures
        match r {
            Ok(text) => text_of(value@, e) == Ok::<Seq<char>, Error>(text@),
            Err(x) => text_of(value@, e) == Err::<Seq<char>, Error>(x),
        },
{
    let buf = value.as_slice();
    let len = buf.len();
    if len < 4 {
        return Err(Error::Malformed);
    }
    let n = get_uint(buf, 0, 4, e);
    proof {
        lemma_octet_ranges();
    }
    if n == 0 || ((len - 4) as u64) < n {
        return Err(Error::Malformed);
    }
    let octets = slice_to_vec(slice_subrange(buf, 4, 4 + (n as usize) - 1));
    match string_from_utf8(octets) {
        Some(text) => Ok(text),
        None => Err(Error::InvalidText),
    }
}

/// The number that stands for a durability.
pub open spec fn durability_number(d: Durability) -> nat {
    match d {
        Durability::Volatile => 0,
        Durability::TransientLocal => 1,
        Durability::Transient => 2,
        Durability::Persistent => 3,
    }
}

/// The number that stands for an ownership.
pub open spec fn ownership_number(o: Ownership) -> nat {
    match o {
        Ownership::Shared => 0,
        Ownership::Exclusive => 1,
    }
}

/// The number that stands for a reliability.
pub open spec fn reliability_number(r: Reliability) -> nat {
    match r {
        Reliability::BestEffort => 1,
        Reliability::Reliable => 2,
    }
}

/// The octets of a reliability: its number, and the time that a reliable
/// writer may block.
pub open spec fn reliability_octets(r: Reliability, e: Endianness) -> Seq<u8> {
    octets_of(e, reliability_number(r), 4) + duration_octets(
        Duration { seconds: 0, fraction: MAX_BLOCKING_FRACTION },
        e,
    )
}

/// The octets of a history: zero and the depth where the newest samples
/// are kept, one and a depth of one where all are kept.
pub open spec fn history_octets(h: History, e: Endianness) -> Seq<u8> {
    match h {
        History::KeepLast { depth } => octets_of(e, 0, 4) + octets_of(
            e,
            unsigned_32(depth as int),
            4,
        ),
        History::KeepAll => octets_of(e, 1, 4) + octets_of(e, 1, 4),
    }
}

/// The parameter of a durability, where one is named.
pub open spec fn durability_parameters(d: Option<Durability>, e: Endianness) -> Seq<
    ParameterView,
> {
    match d {
        Some(d) => seq![
            ParameterView { id: PID_DURABILITY, value: octets_of(e, durability_number(d), 4) },
        ],
        None => Seq::empty(),
    }
}

/// The parameter of a deadline, where one is named.
pub open spec fn deadline_parameters(d: Option<Deadline>, e: Endianness) -> Seq<ParameterView> {
    match d {
        Some(d) => seq![ParameterView { id: PID_DEADLINE, value: duration_octets(d.period, e) }],
        None => Seq::empty(),
    }
}

/// The parameter of an ownership, where one is named.
pub open spec fn ownership_parameters(o: Option<Ownership>, e: Endianness) -> Seq<ParameterView> {
    match o {
        Some(o) => seq![
            ParameterView { id: PID_OWNERSHIP, value: octets_of(e, ownership_number(o), 4) },
        ],
        None => Seq::empty(),
    }
}

/// The parameter of a reliability, where one is named.
pub open spec fn reliability_parameters(r: Option<Reliability>, e: Endianness) -> Seq<
    ParameterView,
> {
    match r {
        Some(r) => seq![ParameterView { id: PID_RELIABILITY, value: reliability_octets(r, e) }],
        None => Seq::empty(),
    }
}

/// The parameter of a history, where one is named.
pub open spec fn history_parameters(h: Option<History>, e: Endianness) -> Seq<ParameterView> {
    match h {
        Some(h) => seq![ParameterView { id: PID_HISTORY, value: history_octets(h, e) }],
        None => Seq::empty(),
    }
}

/// The parameters of the policies that are named, in the order durability,
/// deadline, ownership, reliability, history.
pub open spec fn qos_parameters(q: QosPolicies, e: Endianness) -> Seq<ParameterView> {
    durability_parameters(q.durability, e) + deadline_parameters(q.deadline, e)
        + ownership_parameters(q.ownership, e) + reliability_parameters(q.reliability, e)
        + history_parameters(q.history, e)
}

/// The policies after one more parameter: a policy that the parameter names
/// takes the place of the one before, and a parameter of another id says
/// nothing.
///
/// Fails with `Malformed` where the value is shorter than what it holds,
/// or its number stands for nothing.
pub open spec fn qos_with(q: QosPolicies, p: ParameterView, e: Endianness) -> Result<
    QosPolicies,
    Error,
> {
    if p.id == PID_DURABILITY {
        if p.value.len() < 4 {
            Err(Error::Malformed)
        } else {
            let n = endian_value(e, p.value.subrange(0, 4));
            if n == 0 {
                Ok(QosPolicies { durability: Some(Durability::Volatile), ..q })
            } else if n == 1 {
                Ok(QosPolicies { durability: Some(Durability::TransientLocal), ..q })
            } else if n == 2 {
                Ok(QosPolicies { durability: Some(Durability::Transient), ..q })
            } else if n == 3 {
                Ok(QosPolicies { durability: Some(Durability::Persistent), ..q })
            } else {
                Err(Error::Malformed)
            }
        }
    } else if p.id == PID_DEADLINE {
        if p.value.len() < 8 {
            Err(Error::Malformed)
        } else {
            Ok(
                QosPolicies {
                    deadline: Some(Deadline { period: duration_of(p.value.subrange(0, 8), e) }),
                    ..q
                },
            )
        }
    } else if p.id == PID_OWNERSHIP {
        if p.value.len() < 4 {
            Err(Error::Malformed)
        } else {
            let n = endian_value(e, p.value.subrange(0, 4));
            if n == 0 {
                Ok(QosPolicies { ownership: Some(Ownership::Shared), ..q })
            } else if n == 1 {
                Ok(QosPolicies { ownership: Some(Ownership::Exclusive), ..q })
            } else {
                Err(Error::Malformed)
            }
        }
    } else if p.id == PID_RELIABILITY {
        if p.value.len() < 4 {
            Err(Error::Malformed)
        } else {
            let n = endian_value(e, p.value.subrange(0, 4));
            if n == 1 {
                Ok(QosPolicies { reliability: Some(Reliability::BestEffort), ..q })
            } else if n == 2 {
                Ok(QosPolicies { reliability: Some(Reliability::Reliable), ..q })
            } else {
                Err(Error::Malformed)
            }
        }
    } else if p.id == PID_HISTORY {
        if p.value.len() < 8 {
            Err(Error::Malformed)
        } else {
            let n = endian_value(e, p.value.subrange(0, 4));
            if n == 0 {
                Ok(
                    QosPolicies {
                        history: Some(
                            History::KeepLast {
                                depth: signed_32(endian_value(e, p.value.subrange(4, 8))) as i32,
                            },
                        ),
                        ..q
                    },
                )
            } else if n == 1 {
                Ok(QosPolicies { history: Some(History::KeepAll), ..q })
            } else {
                Err(Error::Malformed)
            }
        }
    } else {
        Ok(q)
    }
}

/// Whether a parameter names a policy.
pub open spec fn is_qos_parameter(id: u16) -> bool {
    id == PID_DURABILITY || id == PID_DEADLINE || id == PID_OWNERSHIP || id == PID_RELIABILITY
        || id == PID_HISTORY
}

/// The parameter of the given id whose value is a number in four octets.
fn number_parameter(id: u16, n: u32, e: Endianness) -> (p: Parameter)
    ensures
        p@ == (ParameterView { id, value: octets_of(e, n as nat, 4) }),
{
    let mut value: Vec<u8> = Vec::new();
    put_uint(&mut value, n as u64, 4, e);
    assert(value@ =~= octets_of(e, n as nat, 4));
    Parameter { id, value }
}

/// Puts the parameter of a durability behind `out`, where one is named.
fn put_durability(out: &mut Vec<Parameter>, d: Option<Durability>, e: Endianness)
    ensures
        parameters_view(final(out)@) == parameters_view(old(out)@) + durability_parameters(d, e),
{
    match d {
        Some(d) => {
            let n: u32 = match d {
                Durability::Volatile => 0,
                Durability::TransientLocal => 1,
                Durability::Transient => 2,
                Durability::Persistent => 3,
            };
            out.push(number_parameter(PID_DURABILITY, n, e));
        },
        None => {},
    }
    assert(parameters_view(out@) =~= parameters_view(old(out)@) + durability_parameters(d, e));
}

/// Puts the parameter of a deadline behind `out`, where one is named.
fn put_deadline(out: &mut Vec<Parameter>, d: Option<Deadline>, e: Endianness)
    ensures
        parameters_view(final(out)@) == parameters_view(old(out)@) + deadline_parameters(d, e),
{
    match d {
        Some(d) => {
            out.push(duration_parameter(PID_DEADLINE, d.period, e));
        },
        None => {},
    }
    assert(parameters_view(out@) =~= parameters_view(old(out)@) + deadline_parameters(d, e));
}

/// Puts the parameter of an ownership behind `out`, where one is named.
fn put_ownership(out: &mut Vec<Parameter>, o: Option<Ownership>, e: Endianness)
    ensures
        parameters_view(final(out)@) == parameters_view(old(out)@) + ownership_parameters(o, e),
{
    match o {
        Some(o) => {
            let n: u32 = match o {
                Ownership::Shared => 0,
                Ownership::Exclusive => 1,
            };
            out.push(number_parameter(PID_OWNERSHIP, n, e));
        },
        None => {},
    }
    assert(parameters_view(out@) =~= parameters_view(old(out)@) + ownership_parameters(o, e));
}

/// Puts the parameter of a reliability behind `out`, where one is named.
fn put_reliability(out: &mut Vec<Parameter>, r: Option<Reliability>, e: Endianness)
    ensures
        parameters_view(final(out)@) == parameters_view(old(out)@) + reliability_parameters(r, e),
{
    match r {
        Some(r) => {
            let n: u32 = match r {
                Reliability::BestEffort => 1,
                Reliability::Reliable => 2,
            };
            let mut value: Vec<u8> = Vec::new();
            put_uint(&mut value, n as u64, 4, e);
            put_uint(&mut value, 0, 4, e);
            put_uint(&mut value, MAX_BLOCKING_FRACTION as u64, 4, e);
            assert(value@ =~= reliability_octets(r, e));
            out.push(Parameter { id: PID_RELIABILITY, value });
        },
        None => {},
    }
    assert(parameters_view(out@) =~= parameters_view(old(out)@) + reliability_parameters(r, e));
}

/// Puts the parameter of a history behind `out`, where one is named.
fn put_history(out: &mut Vec<Parameter>, h: Option<History>, e: Endianness)
    ensures
        parameters_view(final(out)@) == parameters_view(old(out)@) + history_parameters(h, e),
{
    match h {
        Some(h) => {
            let mut value: Vec<u8> = Vec::new();
            match h {
                History::KeepLast { depth } => {
                    put_uint(&mut value, 0, 4, e);
                    put_uint(&mut value, i32_to_wire(depth) as u64, 4, e);
                },
                History::KeepAll => {
                    put_uint(&mut value, 1, 4, e);
                    put_uint(&mut value, 1, 4, e);
                },
            }
            assert(value@ =~= history_octets(h, e));
            out.push(Parameter { id: PID_HISTORY, value });
        },
        None => {},
    }
    assert(parameters_view(out@) =~= parameters_view(old(out)@) + history_parameters(h, e));
}

/// Puts the parameters of the policies that are named behind `out`.
fn put_qos_parameters(out: &mut Vec<Parameter>, q: &QosPolicies, e: Endianness)
    ensures
        parameters_view(final(out)@) == parameters_view(old(out)@) + qos_parameters(*q, e),
{
    put_durability(out, q.durability, e);
    put_deadline(out, q.deadline, e);
    put_ownership(out, q.ownership, e);
    put_reliability(out, q.reliability, e);
    put_history(out, q.history, e);
    assert(parameters_view(out@) =~= parameters_view(old(out)@) + qos_parameters(*q, e));
}

/// Takes one more parameter into the policies.
fn qos_take(q: &mut QosPolicies, p: &Parameter, e: Endianness) -> (r: Result<(), Error>)
    requires
        is_qos_parameter(p.id),
    ensures
        match r {
            Ok(()) => qos_with(*old(q), p@, e) == Ok::<QosPolicies, Error>(*final(q)),
            Err(x) => qos_with(*old(q), p@, e) == Err::<QosPolicies, Error>(x),
        },
{
    let buf = p.value.as_slice();
    let len = buf.len();
    if len < 4 {
        return Err(Error::Malformed);
    }
    let n = get_uint(buf, 0, 4, e);
    assert(p@.value.subrange(0, 4) =~= buf@.subrange(0, 4));
    if p.id == PID_DURABILITY {
        if n == 0 {
            q.durability = Some(Durability::Volatile);
        } else if n == 1 {
            q.durability = Some(Durability::TransientLocal);
        } else if n == 2 {
            q.durability = Some(Durability::Transient);
        } else if n == 3 {
            q.durability = Some(Durability::Persistent);
        } else {
            return Err(Error::Malformed);
        }
    } else if p.id == PID_DEADLINE {
        if len < 8 {
            return Err(Error::Malformed);
        }
        q.deadline = Some(Deadline { period: duration_of_value(&p.value, e) });
    } else if p.id == PID_OWNERSHIP {
        if n == 0 {
            q.ownership = Some(Ownership::Shared);
        } else if n == 1 {
            q.ownership = Some(Ownership::Exclusive);
        } else {
            return Err(Error::Malformed);
        }
    } else if p.id == PID_RELIABILITY {
        if n == 1 {
            q.reliability = Some(Reliability::BestEffort);
        } else if n == 2 {
            q.reliability = Some(Reliability::Reliable);
        } else {
            return Err(Error::Malformed);
        }
    } else {
        if len < 8 {
            return Err(Error::Malformed);
        }
        if n == 0 {
            let depth = get_uint(buf, 4, 4, e);
            proof {
                lemma_octet_ranges();
                assert(p@.value.subrange(4, 8) =~= buf@.subrange(4, 8));
            }
            q.history = Some(History::KeepLast { depth: i32_from_wire(depth as u32) });
        } else if n == 1 {
            q.history = Some(History::KeepAll);
        } else {
            return Err(Error::Malformed);
        }
    }
    Ok(())
}

/// The parameters of what is announced of a reader or a writer: its GUID,
/// the names of its topic and of its type, the policies that are named, and
/// a parameter for each locator.
pub open spec fn endpoint_parameters(d: DiscoveredEndpointView, e: Endianness) -> Seq<
    ParameterView,
> {
    seq![
        ParameterView { id: PID_ENDPOINT_GUID, value: guid_octets(d.guid) },
        ParameterView { id: PID_TOPIC_NAME, value: text_octets(d.topic_name, e) },
        ParameterView { id: PID_TYPE_NAME, value: text_octets(d.data_type_name, e) },
    ] + qos_parameters(d.qos, e) + locator_parameters(PID_UNICAST_LOCATOR, d.unicast_locators, e)
        + locator_parameters(PID_MULTICAST_LOCATOR, d.multicast_locators, e)
}

/// No policy named.
pub open spec fn no_qos() -> QosPolicies {
    QosPolicies { durability: None, deadline: None, ownership: None, reliability: None, history: None }
}

/// An endpoint of which nothing is known: no GUID, empty names, no policy,
/// no locator.
pub open spec fn blank_endpoint() -> DiscoveredEndpointView {
    DiscoveredEndpointView {
        guid: GUID {
            guidPrefix: guid_prefix_of(Seq::new(12, |i: int| 0u8)),
            entityId: EntityId::spec_unknown(),
        },
        topic_name: Seq::empty(),
        data_type_name: Seq::empty(),
        qos: no_qos(),
        unicast_locators: Seq::empty(),
        multicast_locators: Seq::empty(),
    }
}

/// An endpoint with more locators in the list that the id names.
pub open spec fn endpoint_with_locators(d: DiscoveredEndpointView, id: u16, list: Seq<Locator>) -> DiscoveredEndpointView {
    if id == PID_UNICAST_LOCATOR {
        DiscoveredEndpointView { unicast_locators: d.unicast_locators + list, ..d }
    } else if id == PID_MULTICAST_LOCATOR {
        DiscoveredEndpointView { multicast_locators: d.multicast_locators + list, ..d }
    } else {
        d
    }
}

/// What is known of an endpoint after one more parameter: a GUID, a name or
/// a policy takes the place of the one before, a locator joins its list,
/// and a parameter of another id says nothing.
///
/// Fails with `Malformed` where the value is shorter than what it holds or
/// a number stands for nothing, and with `InvalidText` where a name is not
/// UTF-8.
pub open spec fn endpoint_with(d: DiscoveredEndpointView, p: ParameterView, e: Endianness) -> Result<
    DiscoveredEndpointView,
    Error,
> {
    if p.id == PID_ENDPOINT_GUID {
        if p.value.len() < 16 {
            Err(Error::Malformed)
        } else {
            Ok(DiscoveredEndpointView { guid: guid_of(p.value.subrange(0, 16)), ..d })
        }
    } else if p.id == PID_TOPIC_NAME {
        match text_of(p.value, e) {
            Ok(text) => Ok(DiscoveredEndpointView { topic_name: text, ..d }),
            Err(x) => Err(x),
        }
    } else if p.id == PID_TYPE_NAME {
        match text_of(p.value, e) {
            Ok(text) => Ok(DiscoveredEndpointView { data_type_name: text, ..d }),
            Err(x) => Err(x),
        }
    } else if is_qos_parameter(p.id) {
        match qos_with(d.qos, p, e) {
            Ok(q) => Ok(DiscoveredEndpointView { qos: q, ..d }),
            Err(x) => Err(x),
        }
    } else if p.id == PID_UNICAST_LOCATOR || p.id == PID_MULTICAST_LOCATOR {
        if p.value.len() < 24 {
            Err(Error::Malformed)
        } else {
            Ok(endpoint_with_locators(d, p.id, seq![locator_of(p.value.subrange(0, 24), e)]))
        }
    } else {
        Ok(d)
    }
}

/// What is known of an endpoint after a row of parameters, each taken in
/// its turn.
pub open spec fn endpoint_with_all(
    d: DiscoveredEndpointView,
    ps: Seq<ParameterView>,
    e: Endianness,
) -> Result<DiscoveredEndpointView, Error>
    decreases ps.len(),
{
    if ps.len() == 0 {
        Ok(d)
    } else {
        match endpoint_with(d, ps[0], e) {
            Ok(next) => endpoint_with_all(next, ps.skip(1), e),
            Err(x) => Err(x),
        }
    }
}

/// The octets of what is announced of a reader or a writer: the parameter
/// list of its parameters.
pub open spec fn endpoint_octets(d: DiscoveredEndpointView, e: Endianness) -> Seq<u8> {
    parameter_list_octets(endpoint_parameters(d, e), e)
}

/// What the octets of a parameter list say of an endpoint.
///
/// Fails as the list does, and as a parameter of it does.
pub open spec fn endpoint_of(octets: Seq<u8>, e: Endianness) -> Result<
    DiscoveredEndpointView,
    Error,
> {
    match parameter_list_of(octets, e) {
        Ok(ps) => endpoint_with_all(blank_endpoint(), ps, e),
        Err(x) => Err(x),
    }
}

/// A row of parameters, then another, is taken as the first and then the
/// second.
pub proof fn lemma_endpoint_with_both(
    d: DiscoveredEndpointView,
    a: Seq<ParameterView>,
    b: Seq<ParameterView>,
    e: Endianness,
)
    ensures
        endpoint_with_all(d, a + b, e) == match endpoint_with_all(d, a, e) {
            Ok(next) => endpoint_with_all(next, b, e),
            Err(x) => Err(x),
        },
    decreases a.len(),
{
    if a.len() == 0 {
        assert(a + b =~= b);
    } else {
        assert((a + b)[0] == a[0]);
        assert((a + b).skip(1) =~= a.skip(1) + b);
        match endpoint_with(d, a[0], e) {
            Ok(next) => lemma_endpoint_with_both(next, a.skip(1), b, e),
            Err(_) => {},
        }
    }
}

/// A row of one parameter is taken as the parameter is.
pub proof fn lemma_endpoint_with_one(d: DiscoveredEndpointView, p: ParameterView, e: Endianness)
    ensures
        endpoint_with_all(d, seq![p], e) == endpoint_with(d, p, e),
{
    let ps = seq![p];
    assert(ps[0] == p);
    assert(ps.skip(1).len() == 0);
    match endpoint_with(d, p, e) {
        Ok(next) => {
            assert(endpoint_with_all(next, ps.skip(1), e) == Ok::<DiscoveredEndpointView, Error>(
                next,
            ));
        },
        Err(_) => {},
    }
}

/// The parameters of a list of locators put the locators behind those of
/// the list that their id names.
pub proof fn lemma_endpoint_with_locators(
    d: DiscoveredEndpointView,
    id: u16,
    list: Seq<Locator>,
    e: Endianness,
)
    requires
        id == PID_UNICAST_LOCATOR || id == PID_MULTICAST_LOCATOR,
    ensures
        endpoint_with_all(d, locator_parameters(id, list, e), e) == Ok::<
            DiscoveredEndpointView,
            Error,
        >(endpoint_with_locators(d, id, list)),
    decreases list.len(),
{
    let ps = locator_parameters(id, list, e);
    if list.len() == 0 {
        assert(d.unicast_locators + list =~= d.unicast_locators);
        assert(d.multicast_locators + list =~= d.multicast_locators);
    } else {
        lemma_locator_round_trip(list[0], e);
        assert(ps[0].value.subrange(0, 24) =~= locator_octets(list[0], e));
        let next = endpoint_with_locators(d, id, seq![list[0]]);
        assert(endpoint_with(d, ps[0], e) == Ok::<DiscoveredEndpointView, Error>(next));
        assert(ps.skip(1) =~= locator_parameters(id, list.skip(1), e));
        lemma_endpoint_with_locators(next, id, list.skip(1), e);
        assert(d.unicast_locators + seq![list[0]] + list.skip(1) =~= d.unicast_locators + list);
        assert(d.multicast_locators + seq![list[0]] + list.skip(1) =~= d.multicast_locators
            + list);
    }
}

/// The parameter of a durability says of the policies what the durability
/// is, and leaves them as they are where none is named.
pub proof fn lemma_endpoint_with_durability(
    d: DiscoveredEndpointView,
    x: Option<Durability>,
    e: Endianness,
)
    ensures
        endpoint_with_all(d, durability_parameters(x, e), e) == Ok::<
            DiscoveredEndpointView,
            Error,
        >(
            match x {
                Some(v) => DiscoveredEndpointView {
                    qos: QosPolicies { durability: Some(v), ..d.qos },
                    ..d
                },
                None => d,
            },
        ),
{
    lemma_octet_ranges();
    match x {
        Some(v) => {
            let p = ParameterView {
                id: PID_DURABILITY,
                value: octets_of(e, durability_number(v), 4),
            };
            lemma_octets_of(e, durability_number(v), 4);
            assert(p.value.subrange(0, 4) =~= p.value);
            lemma_endpoint_with_one(d, p, e);
        },
        None => {},
    }
}

/// The parameter of a deadline says of the policies what the deadline is,
/// and leaves them as they are where none is named.
pub proof fn lemma_endpoint_with_deadline(
    d: DiscoveredEndpointView,
    x: Option<Deadline>,
    e: Endianness,
)
    ensures
        endpoint_with_all(d, deadline_parameters(x, e), e) == Ok::<DiscoveredEndpointView, Error>(
            match x {
                Some(v) => DiscoveredEndpointView {
                    qos: QosPolicies { deadline: Some(v), ..d.qos },
                    ..d
                },
                None => d,
            },
        ),
{
    match x {
        Some(v) => {
            let p = ParameterView { id: PID_DEADLINE, value: duration_octets(v.period, e) };
            lemma_duration_round_trip(v.period, e);
            assert(p.value.subrange(0, 8) =~= p.value);
            lemma_endpoint_with_one(d, p, e);
        },
        None => {},
    }
}

/// The parameter of an ownership says of the policies what the ownership
/// is, and leaves them as they are where none is named.
pub proof fn lemma_endpoint_with_ownership(
    d: DiscoveredEndpointView,
    x: Option<Ownership>,
    e: Endianness,
)
    ensures
        endpoint_with_all(d, ownership_parameters(x, e), e) == Ok::<DiscoveredEndpointView, Error>(
            match x {
                Some(v) => DiscoveredEndpointView {
                    qos: QosPolicies { ownership: Some(v), ..d.qos },
                    ..d
                },
                None => d,
            },
        ),
{
    lemma_octet_ranges();
    match x {
        Some(v) => {
            let p = ParameterView {
                id: PID_OWNERSHIP,
                value: octets_of(e, ownership_number(v), 4),
            };
            lemma_octets_of(e, ownership_number(v), 4);
            assert(p.value.subrange(0, 4) =~= p.value);
            lemma_endpoint_with_one(d, p, e);
        },
        None => {},
    }
}

/// The parameter of a reliability says of the policies what the
/// reliability is, and leaves them as they are where none is named.
pub proof fn lemma_endpoint_with_reliability(
    d: DiscoveredEndpointView,
    x: Option<Reliability>,
    e: Endianness,
)
    ensures
        endpoint_with_all(d, reliability_parameters(x, e), e) == Ok::<
            DiscoveredEndpointView,
            Error,
        >(
            match x {
                Some(v) => DiscoveredEndpointView {
                    qos: QosPolicies { reliability: Some(v), ..d.qos },
                    ..d
                },
                None => d,
            },
        ),
{
    lemma_octet_ranges();
    match x {
        Some(v) => {
            let p = ParameterView { id: PID_RELIABILITY, value: reliability_octets(v, e) };
            lemma_octets_of(e, reliability_number(v), 4);
            lemma_duration_round_trip(Duration { seconds: 0, fraction: MAX_BLOCKING_FRACTION }, e);
            assert(p.value.subrange(0, 4) =~= octets_of(e, reliability_number(v), 4));
            lemma_endpoint_with_one(d, p, e);
        },
        None => {},
    }
}

/// The parameter of a history says of the policies what the history is,
/// and leaves them as they are where none is named.
pub proof fn lemma_endpoint_with_history(
    d: DiscoveredEndpointView,
    x: Option<History>,
    e: Endianness,
)
    ensures
        endpoint_with_all(d, history_parameters(x, e), e) == Ok::<DiscoveredEndpointView, Error>(
            match x {
                Some(v) => DiscoveredEndpointView {
                    qos: QosPolicies { history: Some(v), ..d.qos },
                    ..d
                },
                None => d,
            },
        ),
{
    lemma_octet_ranges();
    match x {
        Some(v) => {
            let p = ParameterView { id: PID_HISTORY, value: history_octets(v, e) };
            lemma_octets_of(e, 0, 4);
            lemma_octets_of(e, 1, 4);
            match v {
                History::KeepLast { depth } => {
                    lemma_octets_of(e, unsigned_32(depth as int), 4);
                    assert(p.value.subrange(0, 4) =~= octets_of(e, 0, 4));
                    assert(p.value.subrange(4, 8) =~= octets_of(e, unsigned_32(depth as int), 4));
                },
                History::KeepAll => {
                    assert(p.value.subrange(0, 4) =~= octets_of(e, 1, 4));
                },
            }
            lemma_endpoint_with_one(d, p, e);
        },
        None => {},
    }
}

/// The parameters of policies say of an endpoint that named none what the
/// policies are.
pub proof fn lemma_endpoint_with_qos(d: DiscoveredEndpointView, q: QosPolicies, e: Endianness)
    requires
        d.qos == no_qos(),
    ensures
        endpoint_with_all(d, qos_parameters(q, e), e) == Ok::<DiscoveredEndpointView, Error>(
            DiscoveredEndpointView { qos: q, ..d },
        ),
{
    let a = durability_parameters(q.durability, e);
    let b = deadline_parameters(q.deadline, e);
    let c = ownership_parameters(q.ownership, e);
    let f = reliability_parameters(q.reliability, e);
    let g = history_parameters(q.history, e);
    let d1 = DiscoveredEndpointView { qos: QosPolicies { durability: q.durability, ..d.qos }, ..d };
    let d2 = DiscoveredEndpointView { qos: QosPolicies { deadline: q.deadline, ..d1.qos }, ..d };
    let d3 = DiscoveredEndpointView { qos: QosPolicies { ownership: q.ownership, ..d2.qos }, ..d };
    let d4 = DiscoveredEndpointView {
        qos: QosPolicies { reliability: q.reliability, ..d3.qos },
        ..d
    };
    let d5 = DiscoveredEndpointView { qos: QosPolicies { history: q.history, ..d4.qos }, ..d };
    lemma_endpoint_with_durability(d, q.durability, e);
    assert(endpoint_with_all(d, a, e) == Ok::<DiscoveredEndpointView, Error>(d1));
    lemma_endpoint_with_deadline(d1, q.deadline, e);
    assert(endpoint_with_all(d1, b, e) == Ok::<DiscoveredEndpointView, Error>(d2));
    lemma_endpoint_with_ownership(d2, q.ownership, e);
    assert(endpoint_with_all(d2, c, e) == Ok::<DiscoveredEndpointView, Error>(d3));
    lemma_endpoint_with_reliability(d3, q.reliability, e);
    assert(endpoint_with_all(d3, f, e) == Ok::<DiscoveredEndpointView, Error>(d4));
    lemma_endpoint_with_history(d4, q.history, e);
    assert(endpoint_with_all(d4, g, e) == Ok::<DiscoveredEndpointView, Error>(d5));
    lemma_endpoint_with_both(d, a, b, e);
    lemma_endpoint_with_both(d, a + b, c, e);
    lemma_endpoint_with_both(d, a + b + c, f, e);
    lemma_endpoint_with_both(d, a + b + c + f, g, e);
    assert(d5.qos == q);
}

/// Each parameter of policies has a value of at most twelve octets, and
/// none has the id of the sentinel.
pub proof fn lemma_qos_parameters_fit(q: QosPolicies, e: Endianness)
    ensures
        values_fit(qos_parameters(q, e)),
        no_sentinel(qos_parameters(q, e)),
{
    let ps = qos_parameters(q, e);
    lemma_octets_of(e, 0, 4);
    lemma_octets_of(e, 1, 4);
    lemma_duration_round_trip(Duration { seconds: 0, fraction: MAX_BLOCKING_FRACTION }, e);
    match q.durability {
        Some(v) => lemma_octets_of(e, durability_number(v), 4),
        None => {},
    }
    match q.deadline {
        Some(v) => lemma_duration_round_trip(v.period, e),
        None => {},
    }
    match q.ownership {
        Some(v) => lemma_octets_of(e, ownership_number(v), 4),
        None => {},
    }
    match q.reliability {
        Some(v) => lemma_octets_of(e, reliability_number(v), 4),
        None => {},
    }
    match q.history {
        Some(History::KeepLast { depth }) => lemma_octets_of(e, unsigned_32(depth as int), 4),
        _ => {},
    }
    let a = durability_parameters(q.durability, e);
    let b = deadline_parameters(q.deadline, e);
    let c = ownership_parameters(q.ownership, e);
    let f = reliability_parameters(q.reliability, e);
    let g = history_parameters(q.history, e);
    assert forall|i: int| 0 <= i < ps.len() implies (#[trigger] ps[i]).value.len() <= 0xffff
        && ps[i].id != 1 by {
        if i < a.len() {
            assert(ps[i] == a[i]);
        } else if i < a.len() + b.len() {
            assert(ps[i] == b[i - a.len()]);
        } else if i < a.len() + b.len() + c.len() {
            assert(ps[i] == c[i - a.len() - b.len()]);
        } else if i < a.len() + b.len() + c.len() + f.len() {
            assert(ps[i] == f[i - a.len() - b.len() - c.len()]);
        } else {
            assert(ps[i] == g[i - a.len() - b.len() - c.len() - f.len()]);
        }
    }
}

/// The parameters of an endpoint whose names fit say of an endpoint of
/// which nothing was known what the endpoint is.
pub proof fn lemma_endpoint_parameters_round_trip(d: DiscoveredEndpointView, e: Endianness)
    requires
        text_fits(d.topic_name),
        text_fits(d.data_type_name),
    ensures
        values_fit(endpoint_parameters(d, e)),
        no_sentinel(endpoint_parameters(d, e)),
        endpoint_with_all(blank_endpoint(), endpoint_parameters(d, e), e) == Ok::<
            DiscoveredEndpointView,
            Error,
        >(d),
{
    let blank = blank_endpoint();
    let head = seq![
        ParameterView { id: PID_ENDPOINT_GUID, value: guid_octets(d.guid) },
        ParameterView { id: PID_TOPIC_NAME, value: text_octets(d.topic_name, e) },
        ParameterView { id: PID_TYPE_NAME, value: text_octets(d.data_type_name, e) },
    ];
    let q = qos_parameters(d.qos, e);
    let a = locator_parameters(PID_UNICAST_LOCATOR, d.unicast_locators, e);
    let b = locator_parameters(PID_MULTICAST_LOCATOR, d.multicast_locators, e);
    let all = endpoint_parameters(d, e);
    assert(all == head + q + a + b);
    lemma_guid_round_trip(d.guid);
    lemma_text_round_trip(d.topic_name, e);
    lemma_text_round_trip(d.data_type_name, e);
    lemma_qos_parameters_fit(d.qos, e);
    assert forall|i: int| 0 <= i < all.len() implies (#[trigger] all[i]).value.len() <= 0xffff
        && all[i].id != 1 by {
        if i < 3 {
        } else if i < 3 + q.len() {
            assert(all[i] == q[i - 3]);
        } else if i < 3 + q.len() + a.len() {
            lemma_locator_round_trip(d.unicast_locators[i - 3 - q.len()], e);
        } else {
            lemma_locator_round_trip(d.multicast_locators[i - 3 - q.len() - a.len()], e);
        }
    }
    // the three parameters that stand first
    let d1 = DiscoveredEndpointView { guid: d.guid, ..blank };
    let d2 = DiscoveredEndpointView { topic_name: d.topic_name, ..d1 };
    let d3 = DiscoveredEndpointView { data_type_name: d.data_type_name, ..d2 };
    assert(head[0].value.subrange(0, 16) =~= guid_octets(d.guid));
    assert(endpoint_with(blank, head[0], e) == Ok::<DiscoveredEndpointView, Error>(d1));
    assert(endpoint_with(d1, head[1], e) == Ok::<DiscoveredEndpointView, Error>(d2));
    assert(endpoint_with(d2, head[2], e) == Ok::<DiscoveredEndpointView, Error>(d3));
    assert(head.skip(1)[0] == head[1]);
    assert(head.skip(1).skip(1)[0] == head[2]);
    assert(head.skip(1).skip(1).skip(1).len() == 0);
    assert(endpoint_with_all(d3, head.skip(1).skip(1).skip(1), e) == Ok::<
        DiscoveredEndpointView,
        Error,
    >(d3));
    assert(endpoint_with_all(d2, head.skip(1).skip(1), e) == Ok::<DiscoveredEndpointView, Error>(
        d3,
    ));
    assert(endpoint_with_all(d1, head.skip(1), e) == Ok::<DiscoveredEndpointView, Error>(d3));
    assert(endpoint_with_all(blank, head, e) == Ok::<DiscoveredEndpointView, Error>(d3));
    // the policies and the locators
    let d4 = DiscoveredEndpointView { qos: d.qos, ..d3 };
    lemma_endpoint_with_qos(d3, d.qos, e);
    let d5 = endpoint_with_locators(d4, PID_UNICAST_LOCATOR, d.unicast_locators);
    lemma_endpoint_with_locators(d4, PID_UNICAST_LOCATOR, d.unicast_locators, e);
    let d6 = endpoint_with_locators(d5, PID_MULTICAST_LOCATOR, d.multicast_locators);
    lemma_endpoint_with_locators(d5, PID_MULTICAST_LOCATOR, d.multicast_locators, e);
    lemma_endpoint_with_both(blank, head, q, e);
    lemma_endpoint_with_both(blank, head + q, a, e);
    lemma_endpoint_with_both(blank, head + q + a, b, e);
    assert(Seq::<Locator>::empty() + d.unicast_locators =~= d.unicast_locators);
    assert(Seq::<Locator>::empty() + d.multicast_locators =~= d.multicast_locators);
    assert(d6 == d);
}

/// The octets of what is announced of an endpoint whose names fit say of
/// the endpoint what it is, whatever follows them.
pub proof fn lemma_endpoint_round_trip(d: DiscoveredEndpointView, e: Endianness, rest: Seq<u8>)
    requires
        text_fits(d.topic_name),
        text_fits(d.data_type_name),
    ensures
        endpoint_of(endpoint_octets(d, e) + rest, e) == Ok::<DiscoveredEndpointView, Error>(d),
{
    lemma_endpoint_parameters_round_trip(d, e);
    lemma_parameter_list_round_trip(endpoint_parameters(d, e), e, rest);
}

/// The parameters of what is announced of a reader or a writer.
///
/// Fails with `SequenceTooLong` where the name of the topic or of the type
/// does not fit.
pub fn endpoint_to_parameters(d: &DiscoveredEndpointData, e: Endianness) -> (r: Result<
    Vec<Parameter>,
    Error,
>)
    ensures
        r is Ok <==> text_fits(d@.topic_name) && text_fits(d@.data_type_name),
        r matches Ok(ps) ==> parameters_view(ps@) == endpoint_parameters(d@, e),
        r matches Err(x) ==> x == Error::SequenceTooLong,
{
    let topic = match text_parameter(PID_TOPIC_NAME, &d.topic_name, e) {
        Ok(p) => p,
        Err(x) => {
            return Err(x);
        },
    };
    let data_type = match text_parameter(PID_TYPE_NAME, &d.data_type_name, e) {
        Ok(p) => p,
        Err(x) => {
            return Err(x);
        },
    };
    let mut ps: Vec<Parameter> = Vec::new();
    ps.push(guid_parameter(PID_ENDPOINT_GUID, d.guid));
    ps.push(topic);
    ps.push(data_type);
    assert(parameters_view(ps@) =~= seq![
        ParameterView { id: PID_ENDPOINT_GUID, value: guid_octets(d.guid) },
        ParameterView { id: PID_TOPIC_NAME, value: text_octets(d@.topic_name, e) },
        ParameterView { id: PID_TYPE_NAME, value: text_octets(d@.data_type_name, e) },
    ]);
    put_qos_parameters(&mut ps, &d.qos, e);
    put_locator_parameters(&mut ps, PID_UNICAST_LOCATOR, &d.unicast_locators, e);
    put_locator_parameters(&mut ps, PID_MULTICAST_LOCATOR, &d.multicast_locators, e);
    Ok(ps)
}

/// Takes one more parameter into what is known of an endpoint.
fn endpoint_take(d: &mut DiscoveredEndpointData, p: &Parameter, e: Endianness) -> (r: Result<
    (),
    Error,
>)
    ensures
        match r {
            Ok(()) => endpoint_with(old(d)@, p@, e) == Ok::<DiscoveredEndpointView, Error>(
                final(d)@,
            ),
            Err(x) => endpoint_with(old(d)@, p@, e) == Err::<DiscoveredEndpointView, Error>(x),
        },
{
    let n = p.value.len();
    if p.id == PID_ENDPOINT_GUID {
        if n < 16 {
            return Err(Error::Malformed);
        }
        d.guid = guid_of_value(&p.value);
    } else if p.id == PID_TOPIC_NAME {
        match text_of_value(&p.value, e) {
            Ok(text) => {
                d.topic_name = text;
            },
            Err(x) => {
                return Err(x);
            },
        }
    } else if p.id == PID_TYPE_NAME {
        match text_of_value(&p.value, e) {
            Ok(text) => {
                d.data_type_name = text;
            },
            Err(x) => {
                return Err(x);
            },
        }
    } else if p.id == PID_DURABILITY || p.id == PID_DEADLINE || p.id == PID_OWNERSHIP || p.id
        == PID_RELIABILITY || p.id == PID_HISTORY {
        match qos_take(&mut d.qos, p, e) {
            Ok(()) => {},
            Err(x) => {
                return Err(x);
            },
        }
    } else if p.id == PID_UNICAST_LOCATOR {
        if n < 24 {
            return Err(Error::Malformed);
        }
        d.unicast_locators.push(locator_of_value(&p.value, e));
        assert(d.unicast_locators@ =~= old(d).unicast_locators@ + seq![
            locator_of(p@.value.subrange(0, 24), e),
        ]);
    } else if p.id == PID_MULTICAST_LOCATOR {
        if n < 24 {
            return Err(Error::Malformed);
        }
        d.multicast_locators.push(locator_of_value(&p.value, e));
        assert(d.multicast_locators@ =~= old(d).multicast_locators@ + seq![
            locator_of(p@.value.subrange(0, 24), e),
        ]);
    }
    Ok(())
}

/// What a row of parameters says of an endpoint.
///
/// Fails with `Malformed` where the value of a parameter is shorter than
/// what it holds or a number stands for nothing, and with `InvalidText`
/// where a name is not UTF-8.
pub fn endpoint_of_parameters(ps: &Vec<Parameter>, e: Endianness) -> (r: Result<
    DiscoveredEndpointData,
    Error,
>)
    ensures
        match r {
            Ok(d) => endpoint_with_all(blank_endpoint(), parameters_view(ps@), e) == Ok::<
                DiscoveredEndpointView,
                Error,
            >(d@),
            Err(x) => endpoint_with_all(blank_endpoint(), parameters_view(ps@), e) == Err::<
                DiscoveredEndpointView,
                Error,
            >(x),
        },
{
    let mut d = DiscoveredEndpointData {
        guid: GUID::new(),
        topic_name: String::new(),
        data_type_name: String::new(),
        qos: QosPolicies::qos_none(),
        unicast_locators: Vec::new(),
        multicast_locators: Vec::new(),
    };
    proof {
        let q = guid_prefix_of(Seq::new(12, |i: int| 0u8));
        assert(q.entityKey@ == d.guid.guidPrefix.entityKey@);
        assert(q.entityKey =~= d.guid.guidPrefix.entityKey);
        assert(d@.topic_name =~= Seq::empty());
        assert(d@.data_type_name =~= Seq::empty());
        assert(d@.unicast_locators =~= Seq::empty());
        assert(d@.multicast_locators =~= Seq::empty());
        assert(d@ == blank_endpoint());
    }
    let ghost view = parameters_view(ps@);
    let n = ps.len();
    let mut i: usize = 0;
    assert(view.skip(0) =~= view);
    while i < n
        invariant
            i <= n,
            n == ps@.len(),
            view == parameters_view(ps@),
            endpoint_with_all(blank_endpoint(), view, e) == endpoint_with_all(
                d@,
                view.skip(i as int),
                e,
            ),
        decreases n - i,
    {
        proof {
            assert(view.skip(i as int)[0] == ps@[i as int]@);
            assert(view.skip(i as int).skip(1) =~= view.skip(i as int + 1));
        }
        match endpoint_take(&mut d, &ps[i], e) {
            Ok(()) => {},
            Err(x) => {
                return Err(x);
            },
        }
        i += 1;
    }
    Ok(d)
}

/// The octets of what is announced of a reader or a writer.
///
/// Fails with `SequenceTooLong` where the name of the topic or of the type
/// does not fit.
pub fn write_endpoint(d: &DiscoveredEndpointData, e: Endianness) -> (r: Result<Vec<u8>, Error>)
    ensures
        r is Ok <==> text_fits(d@.topic_name) && text_fits(d@.data_type_name),
        r matches Ok(out) ==> out@ == endpoint_octets(d@, e),
        r matches Err(x) ==> x == Error::SequenceTooLong,
{
    let ps = match endpoint_to_parameters(d, e) {
        Ok(ps) => ps,
        Err(x) => {
            return Err(x);
        },
    };
    let mut out: Vec<u8> = Vec::new();
    proof {
        lemma_endpoint_parameters_round_trip(d@, e);
    }
    let r = put_parameter_list(&mut out, &ps, e);
    assert(r is Ok);
    assert(out@ =~= endpoint_octets(d@, e));
    Ok(out)
}

/// What the octets of a parameter list say of an endpoint.
///
/// Fails with `Eof` where the octets end before the sentinel, with
/// `Malformed` where the value of a parameter is shorter than what it holds
/// or a number stands for nothing, and with `InvalidText` where a name is
/// not UTF-8.
pub fn read_endpoint(buf: &[u8], e: Endianness) -> (r: Result<DiscoveredEndpointData, Error>)
    ensures
        match r {
            Ok(d) => endpoint_of(buf@, e) == Ok::<DiscoveredEndpointView, Error>(d@),
            Err(x) => endpoint_of(buf@, e) == Err::<DiscoveredEndpointView, Error>(x),
        },
{
    match get_parameter_list(buf, e) {
        Ok(ps) => endpoint_of_parameters(&ps, e),
        Err(x) => Err(x),
    }
}

/// The byte order of a payload that holds a parameter list, by the number
/// of its encoding; `None` where the payload holds none.
pub open spec fn parameter_list_order(identifier: u16) -> Option<Endianness> {
    if identifier == RepresentationIdentifier::PL_CDR_BE.spec_to_u16() {
        Some(Endianness::BigEndian)
    } else if identifier == RepresentationIdentifier::PL_CDR_LE.spec_to_u16() {
        Some(Endianness::LittleEndian)
    } else {
        None
    }
}

/// The encoding of a parameter list in the given byte order.
pub open spec fn spec_parameter_list_encoding(e: Endianness) -> RepresentationIdentifier {
    match e {
        Endianness::BigEndian => RepresentationIdentifier::PL_CDR_BE,
        Endianness::LittleEndian => RepresentationIdentifier::PL_CDR_LE,
    }
}

/// The encoding of a parameter list in the given byte order.
#[verifier::when_used_as_spec(spec_parameter_list_encoding)]
pub fn parameter_list_encoding(e: Endianness) -> (id: RepresentationIdentifier)
    ensures
        id == spec_parameter_list_encoding(e),
        parameter_list_order(id.spec_to_u16()) == Some(e),
{
    match e {
        Endianness::BigEndian => RepresentationIdentifier::PL_CDR_BE,
        Endianness::LittleEndian => RepresentationIdentifier::PL_CDR_LE,
    }
}

/// The byte order of a payload that holds a parameter list.
fn payload_order(p: &SerializedPayload) -> (e: Option<Endianness>)
    ensures
        e == parameter_list_order(p@.representation_identifier),
{
    if p.representation_identifier == RepresentationIdentifier::PL_CDR_BE.to_u16() {
        Some(Endianness::BigEndian)
    } else if p.representation_identifier == RepresentationIdentifier::PL_CDR_LE.to_u16() {
        Some(Endianness::LittleEndian)
    } else {
        None
    }
}

/// What a payload says of a participant.
///
/// Fails with `UnknownRepresentation` where the payload holds no parameter
/// list, and as `participant_of` does.
pub open spec fn participant_of_payload(p: SerializedPayloadView) -> Result<
    ParticipantDataView,
    Error,
> {
    match parameter_list_order(p.representation_identifier) {
        Some(e) => participant_of(p.value, e),
        None => Err(Error::UnknownRepresentation),
    }
}

/// What a payload says of an endpoint.
///
/// Fails with `UnknownRepresentation` where the payload holds no parameter
/// list, and as `endpoint_of` does.
pub open spec fn endpoint_of_payload(p: SerializedPayloadView) -> Result<
    DiscoveredEndpointView,
    Error,
> {
    match parameter_list_order(p.representation_identifier) {
        Some(e) => endpoint_of(p.value, e),
        None => Err(Error::UnknownRepresentation),
    }
}

/// The payload by which a participant announces itself.
pub fn participant_payload(d: &SPDPDiscoveredParticipantData, e: Endianness) -> (p:
    SerializedPayload)
    ensures
        p@.representation_identifier == spec_parameter_list_encoding(e).spec_to_u16(),
        p@.representation_options == seq![0u8, 0u8],
        p@.value == participant_octets(d@, e),
        participant_of_payload(p@) == Ok::<ParticipantDataView, Error>(d@),
{
    let octets = write_participant(d, e);
    proof {
        lemma_participant_round_trip(d@, e, Seq::empty());
        assert(participant_octets(d@, e) + Seq::<u8>::empty() =~= participant_octets(d@, e));
    }
    SerializedPayload::new(parameter_list_encoding(e), octets)
}

/// What a payload says of a participant.
pub fn read_participant_payload(p: &SerializedPayload) -> (r: Result<
    SPDPDiscoveredParticipantData,
    Error,
>)
    ensures
        match r {
            Ok(d) => participant_of_payload(p@) == Ok::<ParticipantDataView, Error>(d@),
            Err(x) => participant_of_payload(p@) == Err::<ParticipantDataView, Error>(x),
        },
{
    match payload_order(p) {
        Some(e) => read_participant(bytes_as_slice(&p.value), e),
        None => Err(Error::UnknownRepresentation),
    }
}

/// The payload by which a reader or a writer is announced.
///
/// Fails with `SequenceTooLong` where the name of the topic or of the type
/// does not fit.
pub fn endpoint_payload(d: &DiscoveredEndpointData, e: Endianness) -> (r: Result<
    SerializedPayload,
    Error,
>)
    ensures
        r is Ok <==> text_fits(d@.topic_name) && text_fits(d@.data_type_name),
        r matches Ok(p) ==> p@.representation_identifier == spec_parameter_list_encoding(
            e,
        ).spec_to_u16() && p@.representation_options == seq![0u8, 0u8] && p@.value
            == endpoint_octets(d@, e) && endpoint_of_payload(p@) == Ok::<
            DiscoveredEndpointView,
            Error,
        >(d@),
        r matches Err(x) ==> x == Error::SequenceTooLong,
{
    let octets = match write_endpoint(d, e) {
        Ok(octets) => octets,
        Err(x) => {
            return Err(x);
        },
    };
    proof {
        lemma_endpoint_round_trip(d@, e, Seq::empty());
        assert(endpoint_octets(d@, e) + Seq::<u8>::empty() =~= endpoint_octets(d@, e));
    }
    Ok(SerializedPayload::new(parameter_list_encoding(e), octets))
}

/// What a payload says of an endpoint.
pub fn read_endpoint_payload(p: &SerializedPayload) -> (r: Result<DiscoveredEndpointData, Error>)
    ensures
        match r {
            Ok(d) => endpoint_of_payload(p@) == Ok::<DiscoveredEndpointView, Error>(d@),
            Err(x) => endpoint_of_payload(p@) == Err::<DiscoveredEndpointView, Error>(x),
        },
{
    match payload_order(p) {
        Some(e) => read_endpoint(bytes_as_slice(&p.value), e),
        None => Err(Error::UnknownRepresentation),
    }
}

/// The octets that name a participant by its key alone: the parameter list
/// that holds its GUID and nothing else.
pub open spec fn participant_key_octets(guid: GUID, e: Endianness) -> Seq<u8> {
    parameter_list_octets(
        seq![ParameterView { id: PID_PARTICIPANT_GUID, value: guid_octets(guid) }],
        e,
    )
}

/// The payload that names a participant by its key alone.
pub open spec fn participant_key_payload_view(guid: GUID, e: Endianness) -> SerializedPayloadView {
    SerializedPayloadView {
        representation_identifier: spec_parameter_list_encoding(e).spec_to_u16(),
        representation_options: seq![0u8, 0u8],
        value: participant_key_octets(guid, e),
    }
}

/// The key of a participant comes back from the payload that names it: the
/// payload says of a participant its GUID and nothing else.
pub proof fn lemma_participant_key_round_trip(guid: GUID, e: Endianness)
    ensures
        participant_of_payload(participant_key_payload_view(guid, e)) == Ok::<
            ParticipantDataView,
            Error,
        >(ParticipantDataView { participant_guid: guid, ..blank_participant() }),
{
    let p = ParameterView { id: PID_PARTICIPANT_GUID, value: guid_octets(guid) };
    let ps = seq![p];
    lemma_guid_round_trip(guid);
    lemma_parameter_list_round_trip(ps, e, Seq::empty());
    assert(parameter_list_octets(ps, e) + Seq::<u8>::empty() =~= parameter_list_octets(ps, e));
    assert(p.value.subrange(0, 16) =~= guid_octets(guid));
    let blank = blank_participant();
    let named = ParticipantDataView { participant_guid: guid, ..blank };
    assert(participant_with(blank, ps[0], e) == Ok::<ParticipantDataView, Error>(named));
    assert(ps.skip(1).len() == 0);
    assert(participant_with_all(named, ps.skip(1), e) == Ok::<ParticipantDataView, Error>(named));
}

/// The payload that names a participant by its key alone.
pub fn participant_key_payload(guid: GUID, e: Endianness) -> (p: SerializedPayload)
    ensures
        p@ == participant_key_payload_view(guid, e),
{
    let mut ps: Vec<Parameter> = Vec::new();
    ps.push(guid_parameter(PID_PARTICIPANT_GUID, guid));
    assert(parameters_view(ps@) =~= seq![
        ParameterView { id: PID_PARTICIPANT_GUID, value: guid_octets(guid) },
    ]);
    let mut octets: Vec<u8> = Vec::new();
    proof {
        lemma_guid_round_trip(guid);
        assert(values_fit(parameters_view(ps@)));
    }
    let r = put_parameter_list(&mut octets, &ps, e);
    assert(r is Ok);
    assert(octets@ =~= participant_key_octets(guid, e));
    SerializedPayload::new(parameter_list_encoding(e), octets)
}

/// The GUID that the hash of a key spells: its sixteen octets, most
/// significant first.
pub open spec fn guid_of_key_hash(hash: u128) -> GUID {
    guid_of(octets_of(Endianness::BigEndian, hash as nat, 16))
}

/// The GUID that the hash of a key spells.
pub fn read_guid_of_key_hash(hash: u128) -> (g: GUID)
    ensures
        g == guid_of_key_hash(hash),
{
    let octets = write_u128_be(hash);
    proof {
        lemma_octets_of_value(Endianness::BigEndian, octets@);
        assert(octets@.subrange(0, 16) =~= octets@);
    }
    guid_of_value(&octets)
}

/// The hash under which a GUID is announced: its sixteen octets, read as
/// one number, most significant octet first. It spells the GUID.
pub fn key_hash_of_guid(g: GUID) -> (hash: u128)
    ensures
        hash as nat == crate::serialization::big_endian_value(guid_octets(g)),
        guid_of_key_hash(hash) == g,
{
    let mut octets: Vec<u8> = Vec::new();
    put_guid_prefix(&mut octets, g.guidPrefix);
    put_entity_id(&mut octets, g.entityId);
    let hash = read_u128_be(octets.as_slice());
    proof {
        assert(octets@.subrange(0, 16) =~= guid_octets(g));
        lemma_key_hash_spells_guid(g, hash);
    }
    hash
}

/// The hash under which a GUID is announced spells the GUID.
pub proof fn lemma_key_hash_spells_guid(g: GUID, hash: u128)
    requires
        hash as nat == crate::serialization::big_endian_value(guid_octets(g)),
    ensures
        guid_of_key_hash(hash) == g,
{
    lemma_guid_round_trip(g);
    lemma_octets_of_value(Endianness::BigEndian, guid_octets(g));
}

} // verus!
