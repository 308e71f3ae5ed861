//! What participants tell each other of themselves and of their endpoints.

use crate::dds::qos::{Deadline, Durability, Ownership, QosPolicies, Reliability};
use crate::structure::guid::GUID;
use crate::structure::locator::Locator;
use crate::structure::time::Duration;
use vstd::prelude::*;

verus! {

/// The time between two announcements of a participant, in nanoseconds,
/// unless it is told otherwise: 5 s.
pub const DEFAULT_PARTICIPANT_ANNOUNCE_PERIOD_NANOS: u64 = 5_000_000_000;

/// What a participant announces of itself.
pub struct SPDPDiscoveredParticipantData {
    pub participant_guid: GUID,
    pub protocol_major: u8,
    pub protocol_minor: u8,
    pub vendor_id0: u8,
    pub vendor_id1: u8,
    pub default_unicast_locators: Vec<Locator>,
    pub default_multicast_locators: Vec<Locator>,
    pub metatraffic_unicast_locators: Vec<Locator>,
    pub metatraffic_multicast_locators: Vec<Locator>,
    /// The time for which the announcement holds.
    pub lease_duration: Duration,
}

/// What an `SPDPDiscoveredParticipantData` stands for.
pub struct ParticipantDataView {
    pub participant_guid: GUID,
    pub protocol_major: u8,
    pub protocol_minor: u8,
    pub vendor_id0: u8,
    pub vendor_id1: u8,
    pub default_unicast_locators: Seq<Locator>,
    pub default_multicast_locators: Seq<Locator>,
    pub metatraffic_unicast_locators: Seq<Locator>,
    pub metatraffic_multicast_locators: Seq<Locator>,
    pub lease_duration: Duration,
}

impl View for SPDPDiscoveredParticipantData {
    type V = ParticipantDataView;

    open spec fn view(&self) -> ParticipantDataView {
        ParticipantDataView {
            participant_guid: self.participant_guid,
            protocol_major: self.protocol_major,
            protocol_minor: self.protocol_minor,
            vendor_id0: self.vendor_id0,
            vendor_id1: self.vendor_id1,
            default_unicast_locators: self.default_unicast_locators@,
            default_multicast_locators: self.default_multicast_locators@,
            metatraffic_unicast_locators: self.metatraffic_unicast_locators@,
            metatraffic_multicast_locators: self.metatraffic_multicast_locators@,
            lease_duration: self.lease_duration,
        }
    }
}

/// What a participant announces of one of its readers or writers.
pub struct DiscoveredEndpointData {
    pub guid: GUID,
    pub topic_name: String,
    pub data_type_name: String,
    pub qos: QosPolicies,
    pub unicast_locators: Vec<Locator>,
    pub multicast_locators: Vec<Locator>,
}

/// What a `DiscoveredEndpointData` stands for.
pub struct DiscoveredEndpointView {
    pub guid: GUID,
    pub topic_name: Seq<char>,
    pub data_type_name: Seq<char>,
    pub qos: QosPolicies,
    pub unicast_locators: Seq<Locator>,
    pub multicast_locators: Seq<Locator>,
}

impl View for DiscoveredEndpointData {
    type V = DiscoveredEndpointView;

    open spec fn view(&self) -> DiscoveredEndpointView {
        DiscoveredEndpointView {
            guid: self.guid,
            topic_name: self.topic_name@,
            data_type_name: self.data_type_name@,
            qos: self.qos,
            unicast_locators: self.unicast_locators@,
            multicast_locators: self.multicast_locators@,
        }
    }
}

impl Clone for DiscoveredEndpointData {
    fn clone(&self) -> (c: DiscoveredEndpointData)
        ensures
            c@ == self@,
    {
        DiscoveredEndpointData {
            guid: self.guid,
            topic_name: self.topic_name.clone(),
            data_type_name: self.data_type_name.clone(),
            qos: self.qos,
            unicast_locators: crate::structure::locator::copy_locators(&self.unicast_locators),
            multicast_locators: crate::structure::locator::copy_locators(&self.multicast_locators),
        }
    }
}

/// How strong a durability is: a writer serves a reader that asks for no
/// more than it offers.
pub open spec fn spec_durability_rank(d: Durability) -> int {
    match d {
        Durability::Volatile => 0,
        Durability::TransientLocal => 1,
        Durability::Transient => 2,
        Durability::Persistent => 3,
    }
}

/// How strong a durability is.
pub fn durability_rank(d: Durability) -> (r: u8)
    ensures
        r == spec_durability_rank(d),
{
    match d {
        Durability::Volatile => 0,
        Durability::TransientLocal => 1,
        Durability::Transient => 2,
        Durability::Persistent => 3,
    }
}

/// Whether what the writer offers serves what the reader asks for.
///
/// - Reliability: a reader that asks for reliable delivery is not served by
///   a writer that offers best effort. A reader asks for best effort and a
///   writer offers reliable delivery where they say nothing.
/// - Durability: the writer offers no less than the reader asks for;
///   volatile where they say nothing.
/// - Deadline: the writer's period is no longer than the reader's; no
///   deadline where they say nothing.
/// - Ownership: both say the same; shared where they say nothing.
/// - History says nothing of whether the two go together.
pub open spec fn spec_qos_compatible(reader: QosPolicies, writer: QosPolicies) -> bool {
    let asked_reliability = match reader.reliability {
        Some(r) => r,
        None => Reliability::BestEffort,
    };
    let offered_reliability = match writer.reliability {
        Some(r) => r,
        None => Reliability::Reliable,
    };
    let asked_durability = match reader.durability {
        Some(d) => d,
        None => Durability::Volatile,
    };
    let offered_durability = match writer.durability {
        Some(d) => d,
        None => Durability::Volatile,
    };
    let asked_ownership = match reader.ownership {
        Some(o) => o,
        None => Ownership::Shared,
    };
    let offered_ownership = match writer.ownership {
        Some(o) => o,
        None => Ownership::Shared,
    };
    &&& !(asked_reliability == Reliability::Reliable && offered_reliability
        == Reliability::BestEffort)
    &&& spec_durability_rank(offered_durability) >= spec_durability_rank(asked_durability)
    &&& match reader.deadline {
        Some(asked) => match writer.deadline {
            Some(offered) => offered.period.ticks() <= asked.period.ticks(),
            None => false,
        },
        None => true,
    }
    &&& asked_ownership == offered_ownership
}

/// Whether what the writer offers serves what the reader asks for.
#[verifier::when_used_as_spec(spec_qos_compatible)]
pub fn qos_compatible(reader: QosPolicies, writer: QosPolicies) -> (b: bool)
    ensures
        b == spec_qos_compatible(reader, writer),
{
    let asked_reliability = match reader.reliability {
        Some(r) => r,
        None => Reliability::BestEffort,
    };
    let offered_reliability = match writer.reliability {
        Some(r) => r,
        None => Reliability::Reliable,
    };
    let asked_durability = match reader.durability {
        Some(d) => d,
        None => Durability::Volatile,
    };
    let offered_durability = match writer.durability {
        Some(d) => d,
        None => Durability::Volatile,
    };
    let asked_ownership = match reader.ownership {
        Some(o) => o,
        None => Ownership::Shared,
    };
    let offered_ownership = match writer.ownership {
        Some(o) => o,
        None => Ownership::Shared,
    };
    let deadline_served = match reader.deadline {
        Some(asked) => match writer.deadline {
            Some(offered) => offered.period.no_longer_than(&asked.period),
            None => false,
        },
        None => true,
    };
    !(asked_reliability == Reliability::Reliable && offered_reliability == Reliability::BestEffort)
        && durability_rank(offered_durability) >= durability_rank(asked_durability)
        && deadline_served && asked_ownership == offered_ownership
}

/// Whether a reader and a writer match: they are of one topic and one type,
/// and what the writer offers serves what the reader asks for.
pub open spec fn endpoints_match(reader: DiscoveredEndpointView, writer: DiscoveredEndpointView) -> bool {
    &&& reader.topic_name == writer.topic_name
    &&& reader.data_type_name == writer.data_type_name
    &&& spec_qos_compatible(reader.qos, writer.qos)
}

/// Whether a reader asks for reliable delivery.
pub open spec fn spec_reader_is_reliable(qos: QosPolicies) -> bool {
    qos.reliability == Some(Reliability::Reliable)
}

/// Whether a reader asks for reliable delivery.
#[verifier::when_used_as_spec(spec_reader_is_reliable)]
pub fn reader_is_reliable(qos: QosPolicies) -> (b: bool)
    ensures
        b == spec_reader_is_reliable(qos),
{
    match qos.reliability {
        Some(Reliability::Reliable) => true,
        _ => false,
    }
}

} // verus!
