//! The ports of a domain and the group in which its participants meet.

use vstd::prelude::*;

verus! {

/// The port base: the first port of domain 0.
pub const PB: u16 = 7400;

/// The domain gain: how many ports belong to one domain.
pub const DG: u16 = 250;

/// The participant gain: how many unicast ports belong to one participant.
pub const PG: u16 = 2;

/// The place of the discovery multicast port among the ports of a domain.
pub const D0: u16 = 0;

/// The place of the first discovery unicast port among the ports of a domain.
pub const D1: u16 = 10;

/// The place of the user multicast port among the ports of a domain.
pub const D2: u16 = 1;

/// The place of the first user unicast port among the ports of a domain.
pub const D3: u16 = 11;

/// The greatest domain id whose ports are ports.
pub const MAX_DOMAIN_ID: u16 = 231;

/// The greatest participant id whose ports belong to its own domain.
pub const MAX_PARTICIPANT_ID: u16 = 119;

/// The four octets of the group in which participants meet: 239.255.0.1.
pub fn multicast_group() -> (g: [u8; 4])
    ensures
        g@ == seq![239u8, 255u8, 0u8, 1u8],
{
    let g = [239u8, 255u8, 0u8, 1u8];
    assert(g@ =~= seq![239u8, 255u8, 0u8, 1u8]);
    g
}

/// The port on which the participants of a domain announce themselves to
/// the group.
pub open spec fn spdp_multicast_port(domain_id: int) -> int {
    PB + DG * domain_id + D0
}

/// The port on which a participant hears of discovery.
pub open spec fn spdp_unicast_port(domain_id: int, participant_id: int) -> int {
    PB + DG * domain_id + D1 + PG * participant_id
}

/// The port on which the participants of a domain send samples to the group.
pub open spec fn user_multicast_port(domain_id: int) -> int {
    PB + DG * domain_id + D2
}

/// The port on which a participant receives samples.
pub open spec fn user_unicast_port(domain_id: int, participant_id: int) -> int {
    PB + DG * domain_id + D3 + PG * participant_id
}

/// The port on which the participants of a domain announce themselves to
/// the group.
pub fn get_spdp_well_known_multicast_port(domain_id: u16) -> (port: u16)
    requires
        spdp_multicast_port(domain_id as int) <= u16::MAX,
    ensures
        port == spdp_multicast_port(domain_id as int),
{
    PB + DG * domain_id + D0
}

/// The port on which a participant hears of discovery.
pub fn get_spdp_well_known_unicast_port(domain_id: u16, participant_id: u16) -> (port: u16)
    requires
        spdp_unicast_port(domain_id as int, participant_id as int) <= u16::MAX,
    ensures
        port == spdp_unicast_port(domain_id as int, participant_id as int),
{
    PB + DG * domain_id + D1 + PG * participant_id
}

/// The port on which the participants of a domain send samples to the group.
pub fn get_user_traffic_multicast_port(domain_id: u16) -> (port: u16)
    requires
        user_multicast_port(domain_id as int) <= u16::MAX,
    ensures
        port == user_multicast_port(domain_id as int),
{
    PB + DG * domain_id + D2
}

/// The port on which a participant receives samples.
pub fn get_user_traffic_unicast_port(domain_id: u16, participant_id: u16) -> (port: u16)
    requires
        user_unicast_port(domain_id as int, participant_id as int) <= u16::MAX,
    ensures
        port == user_unicast_port(domain_id as int, participant_id as int),
{
    PB + DG * domain_id + D3 + PG * participant_id
}

/// The four ports of a participant.
#[derive(Debug, Clone, Copy, PartialEq, Eq, Structural)]
pub struct ParticipantPorts {
    pub spdp_multicast: u16,
    pub spdp_unicast: u16,
    pub user_multicast: u16,
    pub user_unicast: u16,
}

/// Whether `ports` are the four ports of the participant `participant_id`
/// of the domain `domain_id`.
pub open spec fn are_ports_of(ports: ParticipantPorts, domain_id: int, participant_id: int) -> bool {
    &&& ports.spdp_multicast == spdp_multicast_port(domain_id)
    &&& ports.spdp_unicast == spdp_unicast_port(domain_id, participant_id)
    &&& ports.user_multicast == user_multicast_port(domain_id)
    &&& ports.user_unicast == user_unicast_port(domain_id, participant_id)
}

/// The four ports of the participant `participant_id` of the domain
/// `domain_id`; `None` where either id is greater than the greatest there is.
pub fn participant_ports(domain_id: u16, participant_id: u16) -> (r: Option<ParticipantPorts>)
    ensures
        match r {
            Some(ports) => {
                &&& domain_id <= MAX_DOMAIN_ID
                &&& participant_id <= MAX_PARTICIPANT_ID
                &&& are_ports_of(ports, domain_id as int, participant_id as int)
            },
            None => domain_id > MAX_DOMAIN_ID || participant_id > MAX_PARTICIPANT_ID,
        },
{
    if domain_id > MAX_DOMAIN_ID || participant_id > MAX_PARTICIPANT_ID {
        None
    } else {
        Some(
            ParticipantPorts {
                spdp_multicast: get_spdp_well_known_multicast_port(domain_id),
                spdp_unicast: get_spdp_well_known_unicast_port(domain_id, participant_id),
                user_multicast: get_user_traffic_multicast_port(domain_id),
                user_unicast: get_user_traffic_unicast_port(domain_id, participant_id),
            },
        )
    }
}

/// The ports of a domain are its own: no port of a participant of one
/// domain is a port of another domain, and within a domain no two of the
/// ports of its participants are the same.
pub proof fn lemma_ports_are_distinct(d1: int, p1: int, d2: int, p2: int)
    requires
        0 <= d1 <= MAX_DOMAIN_ID,
        0 <= d2 <= MAX_DOMAIN_ID,
        0 <= p1 <= MAX_PARTICIPANT_ID,
        0 <= p2 <= MAX_PARTICIPANT_ID,
    ensures
        spdp_unicast_port(d1, p1) != user_unicast_port(d2, p2),
        spdp_unicast_port(d1, p1) != spdp_multicast_port(d2),
        spdp_unicast_port(d1, p1) != user_multicast_port(d2),
        user_unicast_port(d1, p1) != spdp_multicast_port(d2),
        user_unicast_port(d1, p1) != user_multicast_port(d2),
        spdp_multicast_port(d1) != user_multicast_port(d2),
        spdp_unicast_port(d1, p1) == spdp_unicast_port(d2, p2) ==> d1 == d2 && p1 == p2,
        user_unicast_port(d1, p1) == user_unicast_port(d2, p2) ==> d1 == d2 && p1 == p2,
        spdp_unicast_port(d1, p1) <= u16::MAX,
        user_unicast_port(d1, p1) <= u16::MAX,
{
}

} // verus!
