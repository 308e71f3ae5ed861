//! How a participant takes its place in a domain: which participant id it
//! gets, and how much its command channels hold.

use crate::dds::result::Error;
use crate::network::constant::{
    are_ports_of, participant_ports, ParticipantPorts, MAX_DOMAIN_ID, MAX_PARTICIPANT_ID,
};
use crate::structure::guid::GUID;
use vstd::prelude::*;

verus! {

/// How many commands to discovery may wait.
pub const DISCOVERY_COMMAND_CHANNEL_BOUND: usize = 10;

/// How many readers may wait to be added.
pub const ADD_READER_CHANNEL_BOUND: usize = 100;

/// How many readers may wait to be removed.
pub const REMOVE_READER_CHANNEL_BOUND: usize = 10;

/// How many writers may wait to be added.
pub const ADD_WRITER_CHANNEL_BOUND: usize = 10;

/// How many writers may wait to be removed.
pub const REMOVE_WRITER_CHANNEL_BOUND: usize = 10;

/// How many notifications of discovery may wait.
pub const DISCOVERY_NOTIFICATION_CHANNEL_BOUND: usize = 100;

/// How long a participant waits for discovery to start and to stop, in
/// seconds.
pub const DISCOVERY_TIMEOUT_SECONDS: u64 = 10;

/// Who a participant is in its domain.
#[derive(Debug, Clone, Copy)]
pub struct DomainInfo {
    pub domain_participant_guid: GUID,
    pub domain_id: u16,
    pub participant_id: u16,
}

/// What to do next in the search for a participant id.
#[derive(Debug, Clone, Copy, PartialEq, Eq, Structural)]
pub enum BindStep {
    /// Try to bind the unicast ports of this participant id.
    Try { participant_id: u16, ports: ParticipantPorts },
    /// The ports of this participant id are bound: it is the participant's.
    Selected { participant_id: u16, ports: ParticipantPorts },
    /// No participant id is left to try.
    Exhausted,
}

/// The first step of the search: try participant id 0, unless the domain
/// has no ports.
pub fn first_bind_step(domain_id: u16) -> (step: BindStep)
    ensures
        match step {
            BindStep::Try { participant_id, ports } => {
                &&& domain_id <= MAX_DOMAIN_ID
                &&& participant_id == 0
                &&& are_ports_of(ports, domain_id as int, 0)
            },
            BindStep::Exhausted => domain_id > MAX_DOMAIN_ID,
            BindStep::Selected { .. } => false,
        },
{
    match participant_ports(domain_id, 0) {
        Some(ports) => BindStep::Try { participant_id: 0, ports },
        None => BindStep::Exhausted,
    }
}

/// The step after the ports of `tried` were tried: where they were bound,
/// `tried` is the participant's id; else the next id is tried, unless
/// `tried` was the last.
pub fn next_bind_step(domain_id: u16, tried: u16, bound: bool) -> (step: BindStep)
    requires
        domain_id <= MAX_DOMAIN_ID,
        tried <= MAX_PARTICIPANT_ID,
    ensures
        match step {
            BindStep::Selected { participant_id, ports } => {
                &&& bound
                &&& participant_id == tried
                &&& are_ports_of(ports, domain_id as int, tried as int)
            },
            BindStep::Try { participant_id, ports } => {
                &&& !bound
                &&& tried < MAX_PARTICIPANT_ID
                &&& participant_id == tried + 1
                &&& are_ports_of(ports, domain_id as int, tried + 1)
            },
            BindStep::Exhausted => !bound && tried == MAX_PARTICIPANT_ID,
        },
{
    if bound {
        match participant_ports(domain_id, tried) {
            Some(ports) => BindStep::Selected { participant_id: tried, ports },
            None => BindStep::Exhausted,
        }
    } else if tried < MAX_PARTICIPANT_ID {
        match participant_ports(domain_id, tried + 1) {
            Some(ports) => BindStep::Try { participant_id: tried + 1, ports },
            None => BindStep::Exhausted,
        }
    } else {
        BindStep::Exhausted
    }
}

/// The participant id that the search ends with, given for each id whether
/// its ports can be bound: the least id whose ports can. An id that the
/// list does not reach counts as one whose ports cannot be bound.
///
/// Fails with `OutOfResources` where the ports of no id can be bound.
pub fn select_participant_id(bindable: &Vec<bool>) -> (r: Result<u16, Error>)
    ensures
        match r {
            Ok(id) => {
                &&& id <= MAX_PARTICIPANT_ID
                &&& id < bindable@.len()
                &&& bindable@[id as int]
                &&& forall|i: int| 0 <= i < id ==> !bindable@[i]
            },
            Err(e) => {
                &&& e == Error::OutOfResources
                &&& forall|i: int|
                    0 <= i < bindable@.len() && i <= MAX_PARTICIPANT_ID ==> !bindable@[i]
            },
        },
{
    let mut id: u16 = 0;
    while id <= MAX_PARTICIPANT_ID && (id as usize) < bindable.len()
        invariant
            id <= MAX_PARTICIPANT_ID + 1,
            forall|i: int| 0 <= i < id ==> !bindable@[i],
        decreases MAX_PARTICIPANT_ID + 1 - id,
    {
        if bindable[id as usize] {
            return Ok(id);
        }
        id += 1;
    }
    Err(Error::OutOfResources)
}

/// What a participant is to do once it knows how discovery started.
///
/// Discovery that started is fine. Discovery that failed to start or that
/// did not answer in time is an internal error, and the participant is to
/// be taken down.
pub fn discovery_start_outcome(answer: Option<Result<(), Error>>) -> (r: Result<(), Error>)
    ensures
        r == match answer {
            Some(Ok(())) => Ok::<(), Error>(()),
            _ => Err::<(), Error>(Error::Internal),
        },
{
    match answer {
        Some(Ok(())) => Ok(()),
        _ => Err(Error::Internal),
    }
}

} // verus!
