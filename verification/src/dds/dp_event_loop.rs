//! What the event loop of a participant decides: how long to wait, and
//! which of its timers have run out.

use vstd::prelude::*;

verus! {

/// The sources that the event loop waits on.
#[derive(Debug, Clone, Copy, PartialEq, Eq, Structural)]
pub enum EventSource {
    DiscoveryMulticast,
    DiscoveryUnicast,
    UserTrafficMulticast,
    UserTrafficUnicast,
    AddReader,
    RemoveReader,
    AddWriter,
    RemoveWriter,
    Stop,
    DiscoveryNotification,
}

/// The token by which a source is known to the poll.
pub open spec fn spec_token_of(source: EventSource) -> usize {
    match source {
        EventSource::Stop => 0,
        EventSource::DiscoveryUnicast => 1,
        EventSource::DiscoveryMulticast => 2,
        EventSource::UserTrafficUnicast => 3,
        EventSource::UserTrafficMulticast => 4,
        EventSource::AddReader => 5,
        EventSource::RemoveReader => 6,
        EventSource::AddWriter => 7,
        EventSource::RemoveWriter => 8,
        EventSource::DiscoveryNotification => 9,
    }
}

/// The token by which a source is known to the poll.
#[verifier::when_used_as_spec(spec_token_of)]
pub fn token_of(source: EventSource) -> (t: usize)
    ensures
        t == spec_token_of(source),
{
    match source {
        EventSource::Stop => 0,
        EventSource::DiscoveryUnicast => 1,
        EventSource::DiscoveryMulticast => 2,
        EventSource::UserTrafficUnicast => 3,
        EventSource::UserTrafficMulticast => 4,
        EventSource::AddReader => 5,
        EventSource::RemoveReader => 6,
        EventSource::AddWriter => 7,
        EventSource::RemoveWriter => 8,
        EventSource::DiscoveryNotification => 9,
    }
}

/// The source that a token stands for, if it stands for one.
pub fn source_of(token: usize) -> (r: Option<EventSource>)
    ensures
        match r {
            Some(source) => spec_token_of(source) == token,
            None => forall|source: EventSource| spec_token_of(source) != token,
        },
{
    if token == 0 {
        Some(EventSource::Stop)
    } else if token == 1 {
        Some(EventSource::DiscoveryUnicast)
    } else if token == 2 {
        Some(EventSource::DiscoveryMulticast)
    } else if token == 3 {
        Some(EventSource::UserTrafficUnicast)
    } else if token == 4 {
        Some(EventSource::UserTrafficMulticast)
    } else if token == 5 {
        Some(EventSource::AddReader)
    } else if token == 6 {
        Some(EventSource::RemoveReader)
    } else if token == 7 {
        Some(EventSource::AddWriter)
    } else if token == 8 {
        Some(EventSource::RemoveWriter)
    } else if token == 9 {
        Some(EventSource::DiscoveryNotification)
    } else {
        None
    }
}

/// The instant at which the next change comes, given the instant of the
/// last one and what the clock says: what the clock says where that is
/// later, else the instant after the last, so that no two changes come at
/// one instant, whatever the clock does. After the last instant there is,
/// none follows.
pub open spec fn spec_next_instant(last: u64, clock: u64) -> u64 {
    if clock > last {
        clock
    } else if last < u64::MAX {
        (last + 1) as u64
    } else {
        last
    }
}

/// The instant at which the next change comes.
#[verifier::when_used_as_spec(spec_next_instant)]
pub fn next_instant(last: u64, clock: u64) -> (next: u64)
    ensures
        next == spec_next_instant(last, clock),
        last < u64::MAX ==> next > last,
        next >= clock,
{
    if clock > last {
        clock
    } else if last < u64::MAX {
        last + 1
    } else {
        last
    }
}

/// How long the event loop is to wait at `now`, given the instants at which
/// its timers run out: until the nearest of them, no time at all where one
/// has run out, and without end where there is no timer.
pub fn poll_timeout(now: u64, timers: &Vec<u64>) -> (timeout: Option<u64>)
    ensures
        match timeout {
            None => timers@.len() == 0,
            Some(wait) => {
                &&& exists|i: int|
                    0 <= i < timers@.len() && wait == if timers@[i] > now {
                        (timers@[i] - now) as u64
                    } else {
                        0u64
                    }
                &&& forall|i: int| 0 <= i < timers@.len() ==> now + wait <= timers@[i] || wait == 0
            },
        },
{
    let n = timers.len();
    if n == 0 {
        return None;
    }
    let mut nearest = timers[0];
    let mut i: usize = 1;
    while i < n
        invariant
            n == timers@.len(),
            1 <= i <= n,
            exists|k: int| 0 <= k < i && timers@[k] == nearest,
            forall|k: int| 0 <= k < i ==> nearest <= timers@[k],
        decreases n - i,
    {
        if timers[i] < nearest {
            nearest = timers[i];
        }
        i += 1;
    }
    if nearest > now {
        Some(nearest - now)
    } else {
        Some(0)
    }
}

/// The places of the timers that have run out at `now`, in the order in
/// which they stand.
pub fn due_timers(now: u64, timers: &Vec<u64>) -> (due: Vec<usize>)
    ensures
        forall|k: int|
            0 <= k < due@.len() ==> (#[trigger] due@[k]) < timers@.len() && timers@[due@[k] as int]
                <= now,
        forall|i: int| 0 <= i < timers@.len() && timers@[i] <= now ==> due@.contains(i as usize),
        forall|a: int, b: int| 0 <= a < b < due@.len() ==> due@[a] < due@[b],
{
    let mut due: Vec<usize> = Vec::new();
    let n = timers.len();
    let mut i: usize = 0;
    while i < n
        invariant
            n == timers@.len(),
            i <= n,
            forall|k: int|
                0 <= k < due@.len() ==> (#[trigger] due@[k]) < i && timers@[due@[k] as int] <= now,
            forall|j: int| 0 <= j < i && timers@[j] <= now ==> due@.contains(j as usize),
            forall|a: int, b: int| 0 <= a < b < due@.len() ==> due@[a] < due@[b],
        decreases n - i,
    {
        let ghost before = due@;
        if timers[i] <= now {
            due.push(i);
            assert(due@[due@.len() - 1] == i);
        }
        proof {
            assert forall|j: int| 0 <= j < i + 1 && timers@[j] <= now implies due@.contains(
                j as usize,
            ) by {
                if j < i {
                    assert(before.contains(j as usize));
                    let w = choose|w: int| 0 <= w < before.len() && before[w] == j as usize;
                    assert(due@[w] == j as usize);
                }
            }
        }
        i += 1;
    }
    due
}

} // verus!
