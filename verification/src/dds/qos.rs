//! Quality-of-service policies.

use crate::structure::time::Duration;
use vstd::prelude::*;

verus! {

/// How many samples of an instance are kept.
#[derive(Debug, Clone, Copy, PartialEq, Eq, Structural)]
pub enum History {
    /// The newest `depth` samples of each instance.
    KeepLast { depth: i32 },
    /// Every sample.
    KeepAll,
}

/// Whether lost samples are sent again.
#[derive(Debug, Clone, Copy, PartialEq, Eq, Structural)]
pub enum Reliability {
    BestEffort,
    Reliable,
}

/// How long samples outlive their writer, weakest first.
#[derive(Debug, Clone, Copy, PartialEq, Eq, Structural)]
pub enum Durability {
    Volatile,
    TransientLocal,
    Transient,
    Persistent,
}

/// Whether several writers may update one instance.
#[derive(Debug, Clone, Copy, PartialEq, Eq, Structural)]
pub enum Ownership {
    Shared,
    Exclusive,
}

/// The longest time between two samples of an instance.
#[derive(Debug, Clone, Copy, PartialEq, Eq, Structural)]
pub struct Deadline {
    pub period: Duration,
}

/// The policies of an endpoint or a topic; a policy that is `None` is at its
/// default.
#[derive(Debug, Clone, Copy, PartialEq, Eq, Structural)]
pub struct QosPolicies {
    pub durability: Option<Durability>,
    pub deadline: Option<Deadline>,
    pub ownership: Option<Ownership>,
    pub reliability: Option<Reliability>,
    pub history: Option<History>,
}

impl QosPolicies {
    /// Every policy at its default.
    pub fn qos_none() -> (q: QosPolicies)
        ensures
            q == (QosPolicies {
                durability: None,
                deadline: None,
                ownership: None,
                reliability: None,
                history: None,
            }),
    {
        QosPolicies {
            durability: None,
            deadline: None,
            ownership: None,
            reliability: None,
            history: None,
        }
    }
}

} // verus!
