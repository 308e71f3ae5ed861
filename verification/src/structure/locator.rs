//! Where an endpoint can be reached.

use vstd::prelude::*;

verus! {

/// A transport address: the kind of transport, a port, and sixteen address
/// octets, of which UDP over IPv4 uses the last four.
#[derive(Debug, Clone, Copy, Eq, Hash)]
pub struct Locator {
    pub kind: i32,
    pub port: u32,
    pub address: [u8; 16],
}

/// The locator kind of no transport.
pub const LOCATOR_KIND_INVALID: i32 = -1;

/// The locator kind of UDP over IPv4.
pub const LOCATOR_KIND_UDP_V4: i32 = 1;

/// The locator kind of UDP over IPv6.
pub const LOCATOR_KIND_UDP_V6: i32 = 2;

impl Locator {
    /// The locator of UDP over IPv4 at the address `a.b.c.d` and `port`.
    pub fn udp_v4(a: u8, b: u8, c: u8, d: u8, port: u16) -> (l: Locator)
        ensures
            l.kind == LOCATOR_KIND_UDP_V4,
            l.port == port,
            l.address@ == seq![0u8, 0, 0, 0, 0, 0, 0, 0, 0, 0, 0, 0, a, b, c, d],
    {
        let l = Locator {
            kind: LOCATOR_KIND_UDP_V4,
            port: port as u32,
            address: [0u8, 0, 0, 0, 0, 0, 0, 0, 0, 0, 0, 0, a, b, c, d],
        };
        assert(l.address@ =~= seq![0u8, 0, 0, 0, 0, 0, 0, 0, 0, 0, 0, 0, a, b, c, d]);
        l
    }
}

impl PartialEq for Locator {
    fn eq(&self, other: &Locator) -> (r: bool) {
        if self.kind != other.kind || self.port != other.port {
            return false;
        }
        let mut i: usize = 0;
        while i < 16
            invariant
                i <= 16,
                forall|j: int| 0 <= j < i ==> self.address@[j] == other.address@[j],
            decreases 16 - i,
        {
            if self.address[i] != other.address[i] {
                return false;
            }
            i += 1;
        }
        assert(self.address =~= other.address);
        true
    }
}

impl vstd::std_specs::cmp::PartialEqSpecImpl for Locator {
    open spec fn obeys_eq_spec() -> bool {
        true
    }

    open spec fn eq_spec(&self, other: &Locator) -> bool {
        *self == *other
    }
}

/// A copy of a list of locators.
pub fn copy_locators(list: &Vec<Locator>) -> (out: Vec<Locator>)
    ensures
        out@ == list@,
{
    let mut out: Vec<Locator> = Vec::new();
    let n = list.len();
    let mut i: usize = 0;
    while i < n
        invariant
            n == list@.len(),
            i <= n,
            out@ == list@.take(i as int),
        decreases n - i,
    {
        out.push(list[i]);
        assert(out@ =~= list@.take(i as int + 1));
        i += 1;
    }
    assert(list@.take(n as int) =~= list@);
    out
}

} // verus!
