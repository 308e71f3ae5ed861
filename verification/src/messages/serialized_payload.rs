//! A serialized sample: an encoding tag and the octets, which the core never
//! looks into.

use bytes::Bytes;
use vstd::prelude::*;

verus! {

/// `bytes::Bytes`: a buffer of octets that its handles share. The core
/// carries it through and reads it by the functions below only.
#[verifier::external_type_specification]
#[verifier::external_body]
pub struct ExBytes(Bytes);

/// The octets that a `Bytes` holds, in order.
pub uninterp spec fn bytes_contents(b: Bytes) -> Seq<u8>;

/// `Bytes::new`: a buffer that holds nothing.
#[verifier::external_body]
pub(crate) fn bytes_new() -> (b: Bytes)
    ensures
        bytes_contents(b) == Seq::<u8>::empty(),
{
    Bytes::new()
}

/// `Bytes::from(Vec<u8>)`: a buffer that holds the vector's octets.
#[verifier::external_body]
pub(crate) fn bytes_from_vec(v: Vec<u8>) -> (b: Bytes)
    ensures
        bytes_contents(b) == v@,
{
    Bytes::from(v)
}

/// `Bytes::clone`: a second handle on the same octets.
#[verifier::external_body]
pub(crate) fn bytes_clone(b: &Bytes) -> (c: Bytes)
    ensures
        bytes_contents(c) == bytes_contents(*b),
{
    b.clone()
}

/// `Bytes::as_ref`: the octets as a slice.
#[verifier::external_body]
pub(crate) fn bytes_as_slice(b: &Bytes) -> (s: &[u8])
    ensures
        s@ == bytes_contents(*b),
{
    b.as_ref()
}

/// `Bytes::eq`: two buffers are equal when they hold the same octets.
#[verifier::external_body]
pub(crate) fn bytes_eq(a: &Bytes, b: &Bytes) -> (r: bool)
    ensures
        r == (bytes_contents(*a) == bytes_contents(*b)),
{
    a == b
}

/// How a payload's octets are encoded.
#[allow(non_camel_case_types)]
#[derive(Debug, Clone, Copy, PartialEq, Eq, Structural)]
pub enum RepresentationIdentifier {
    CDR_BE,
    CDR_LE,
    PL_CDR_BE,
    PL_CDR_LE,
    CDR2_BE,
    CDR2_LE,
    PL_CDR2_BE,
    PL_CDR2_LE,
    D_CDR_BE,
    D_CDR_LE,
    XML,
}

impl RepresentationIdentifier {
    /// The identifier's number on the wire.
    pub open spec fn spec_to_u16(self) -> u16 {
        match self {
            RepresentationIdentifier::CDR_BE => 0x0000,
            RepresentationIdentifier::CDR_LE => 0x0001,
            RepresentationIdentifier::PL_CDR_BE => 0x0002,
            RepresentationIdentifier::PL_CDR_LE => 0x0003,
            RepresentationIdentifier::XML => 0x0004,
            RepresentationIdentifier::CDR2_BE => 0x0010,
            RepresentationIdentifier::CDR2_LE => 0x0011,
            RepresentationIdentifier::PL_CDR2_BE => 0x0012,
            RepresentationIdentifier::PL_CDR2_LE => 0x0013,
            RepresentationIdentifier::D_CDR_BE => 0x0014,
            RepresentationIdentifier::D_CDR_LE => 0x0015,
        }
    }

    /// The identifier's number on the wire.
    #[verifier::when_used_as_spec(spec_to_u16)]
    pub fn to_u16(self) -> (n: u16)
        ensures
            n == self.spec_to_u16(),
    {
        match self {
            RepresentationIdentifier::CDR_BE => 0x0000,
            RepresentationIdentifier::CDR_LE => 0x0001,
            RepresentationIdentifier::PL_CDR_BE => 0x0002,
            RepresentationIdentifier::PL_CDR_LE => 0x0003,
            RepresentationIdentifier::XML => 0x0004,
            RepresentationIdentifier::CDR2_BE => 0x0010,
            RepresentationIdentifier::CDR2_LE => 0x0011,
            RepresentationIdentifier::PL_CDR2_BE => 0x0012,
            RepresentationIdentifier::PL_CDR2_LE => 0x0013,
            RepresentationIdentifier::D_CDR_BE => 0x0014,
            RepresentationIdentifier::D_CDR_LE => 0x0015,
        }
    }

    /// The identifier with the number `n`, or `n` back where no identifier has it.
    pub open spec fn spec_try_from_u16(n: u16) -> Result<RepresentationIdentifier, u16> {
        if n == 0x0000 {
            Ok(RepresentationIdentifier::CDR_BE)
        } else if n == 0x0001 {
            Ok(RepresentationIdentifier::CDR_LE)
        } else if n == 0x0002 {
            Ok(RepresentationIdentifier::PL_CDR_BE)
        } else if n == 0x0003 {
            Ok(RepresentationIdentifier::PL_CDR_LE)
        } else if n == 0x0004 {
            Ok(RepresentationIdentifier::XML)
        } else if n == 0x0010 {
            Ok(RepresentationIdentifier::CDR2_BE)
        } else if n == 0x0011 {
            Ok(RepresentationIdentifier::CDR2_LE)
        } else if n == 0x0012 {
            Ok(RepresentationIdentifier::PL_CDR2_BE)
        } else if n == 0x0013 {
            Ok(RepresentationIdentifier::PL_CDR2_LE)
        } else if n == 0x0014 {
            Ok(RepresentationIdentifier::D_CDR_BE)
        } else if n == 0x0015 {
            Ok(RepresentationIdentifier::D_CDR_LE)
        } else {
            Err(n)
        }
    }

    /// The identifier with the number `n`, or `n` back where no identifier has it.
    #[verifier::when_used_as_spec(spec_try_from_u16)]
    pub fn try_from_u16(n: u16) -> (r: Result<RepresentationIdentifier, u16>)
        ensures
            r == Self::spec_try_from_u16(n),
    {
        if n == 0x0000 {
            Ok(RepresentationIdentifier::CDR_BE)
        } else if n == 0x0001 {
            Ok(RepresentationIdentifier::CDR_LE)
        } else if n == 0x0002 {
            Ok(RepresentationIdentifier::PL_CDR_BE)
        } else if n == 0x0003 {
            Ok(RepresentationIdentifier::PL_CDR_LE)
        } else if n == 0x0004 {
            Ok(RepresentationIdentifier::XML)
        } else if n == 0x0010 {
            Ok(RepresentationIdentifier::CDR2_BE)
        } else if n == 0x0011 {
            Ok(RepresentationIdentifier::CDR2_LE)
        } else if n == 0x0012 {
            Ok(RepresentationIdentifier::PL_CDR2_BE)
        } else if n == 0x0013 {
            Ok(RepresentationIdentifier::PL_CDR2_LE)
        } else if n == 0x0014 {
            Ok(RepresentationIdentifier::D_CDR_BE)
        } else if n == 0x0015 {
            Ok(RepresentationIdentifier::D_CDR_LE)
        } else {
            Err(n)
        }
    }

    /// An identifier comes back from its number, and a number that comes
    /// back as an identifier is that identifier's number.
    pub proof fn lemma_number_round_trip(id: RepresentationIdentifier, n: u16)
        ensures
            Self::spec_try_from_u16(id.spec_to_u16()) == Ok::<RepresentationIdentifier, u16>(id),
            Self::spec_try_from_u16(n) matches Ok(found) ==> found.spec_to_u16() == n,
            Self::spec_try_from_u16(n) matches Err(m) ==> m == n,
    {
    }

    /// The byte order of a CDR or parameter-list CDR encoding; `None` for the
    /// other encodings.
    pub open spec fn spec_cdr_endianness(self) -> Option<crate::serialization::Endianness> {
        match self {
            RepresentationIdentifier::CDR_BE | RepresentationIdentifier::PL_CDR_BE => Some(
                crate::serialization::Endianness::BigEndian,
            ),
            RepresentationIdentifier::CDR_LE | RepresentationIdentifier::PL_CDR_LE => Some(
                crate::serialization::Endianness::LittleEndian,
            ),
            _ => None,
        }
    }

    /// The byte order of a CDR or parameter-list CDR encoding; `None` for the
    /// other encodings.
    #[verifier::when_used_as_spec(spec_cdr_endianness)]
    pub fn cdr_endianness(self) -> (e: Option<crate::serialization::Endianness>)
        ensures
            e == self.spec_cdr_endianness(),
    {
        match self {
            RepresentationIdentifier::CDR_BE | RepresentationIdentifier::PL_CDR_BE => Some(
                crate::serialization::Endianness::BigEndian,
            ),
            RepresentationIdentifier::CDR_LE | RepresentationIdentifier::PL_CDR_LE => Some(
                crate::serialization::Endianness::LittleEndian,
            ),
            _ => None,
        }
    }
}

/// What a `SerializedPayload` stands for.
pub struct SerializedPayloadView {
    pub representation_identifier: u16,
    pub representation_options: Seq<u8>,
    pub value: Seq<u8>,
}

/// A sample as it travels: the encoding tag, two option octets, the octets.
#[derive(Debug)]
pub struct SerializedPayload {
    pub representation_identifier: u16,
    pub representation_options: [u8; 2],
    pub value: Bytes,
}

impl View for SerializedPayload {
    type V = SerializedPayloadView;

    open spec fn view(&self) -> SerializedPayloadView {
        SerializedPayloadView {
            representation_identifier: self.representation_identifier,
            representation_options: self.representation_options@,
            value: bytes_contents(self.value),
        }
    }
}

impl SerializedPayload {
    /// A payload of the octets `value` in the encoding `rep_id`, with both
    /// option octets zero.
    pub fn new(rep_id: RepresentationIdentifier, value: Vec<u8>) -> (p: SerializedPayload)
        ensures
            p@.representation_identifier == rep_id.spec_to_u16(),
            p@.representation_options == seq![0u8, 0u8],
            p@.value == value@,
    {
        let p = SerializedPayload {
            representation_identifier: rep_id.to_u16(),
            representation_options: [0u8, 0u8],
            value: bytes_from_vec(value),
        };
        assert(p.representation_options@ =~= seq![0u8, 0u8]);
        p
    }
}

impl Clone for SerializedPayload {
    fn clone(&self) -> (p: SerializedPayload)
        ensures
            p@ == self@,
    {
        SerializedPayload {
            representation_identifier: self.representation_identifier,
            representation_options: self.representation_options,
            value: bytes_clone(&self.value),
        }
    }
}

impl PartialEq for SerializedPayload {
    fn eq(&self, other: &SerializedPayload) -> (r: bool) {
        let r = self.representation_identifier == other.representation_identifier
            && self.representation_options[0] == other.representation_options[0]
            && self.representation_options[1] == other.representation_options[1]
            && bytes_eq(&self.value, &other.value);
        proof {
            if r {
                assert(self.representation_options@ =~= other.representation_options@);
            }
        }
        r
    }
}

impl vstd::std_specs::cmp::PartialEqSpecImpl for SerializedPayload {
    open spec fn obeys_eq_spec() -> bool {
        true
    }

    open spec fn eq_spec(&self, other: &SerializedPayload) -> bool {
        self@ == other@
    }
}

} // verus!
