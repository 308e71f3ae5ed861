//! The two inline parameters that the core reads: the status of an instance
//! and the hash of its key.

use crate::messages::serialized_payload::RepresentationIdentifier;
use crate::serialization::{
    endian_value, read_u128_be, read_u128_le, write_u128_be, write_u128_le, Endianness, Error,
};
use crate::structure::cache_change::ChangeKind;
use vstd::prelude::*;

verus! {

/// One flag of the status octet.
#[derive(Debug, Clone, Copy, PartialEq, Eq, Structural)]
pub enum StatusInfoEnum {
    Disposed,
    Unregistered,
    Filtered,
}

impl StatusInfoEnum {
    /// The flag's bit in the status octet.
    pub open spec fn spec_bits(self) -> u8 {
        match self {
            StatusInfoEnum::Disposed => 0b0001,
            StatusInfoEnum::Unregistered => 0b0010,
            StatusInfoEnum::Filtered => 0b0100,
        }
    }

    /// The flag's bit in the status octet.
    #[verifier::when_used_as_spec(spec_bits)]
    pub fn bits(self) -> (b: u8)
        ensures
            b == self.spec_bits(),
    {
        match self {
            StatusInfoEnum::Disposed => 0b0001,
            StatusInfoEnum::Unregistered => 0b0010,
            StatusInfoEnum::Filtered => 0b0100,
        }
    }
}

/// The four status octets of a sample: three that are carried unread and
/// one of flags.
#[derive(Debug, Clone, Copy, PartialEq, Eq, Structural)]
pub struct StatusInfo {
    em0: u8,
    em1: u8,
    em2: u8,
    si: u8,
}

/// The union of all three flag bits.
pub const STATUS_INFO_ALL_FLAGS: u8 = 0b0111;

impl StatusInfo {
    /// The flag octet.
    pub closed spec fn flags(&self) -> u8 {
        self.si
    }

    /// The three octets before the flag octet.
    pub closed spec fn reserved(&self) -> Seq<u8> {
        seq![self.em0, self.em1, self.em2]
    }

    /// The flag octet holds no bit that names no flag.
    pub open spec fn wf(&self) -> bool {
        self.flags() & !STATUS_INFO_ALL_FLAGS == 0
    }

    /// Whether the flag `sie` is set.
    pub open spec fn spec_contains(&self, sie: StatusInfoEnum) -> bool {
        self.flags() & sie.spec_bits() == sie.spec_bits()
    }

    /// The four octets on the wire. No integer in them is wider than an
    /// octet, so they are the same in either byte order.
    pub open spec fn spec_cdr_bytes(&self) -> Seq<u8> {
        self.reserved().push(self.flags())
    }

    /// The kind of change that the flags announce: disposed before
    /// unregistered before alive.
    pub open spec fn spec_change_kind(&self) -> ChangeKind {
        if self.spec_contains(StatusInfoEnum::Disposed) {
            ChangeKind::NOT_ALIVE_DISPOSED
        } else if self.spec_contains(StatusInfoEnum::Unregistered) {
            ChangeKind::NOT_ALIVE_UNREGISTERED
        } else {
            ChangeKind::ALIVE
        }
    }

    /// The status that four octets spell.
    pub closed spec fn of_octets(octets: Seq<u8>) -> StatusInfo {
        StatusInfo { em0: octets[0], em1: octets[1], em2: octets[2], si: octets[3] }
    }

    /// Four octets spell the status whose octets they are, and a status is
    /// known by its octets.
    pub proof fn lemma_octets(a: StatusInfo, b: StatusInfo, octets: Seq<u8>)
        ensures
            a.spec_cdr_bytes().len() == 4,
            Self::of_octets(a.spec_cdr_bytes()) == a,
            a.spec_cdr_bytes() == b.spec_cdr_bytes() ==> a == b,
            octets.len() == 4 ==> Self::of_octets(octets).spec_cdr_bytes() == octets,
            octets.len() >= 4 ==> Self::of_octets(octets).flags() == octets[3],
    {
        if a.spec_cdr_bytes() == b.spec_cdr_bytes() {
            assert(a.spec_cdr_bytes()[0] == b.spec_cdr_bytes()[0]);
            assert(a.spec_cdr_bytes()[1] == b.spec_cdr_bytes()[1]);
            assert(a.spec_cdr_bytes()[2] == b.spec_cdr_bytes()[2]);
            assert(a.spec_cdr_bytes()[3] == b.spec_cdr_bytes()[3]);
        }
        if octets.len() == 4 {
            assert(Self::of_octets(octets).spec_cdr_bytes() =~= octets);
        }
    }

    /// No flag set, reserved octets zero.
    pub fn empty() -> (s: StatusInfo)
        ensures
            s.wf(),
            s.flags() == 0,
            s.reserved() == seq![0u8, 0u8, 0u8],
    {
        let s = StatusInfo { em0: 0, em1: 0, em2: 0, si: 0 };
        assert(0u8 & !0b0111u8 == 0) by (bit_vector);
        s
    }

    /// This status with the flag `sie` set as well.
    pub fn with(self, sie: StatusInfoEnum) -> (s: StatusInfo)
        ensures
            s.flags() == self.flags() | sie.spec_bits(),
            s.reserved() == self.reserved(),
            self.wf() ==> s.wf(),
            s.spec_contains(sie),
            forall|other: StatusInfoEnum|
                other != sie ==> s.spec_contains(other) == self.spec_contains(other),
    {
        let b = sie.bits();
        let old_si = self.si;
        let s = StatusInfo { em0: self.em0, em1: self.em1, em2: self.em2, si: old_si | b };
        assert((old_si | b) & b == b) by (bit_vector);
        assert((b == 1 || b == 2 || b == 4) && old_si & !0b0111u8 == 0 ==> (old_si | b)
            & !0b0111u8 == 0) by (bit_vector);
        assert forall|other: StatusInfoEnum| other != sie implies s.spec_contains(other)
            == self.spec_contains(other) by {
            let o = other.spec_bits();
            assert((b == 1 || b == 2 || b == 4) && (o == 1 || o == 2 || o == 4) && o != b ==> ((
            old_si | b) & o == o) == (old_si & o == o)) by (bit_vector);
        }
        s
    }

    /// Whether the flag `sie` is set.
    #[verifier::when_used_as_spec(spec_contains)]
    pub fn contains(&self, sie: StatusInfoEnum) -> (r: bool)
        ensures
            r == self.spec_contains(sie),
    {
        let b = sie.bits();
        self.si & b == b
    }

    /// The kind of change that the flags announce: disposed before
    /// unregistered before alive.
    #[verifier::when_used_as_spec(spec_change_kind)]
    pub fn change_kind(&self) -> (k: ChangeKind)
        ensures
            k == self.spec_change_kind(),
    {
        if self.contains(StatusInfoEnum::Disposed) {
            ChangeKind::NOT_ALIVE_DISPOSED
        } else if self.contains(StatusInfoEnum::Unregistered) {
            ChangeKind::NOT_ALIVE_UNREGISTERED
        } else {
            ChangeKind::ALIVE
        }
    }

    /// The four octets on the wire, the same in either byte order.
    pub fn into_cdr_bytes(&self, endianness: Endianness) -> (r: Result<Vec<u8>, Error>)
        ensures
            r is Ok,
            r->Ok_0@ == self.spec_cdr_bytes(),
    {
        let mut out: Vec<u8> = Vec::new();
        out.push(self.em0);
        out.push(self.em1);
        out.push(self.em2);
        out.push(self.si);
        assert(out@ =~= self.spec_cdr_bytes());
        Ok(out)
    }

    /// Reads the four status octets at the head of `bytes`.
    ///
    /// Fails with `UnknownRepresentation` where `representation_id` is no CDR
    /// encoding, with `Eof` where fewer than four octets are there, and with
    /// `InvalidFlags` where the flag octet holds a bit that names no flag.
    pub fn from_cdr_bytes(bytes: &Vec<u8>, representation_id: RepresentationIdentifier) -> (r:
        Result<StatusInfo, Error>)
        ensures
            match r {
                Ok(s) => {
                    &&& representation_id.spec_cdr_endianness() is Some
                    &&& bytes@.len() >= 4
                    &&& s.wf()
                    &&& s.spec_cdr_bytes() == bytes@.subrange(0, 4)
                },
                Err(Error::UnknownRepresentation) => representation_id.spec_cdr_endianness()
                    is None,
                Err(Error::Eof) => {
                    &&& representation_id.spec_cdr_endianness() is Some
                    &&& bytes@.len() < 4
                },
                Err(Error::InvalidFlags(b)) => {
                    &&& representation_id.spec_cdr_endianness() is Some
                    &&& bytes@.len() >= 4
                    &&& b == bytes@[3]
                    &&& b & !STATUS_INFO_ALL_FLAGS != 0
                },
                Err(_) => false,
            },
    {
        if representation_id.cdr_endianness().is_none() {
            return Err(Error::UnknownRepresentation);
        }
        if bytes.len() < 4 {
            return Err(Error::Eof);
        }
        let si = bytes[3];
        if si & !STATUS_INFO_ALL_FLAGS != 0 {
            return Err(Error::InvalidFlags(si));
        }
        let s = StatusInfo { em0: bytes[0], em1: bytes[1], em2: bytes[2], si };
        assert(s.spec_cdr_bytes() =~= bytes@.subrange(0, 4));
        Ok(s)
    }
}

/// The hash of an instance's key: sixteen octets, held as one number.
#[derive(Debug, Clone, Copy, PartialEq, Eq, Hash, Structural)]
pub struct KeyHash {
    key: u128,
}

impl KeyHash {
    /// The number that the hash holds.
    pub closed spec fn spec_value(&self) -> u128 {
        self.key
    }

    /// The hash that holds `value`.
    pub closed spec fn of_value(value: u128) -> KeyHash {
        KeyHash { key: value }
    }

    /// A hash is known by the number it holds.
    pub proof fn lemma_value(a: KeyHash, b: KeyHash, value: u128)
        ensures
            Self::of_value(value).spec_value() == value,
            a.spec_value() == b.spec_value() ==> a == b,
    {
    }

    /// The hash of no key: zero.
    pub fn empty() -> (h: KeyHash)
        ensures
            h.spec_value() == 0,
    {
        KeyHash { key: 0 }
    }

    /// The hash that holds `key`.
    pub fn new(key: u128) -> (h: KeyHash)
        ensures
            h.spec_value() == key,
    {
        KeyHash { key }
    }

    /// The number that the hash holds.
    #[verifier::when_used_as_spec(spec_value)]
    pub fn value(&self) -> (v: u128)
        ensures
            v == self.spec_value(),
    {
        self.key
    }

    /// The sixteen octets that spell the hash in the given byte order.
    pub fn into_cdr_bytes(&self, endianness: Endianness) -> (r: Result<Vec<u8>, Error>)
        ensures
            r is Ok,
            r->Ok_0@.len() == 16,
            endian_value(endianness, r->Ok_0@) == self.spec_value(),
    {
        match endianness {
            Endianness::BigEndian => Ok(write_u128_be(self.key)),
            Endianness::LittleEndian => Ok(write_u128_le(self.key)),
        }
    }

    /// What `from_cdr_bytes` makes of a long enough input: the number that
    /// the first sixteen octets spell in the byte order of a CDR encoding,
    /// and zero for any other encoding.
    pub open spec fn decoded(bytes: Seq<u8>, representation_id: RepresentationIdentifier) -> nat {
        match representation_id.spec_cdr_endianness() {
            Some(e) => endian_value(e, bytes.subrange(0, 16)),
            None => 0,
        }
    }

    /// Reads a hash from the head of `bytes`.
    ///
    /// In a CDR encoding the first sixteen octets spell the hash, and a
    /// shorter input fails with `IOError`. In any other encoding the octets
    /// are not read and the hash is zero.
    pub fn from_cdr_bytes(bytes: &Vec<u8>, representation_id: RepresentationIdentifier) -> (r:
        Result<KeyHash, Error>)
        ensures
            match r {
                Ok(h) => {
                    &&& representation_id.spec_cdr_endianness() is Some ==> bytes@.len() >= 16
                    &&& h.spec_value() == Self::decoded(bytes@, representation_id)
                },
                Err(e) => {
                    &&& e == Error::IOError
                    &&& representation_id.spec_cdr_endianness() is Some
                    &&& bytes@.len() < 16
                },
            },
    {
        let key = match representation_id.cdr_endianness() {
            Some(Endianness::BigEndian) => {
                if bytes.len() < 16 {
                    return Err(Error::IOError);
                }
                read_u128_be(bytes.as_slice())
            },
            Some(Endianness::LittleEndian) => {
                if bytes.len() < 16 {
                    return Err(Error::IOError);
                }
                read_u128_le(bytes.as_slice())
            },
            None => 0,
        };
        Ok(KeyHash { key })
    }
}

} // verus!
