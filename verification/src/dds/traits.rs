//! What a type must offer to travel on a keyed topic.

use crate::messages::serialized_payload::RepresentationIdentifier;
use crate::serialization::Error;
use vstd::prelude::*;

verus! {

/// The key of an instance. Keys are totally ordered, and the order is given
/// by the integer `rank`: two keys of one rank are the same key.
pub trait Key: Sized {
    /// The key's place in the order of keys.
    spec fn rank(&self) -> int;

    /// The sixteen-octet hash that stands for the key on the wire.
    spec fn spec_hash_key(&self) -> u128;

    /// Two keys of one rank are the same key.
    proof fn rank_is_injective(a: &Self, b: &Self)
        requires
            a.rank() == b.rank(),
        ensures
            a == b,
    ;

    /// Whether this key comes before `other`.
    fn key_lt(&self, other: &Self) -> (b: bool)
        ensures
            b == (self.rank() < other.rank()),
    ;

    /// A copy of the key.
    fn clone_key(&self) -> (k: Self)
        ensures
            k == *self,
    ;

    /// The sixteen-octet hash that stands for the key on the wire.
    fn into_hash_key(&self) -> (h: u128)
        ensures
            h == self.spec_hash_key(),
    ;
}

/// A sample that belongs to an instance, which its key names.
pub trait Keyed {
    type K: Key;

    /// The key of the instance that this sample belongs to.
    spec fn spec_key(&self) -> Self::K;

    /// The key of the instance that this sample belongs to.
    fn get_key(&self) -> (k: Self::K)
        ensures
            k == self.spec_key(),
    ;
}

/// A borrowed sample belongs to the instance that the sample belongs to.
impl<'a, D: Keyed> Keyed for &'a D {
    type K = D::K;

    open spec fn spec_key(&self) -> D::K {
        (**self).spec_key()
    }

    fn get_key(&self) -> (k: D::K) {
        (*self).get_key()
    }
}

/// Turns samples of `D` into octets.
pub trait SerializerAdapter<D> {
    /// The octets that `to_bytes` gives for `value`.
    spec fn encoded(value: &D) -> Result<Seq<u8>, Error>;

    /// The octets of `value`.
    fn to_bytes(value: &D) -> (r: Result<Vec<u8>, Error>)
        ensures
            match r {
                Ok(v) => Self::encoded(value) == Ok::<Seq<u8>, Error>(v@),
                Err(e) => Self::encoded(value) == Err::<Seq<u8>, Error>(e),
            },
    ;
}

/// Turns octets into samples of `D`.
pub trait DeserializerAdapter<D> {
    /// The sample that `from_bytes` gives for these octets in this encoding.
    spec fn decoded(input_bytes: Seq<u8>, encoding: RepresentationIdentifier) -> Result<D, Error>;

    /// The sample that the octets spell in the given encoding.
    fn from_bytes(input_bytes: &[u8], encoding: RepresentationIdentifier) -> (r: Result<D, Error>)
        ensures
            r == Self::decoded(input_bytes@, encoding),
    ;
}

impl Key for i32 {
    open spec fn rank(&self) -> int {
        *self as int
    }

    /// The key's four octets, most significant first, then twelve zero octets.
    open spec fn spec_hash_key(&self) -> u128 {
        (((*self as u32) as int) * 0x1_0000_0000_0000_0000_0000_0000) as u128
    }

    proof fn rank_is_injective(a: &i32, b: &i32) {
    }

    fn key_lt(&self, other: &i32) -> (b: bool) {
        *self < *other
    }

    fn clone_key(&self) -> (k: i32) {
        *self
    }

    fn into_hash_key(&self) -> (h: u128) {
        let low: u32 = *self as u32;
        let h: u128 = (low as u128) * 0x1_0000_0000_0000_0000_0000_0000u128;
        h
    }
}

impl Key for i64 {
    open spec fn rank(&self) -> int {
        *self as int
    }

    /// The key's eight octets, most significant first, then eight zero octets.
    open spec fn spec_hash_key(&self) -> u128 {
        (((*self as u64) as int) * 0x1_0000_0000_0000_0000) as u128
    }

    proof fn rank_is_injective(a: &i64, b: &i64) {
    }

    fn key_lt(&self, other: &i64) -> (b: bool) {
        *self < *other
    }

    fn clone_key(&self) -> (k: i64) {
        *self
    }

    fn into_hash_key(&self) -> (h: u128) {
        let low: u64 = *self as u64;
        let h: u128 = (low as u128) * 0x1_0000_0000_0000_0000u128;
        h
    }
}

} // verus!
