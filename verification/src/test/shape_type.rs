//! A keyed sample of one number.

use crate::dds::traits::{Keyed, SerializerAdapter};
use crate::serialization::{i32_to_wire, octets_of, put_uint, unsigned_32, Endianness, Error};
use vstd::prelude::*;

verus! {

/// A sample whose only field is its key.
#[derive(Debug, Clone, PartialEq)]
pub struct ShapeType {
    a: i32,
}

impl ShapeType {
    /// The sample with the key `a`.
    pub fn new(a: i32) -> (s: ShapeType)
        ensures
            s.spec_key() == a,
    {
        ShapeType { a }
    }
}

impl Keyed for ShapeType {
    type K = i32;

    closed spec fn spec_key(&self) -> i32 {
        self.a
    }

    fn get_key(&self) -> (k: i32) {
        self.a
    }
}

/// The CDR form of `ShapeType` and of its key: the number in four octets,
/// least significant first.
pub struct ShapeTypeCdr;

/// The four octets of a number, least significant first.
pub open spec fn number_octets(n: i32) -> Seq<u8> {
    octets_of(Endianness::LittleEndian, unsigned_32(n as int), 4)
}

/// The four octets of a number, least significant first.
fn number_to_octets(n: i32) -> (out: Vec<u8>)
    ensures
        out@ == number_octets(n),
{
    let mut out: Vec<u8> = Vec::new();
    put_uint(&mut out, i32_to_wire(n) as u64, 4, Endianness::LittleEndian);
    assert(out@ =~= number_octets(n));
    out
}

impl SerializerAdapter<ShapeType> for ShapeTypeCdr {
    open spec fn encoded(value: &ShapeType) -> Result<Seq<u8>, Error> {
        Ok(number_octets(value.spec_key()))
    }

    fn to_bytes(value: &ShapeType) -> (r: Result<Vec<u8>, Error>) {
        Ok(number_to_octets(value.get_key()))
    }
}

impl SerializerAdapter<i32> for ShapeTypeCdr {
    open spec fn encoded(value: &i32) -> Result<Seq<u8>, Error> {
        Ok(number_octets(*value))
    }

    fn to_bytes(value: &i32) -> (r: Result<Vec<u8>, Error>) {
        Ok(number_to_octets(*value))
    }
}

} // verus!
