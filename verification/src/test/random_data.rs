//! A keyed sample of a number and a text, with its CDR form.

use crate::dds::traits::{DeserializerAdapter, Keyed, SerializerAdapter};
use crate::messages::serialized_payload::RepresentationIdentifier;
use crate::serialization::{
    endian_value, get_uint, i64_from_wire, i64_to_wire, octets_of, put_uint, signed_64,
    string_from_utf8, unsigned_64, utf8_text, Endianness, Error,
};
use vstd::prelude::*;
use vstd::slice::{slice_subrange, slice_to_vec};
use vstd::string::StrSliceExecFns;
use vstd::utf8::encode_utf8;

verus! {

/// A sample whose key is its number.
#[derive(Debug, Clone, PartialEq)]
pub struct RandomData {
    pub a: i64,
    pub b: String,
}

impl Keyed for RandomData {
    type K = i64;

    open spec fn spec_key(&self) -> i64 {
        self.a
    }

    fn get_key(&self) -> (k: i64) {
        self.a
    }
}

/// The CDR form of `RandomData`: the number in eight octets, then the text
/// as the count of its octets and one, its octets in UTF-8, and a zero octet.
pub struct RandomDataCdr;

/// The CDR form of a sample in the given byte order.
pub open spec fn random_data_octets(value: RandomData, e: Endianness) -> Result<Seq<u8>, Error> {
    let text = encode_utf8(value.b@);
    if text.len() + 1 > u32::MAX {
        Err(Error::SequenceTooLong)
    } else {
        Ok(
            octets_of(e, unsigned_64(value.a as int), 8) + octets_of(e, (text.len() + 1) as nat, 4)
                + text + seq![0u8],
        )
    }
}

/// The sample that octets in the given encoding stand for.
pub open spec fn random_data_of(octets: Seq<u8>, encoding: RepresentationIdentifier) -> Result<
    RandomData,
    Error,
> {
    match encoding.spec_cdr_endianness() {
        None => Err(Error::UnknownRepresentation),
        Some(e) => if octets.len() < 12 {
            Err(Error::Eof)
        } else {
            let a = signed_64(endian_value(e, octets.subrange(0, 8)));
            let n = endian_value(e, octets.subrange(8, 12));
            if n == 0 || octets.len() < 12 + n {
                Err(Error::Eof)
            } else {
                match utf8_text(octets.subrange(12, 12 + n - 1)) {
                    Some(b) => Ok(RandomData { a: a as i64, b }),
                    None => Err(Error::InvalidText),
                }
            }
        },
    }
}

impl SerializerAdapter<RandomData> for RandomDataCdr {
    open spec fn encoded(value: &RandomData) -> Result<Seq<u8>, Error> {
        random_data_octets(*value, Endianness::LittleEndian)
    }

    fn to_bytes(value: &RandomData) -> (r: Result<Vec<u8>, Error>) {
        let mut text = value.b.as_str().as_bytes_vec();
        let ghost text_octets = text@;
        assert(text_octets == encode_utf8(value.b@));
        if text.len() >= u32::MAX as usize {
            return Err(Error::SequenceTooLong);
        }
        let mut out: Vec<u8> = Vec::new();
        put_uint(&mut out, i64_to_wire(value.a), 8, Endianness::LittleEndian);
        put_uint(&mut out, (text.len() + 1) as u64, 4, Endianness::LittleEndian);
        out.append(&mut text);
        out.push(0);
        assert(out@ =~= octets_of(Endianness::LittleEndian, unsigned_64(value.a as int), 8)
            + octets_of(Endianness::LittleEndian, (text_octets.len() + 1) as nat, 4) + text_octets
            + seq![0u8]);
        Ok(out)
    }
}

/// The key of a sample in its CDR form: the number in eight octets, least
/// significant first.
impl SerializerAdapter<i64> for RandomDataCdr {
    open spec fn encoded(value: &i64) -> Result<Seq<u8>, Error> {
        Ok(octets_of(Endianness::LittleEndian, unsigned_64(*value as int), 8))
    }

    fn to_bytes(value: &i64) -> (r: Result<Vec<u8>, Error>) {
        let mut out: Vec<u8> = Vec::new();
        put_uint(&mut out, i64_to_wire(*value), 8, Endianness::LittleEndian);
        assert(out@ =~= octets_of(Endianness::LittleEndian, unsigned_64(*value as int), 8));
        Ok(out)
    }
}

impl DeserializerAdapter<RandomData> for RandomDataCdr {
    open spec fn decoded(input_bytes: Seq<u8>, encoding: RepresentationIdentifier) -> Result<
        RandomData,
        Error,
    > {
        random_data_of(input_bytes, encoding)
    }

    fn from_bytes(input_bytes: &[u8], encoding: RepresentationIdentifier) -> (r: Result<
        RandomData,
        Error,
    >) {
        let e = match encoding.cdr_endianness() {
            Some(e) => e,
            None => {
                return Err(Error::UnknownRepresentation);
            },
        };
        if input_bytes.len() < 12 {
            return Err(Error::Eof);
        }
        let a = i64_from_wire(get_uint(input_bytes, 0, 8, e));
        let n = get_uint(input_bytes, 8, 4, e);
        proof {
            crate::serialization::lemma_octet_ranges();
        }
        if n == 0 || ((input_bytes.len() - 12) as u64) < n {
            return Err(Error::Eof);
        }
        let text = slice_to_vec(slice_subrange(input_bytes, 12, 12 + (n as usize) - 1));
        match string_from_utf8(text) {
            Some(b) => Ok(RandomData { a, b }),
            None => Err(Error::InvalidText),
        }
    }
}

} // verus!
