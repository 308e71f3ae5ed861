//! The wire forms of the elements that submessages are made of.

use crate::serialization::{
    endian_value, get_uint, i32_from_wire, i32_to_wire, i64_from_wire, i64_to_wire,
    lemma_octet_ranges, lemma_octets_of, octets_of, put_uint, signed_32, signed_64, unsigned_32,
    unsigned_64, Endianness,
};
use crate::structure::guid::{EntityId, GuidPrefix};
use crate::structure::locator::Locator;
use crate::structure::sequence_number::{
    SequenceNumber, SequenceNumberSet, SEQUENCE_NUMBER_SET_MAX_BITS,
};
use crate::structure::time::Timestamp;
use vstd::prelude::*;

verus! {

/// The four octets of an entity id.
pub open spec fn entity_id_octets(id: EntityId) -> Seq<u8> {
    id.octets()
}

/// The entity id that four octets spell.
pub open spec fn entity_id_of(octets: Seq<u8>) -> EntityId {
    EntityId {
        entityKey0: octets[0],
        entityKey1: octets[1],
        entityKey2: octets[2],
        entityKind: octets[3],
    }
}

/// Puts the four octets of an entity id behind `out`.
pub fn put_entity_id(out: &mut Vec<u8>, id: EntityId)
    ensures
        final(out)@ == old(out)@ + entity_id_octets(id),
{
    out.push(id.entityKey0);
    out.push(id.entityKey1);
    out.push(id.entityKey2);
    out.push(id.entityKind);
    assert(out@ =~= old(out)@ + entity_id_octets(id));
}

/// The entity id that the four octets of `buf` from `at` on spell.
pub fn get_entity_id(buf: &[u8], at: usize) -> (id: EntityId)
    requires
        at + 4 <= buf@.len(),
    ensures
        id == entity_id_of(buf@.subrange(at as int, at + 4)),
{
    let len = buf.len();
    EntityId {
        entityKey0: buf[at],
        entityKey1: buf[at + 1],
        entityKey2: buf[at + 2],
        entityKind: buf[at + 3],
    }
}

/// Four octets spell the entity id whose octets they are.
pub proof fn lemma_entity_id_round_trip(id: EntityId)
    ensures
        entity_id_octets(id).len() == 4,
        entity_id_of(entity_id_octets(id)) == id,
{
}

/// The twelve octets of a participant's prefix.
pub open spec fn guid_prefix_octets(prefix: GuidPrefix) -> Seq<u8> {
    prefix.entityKey@
}

/// The prefix that twelve octets spell.
pub open spec fn guid_prefix_of(octets: Seq<u8>) -> GuidPrefix {
    choose|p: GuidPrefix| p.entityKey@ == octets
}

/// Twelve octets spell the prefix whose octets they are.
pub proof fn lemma_guid_prefix_round_trip(prefix: GuidPrefix)
    ensures
        guid_prefix_octets(prefix).len() == 12,
        guid_prefix_of(guid_prefix_octets(prefix)) == prefix,
{
    let q = guid_prefix_of(guid_prefix_octets(prefix));
    assert(q.entityKey@ == prefix.entityKey@);
    assert(q.entityKey =~= prefix.entityKey);
}

/// Puts the twelve octets of a prefix behind `out`.
pub fn put_guid_prefix(out: &mut Vec<u8>, prefix: GuidPrefix)
    ensures
        final(out)@ == old(out)@ + guid_prefix_octets(prefix),
{
    let mut i: usize = 0;
    while i < 12
        invariant
            i <= 12,
            out@ == old(out)@ + prefix.entityKey@.take(i as int),
        decreases 12 - i,
    {
        out.push(prefix.entityKey[i]);
        assert(out@ =~= old(out)@ + prefix.entityKey@.take(i as int + 1));
        i += 1;
    }
    assert(prefix.entityKey@.take(12) =~= prefix.entityKey@);
}

/// The prefix that the twelve octets of `buf` from `at` on spell.
pub fn get_guid_prefix(buf: &[u8], at: usize) -> (prefix: GuidPrefix)
    requires
        at + 12 <= buf@.len(),
    ensures
        prefix == guid_prefix_of(buf@.subrange(at as int, at + 12)),
        prefix.entityKey@ == buf@.subrange(at as int, at + 12),
{
    let len = buf.len();
    let mut key: [u8; 12] = [0u8, 0, 0, 0, 0, 0, 0, 0, 0, 0, 0, 0];
    let mut i: usize = 0;
    while i < 12
        invariant
            i <= 12,
            at + 12 <= buf@.len(),
            len == buf@.len(),
            forall|j: int| 0 <= j < i ==> key@[j] == buf@[at + j],
        decreases 12 - i,
    {
        key[i] = buf[at + i];
        i += 1;
    }
    let prefix = GuidPrefix { entityKey: key };
    proof {
        assert(prefix.entityKey@ =~= buf@.subrange(at as int, at + 12));
        let q = guid_prefix_of(buf@.subrange(at as int, at + 12));
        assert(q.entityKey =~= prefix.entityKey);
    }
    prefix
}

/// The eight octets of a sequence number: its upper half, then its lower
/// half, each in the given byte order.
pub open spec fn sequence_number_octets(sn: SequenceNumber, e: Endianness) -> Seq<u8> {
    octets_of(e, unsigned_64(sn.0 as int) / 0x1_0000_0000, 4) + octets_of(
        e,
        unsigned_64(sn.0 as int) % 0x1_0000_0000,
        4,
    )
}

/// The sequence number that eight octets spell.
pub open spec fn sequence_number_of(octets: Seq<u8>, e: Endianness) -> SequenceNumber {
    SequenceNumber(
        signed_64(
            (endian_value(e, octets.subrange(0, 4)) * 0x1_0000_0000 + endian_value(
                e,
                octets.subrange(4, 8),
            )) as nat,
        ) as i64,
    )
}

/// Eight octets spell the sequence number whose octets they are.
pub proof fn lemma_sequence_number_round_trip(sn: SequenceNumber, e: Endianness)
    ensures
        sequence_number_octets(sn, e).len() == 8,
        sequence_number_of(sequence_number_octets(sn, e), e) == sn,
{
    let u = unsigned_64(sn.0 as int);
    let hi = u / 0x1_0000_0000;
    let lo = u % 0x1_0000_0000;
    lemma_octet_ranges();
    lemma_octets_of(e, hi, 4);
    lemma_octets_of(e, lo, 4);
    let s = sequence_number_octets(sn, e);
    assert(s.subrange(0, 4) =~= octets_of(e, hi, 4));
    assert(s.subrange(4, 8) =~= octets_of(e, lo, 4));
    assert(hi * 0x1_0000_0000 + lo == u);
}

/// Puts the eight octets of a sequence number behind `out`.
pub fn put_sequence_number(out: &mut Vec<u8>, sn: SequenceNumber, e: Endianness)
    ensures
        final(out)@ == old(out)@ + sequence_number_octets(sn, e),
{
    let u = i64_to_wire(sn.0);
    put_uint(out, u / 0x1_0000_0000, 4, e);
    put_uint(out, u % 0x1_0000_0000, 4, e);
    assert(out@ =~= old(out)@ + sequence_number_octets(sn, e));
}

/// The sequence number that the eight octets of `buf` from `at` on spell.
pub fn get_sequence_number(buf: &[u8], at: usize, e: Endianness) -> (sn: SequenceNumber)
    requires
        at + 8 <= buf@.len(),
    ensures
        sn == sequence_number_of(buf@.subrange(at as int, at + 8), e),
{
    let len = buf.len();
    let hi = get_uint(buf, at, 4, e);
    let lo = get_uint(buf, at + 4, 4, e);
    proof {
        lemma_octet_ranges();
        let s = buf@.subrange(at as int, at + 8);
        assert(s.subrange(0, 4) =~= buf@.subrange(at as int, at + 4));
        assert(s.subrange(4, 8) =~= buf@.subrange(at + 4, at + 8));
    }
    SequenceNumber(i64_from_wire(hi * 0x1_0000_0000 + lo))
}

/// The eight octets of a timestamp: its seconds, then its fraction, each in
/// the given byte order.
pub open spec fn timestamp_octets(t: Timestamp, e: Endianness) -> Seq<u8> {
    octets_of(e, t.seconds as nat, 4) + octets_of(e, t.fraction as nat, 4)
}

/// The timestamp that eight octets spell.
pub open spec fn timestamp_of(octets: Seq<u8>, e: Endianness) -> Timestamp {
    Timestamp {
        seconds: endian_value(e, octets.subrange(0, 4)) as u32,
        fraction: endian_value(e, octets.subrange(4, 8)) as u32,
    }
}

/// Eight octets spell the timestamp whose octets they are.
pub proof fn lemma_timestamp_round_trip(t: Timestamp, e: Endianness)
    ensures
        timestamp_octets(t, e).len() == 8,
        timestamp_of(timestamp_octets(t, e), e) == t,
{
    lemma_octet_ranges();
    lemma_octets_of(e, t.seconds as nat, 4);
    lemma_octets_of(e, t.fraction as nat, 4);
    let s = timestamp_octets(t, e);
    assert(s.subrange(0, 4) =~= octets_of(e, t.seconds as nat, 4));
    assert(s.subrange(4, 8) =~= octets_of(e, t.fraction as nat, 4));
}

/// Puts the eight octets of a timestamp behind `out`.
pub fn put_timestamp(out: &mut Vec<u8>, t: Timestamp, e: Endianness)
    ensures
        final(out)@ == old(out)@ + timestamp_octets(t, e),
{
    put_uint(out, t.seconds as u64, 4, e);
    put_uint(out, t.fraction as u64, 4, e);
    assert(out@ =~= old(out)@ + timestamp_octets(t, e));
}

/// The timestamp that the eight octets of `buf` from `at` on spell.
pub fn get_timestamp(buf: &[u8], at: usize, e: Endianness) -> (t: Timestamp)
    requires
        at + 8 <= buf@.len(),
    ensures
        t == timestamp_of(buf@.subrange(at as int, at + 8), e),
{
    let len = buf.len();
    let seconds = get_uint(buf, at, 4, e);
    let fraction = get_uint(buf, at + 4, 4, e);
    proof {
        lemma_octet_ranges();
        let s = buf@.subrange(at as int, at + 8);
        assert(s.subrange(0, 4) =~= buf@.subrange(at as int, at + 4));
        assert(s.subrange(4, 8) =~= buf@.subrange(at + 4, at + 8));
    }
    Timestamp { seconds: seconds as u32, fraction: fraction as u32 }
}

/// The number that bits spell, most significant first.
pub open spec fn bits_value(bits: Seq<bool>) -> nat
    decreases bits.len(),
{
    if bits.len() == 0 {
        0
    } else {
        bits_value(bits.drop_last()) * 2 + if bits.last() {
            1nat
        } else {
            0nat
        }
    }
}

/// The `count` bits that spell `w`, most significant first.
pub open spec fn word_bits(w: nat, count: nat) -> Seq<bool>
    decreases count,
{
    if count == 0 {
        Seq::empty()
    } else {
        word_bits(w / 2, (count - 1) as nat).push(w % 2 == 1)
    }
}

/// Two to the power `n`.
pub open spec fn two_to(n: nat) -> nat
    decreases n,
{
    if n == 0 {
        1
    } else {
        2 * two_to((n - 1) as nat)
    }
}

/// Bits are the bits that spell the number they spell, and `n` bits spell a
/// number below two to the power `n`.
pub proof fn lemma_bits_round_trip(bits: Seq<bool>)
    ensures
        word_bits(bits_value(bits), bits.len()) == bits,
        bits_value(bits) < two_to(bits.len()),
    decreases bits.len(),
{
    if bits.len() > 0 {
        lemma_bits_round_trip(bits.drop_last());
        assert(word_bits(bits_value(bits), bits.len()) =~= bits);
    } else {
        assert(word_bits(bits_value(bits), bits.len()) =~= bits);
    }
}

/// The bits that spell a number are as many as asked for.
pub proof fn lemma_word_bits_len(w: nat, count: nat)
    ensures
        word_bits(w, count).len() == count,
    decreases count,
{
    if count > 0 {
        lemma_word_bits_len(w / 2, (count - 1) as nat);
    }
}

/// The thirty-two bits of the word `k` of a window: its bits from `32 k`
/// on, and unset bits where the window ends before the word does.
pub open spec fn window_word(bits: Seq<bool>, k: int) -> Seq<bool> {
    Seq::new(32, |j: int| 32 * k + j < bits.len() && bits[32 * k + j])
}

/// How many words hold `num_bits` bits.
pub open spec fn word_count(num_bits: nat) -> nat {
    (num_bits + 31) / 32
}

/// The octets of the first `m` words of a window.
pub open spec fn words_octets(bits: Seq<bool>, e: Endianness, m: nat) -> Seq<u8>
    decreases m,
{
    if m == 0 {
        Seq::empty()
    } else {
        words_octets(bits, e, (m - 1) as nat) + octets_of(
            e,
            bits_value(window_word(bits, m - 1)),
            4,
        )
    }
}

/// The octets of a window of sequence numbers: its base, the count of its
/// bits, and its bits in words of thirty-two.
pub open spec fn sequence_number_set_octets(
    base: SequenceNumber,
    bits: Seq<bool>,
    e: Endianness,
) -> Seq<u8> {
    sequence_number_octets(base, e) + octets_of(e, bits.len(), 4) + words_octets(
        bits,
        e,
        word_count(bits.len()),
    )
}

/// How many octets the window takes whose octets begin `octets`, if they
/// are the octets of a window.
pub open spec fn sequence_number_set_len(octets: Seq<u8>, e: Endianness) -> int {
    12 + 4 * (word_count(endian_value(e, octets.subrange(8, 12))) as int)
}

/// The window that octets begin with: its base and its bits.
///
/// Fails with `Eof` where the octets end before the window does, and with
/// `Malformed` where the window has more bits than a window holds or bits
/// for numbers that are no sequence numbers.
pub open spec fn sequence_number_set_of(octets: Seq<u8>, e: Endianness) -> Result<
    (SequenceNumber, Seq<bool>),
    crate::serialization::Error,
> {
    if octets.len() < 12 {
        Err(crate::serialization::Error::Eof)
    } else {
        let base = sequence_number_of(octets.subrange(0, 8), e);
        let n = endian_value(e, octets.subrange(8, 12));
        if n > SEQUENCE_NUMBER_SET_MAX_BITS || base.0 + n > i64::MAX + 1 {
            Err(crate::serialization::Error::Malformed)
        } else if octets.len() < 12 + 4 * word_count(n) {
            Err(crate::serialization::Error::Eof)
        } else {
            Ok(
                (
                    base,
                    Seq::new(
                        n,
                        |i: int|
                            word_bits(
                                endian_value(
                                    e,
                                    octets.subrange(12 + 4 * (i / 32), 16 + 4 * (i / 32)),
                                ),
                                32,
                            )[i % 32],
                    ),
                ),
            )
        }
    }
}

/// Where the words of a window stand among its octets.
pub proof fn lemma_words_octets(bits: Seq<bool>, e: Endianness, m: nat)
    ensures
        words_octets(bits, e, m).len() == 4 * m,
        forall|k: int|
            0 <= k < m ==> #[trigger] words_octets(bits, e, m).subrange(4 * k, 4 * k + 4)
                == octets_of(e, bits_value(window_word(bits, k)), 4),
    decreases m,
{
    if m > 0 {
        let head = words_octets(bits, e, (m - 1) as nat);
        let last = octets_of(e, bits_value(window_word(bits, m - 1)), 4);
        lemma_words_octets(bits, e, (m - 1) as nat);
        lemma_octets_of(e, bits_value(window_word(bits, m - 1)), 4);
        let all = words_octets(bits, e, m);
        assert forall|k: int| 0 <= k < m implies #[trigger] all.subrange(4 * k, 4 * k + 4)
            == octets_of(e, bits_value(window_word(bits, k)), 4) by {
            if k < m - 1 {
                assert(all.subrange(4 * k, 4 * k + 4) =~= head.subrange(4 * k, 4 * k + 4));
            } else {
                assert(all.subrange(4 * k, 4 * k + 4) =~= last);
            }
        }
    }
}

/// The octets of a window are twelve and four for each word of its bits.
pub proof fn lemma_sequence_number_set_len(base: SequenceNumber, bits: Seq<bool>, e: Endianness)
    ensures
        sequence_number_set_octets(base, bits, e).len() == 8 + 4 + 4 * word_count(bits.len()),
{
    lemma_sequence_number_round_trip(base, e);
    lemma_octets_of(e, bits.len(), 4);
    lemma_words_octets(bits, e, word_count(bits.len()));
}

/// The octets of a window, whatever follows them, spell the window.
pub proof fn lemma_sequence_number_set_round_trip(
    base: SequenceNumber,
    bits: Seq<bool>,
    e: Endianness,
    rest: Seq<u8>,
)
    requires
        bits.len() <= SEQUENCE_NUMBER_SET_MAX_BITS,
        base.0 + bits.len() <= i64::MAX + 1,
    ensures
        sequence_number_set_of(sequence_number_set_octets(base, bits, e) + rest, e) == Ok::<
            (SequenceNumber, Seq<bool>),
            crate::serialization::Error,
        >((base, bits)),
        sequence_number_set_len(sequence_number_set_octets(base, bits, e) + rest, e)
            == sequence_number_set_octets(base, bits, e).len(),
{
    let n = bits.len();
    let m = word_count(n);
    let own = sequence_number_set_octets(base, bits, e);
    let all = own + rest;
    let words = words_octets(bits, e, m);
    lemma_sequence_number_round_trip(base, e);
    lemma_octet_ranges();
    lemma_octets_of(e, n, 4);
    lemma_words_octets(bits, e, m);
    assert(all.subrange(0, 8) =~= sequence_number_octets(base, e));
    assert(all.subrange(8, 12) =~= octets_of(e, n, 4));
    let got = sequence_number_set_of(all, e)->Ok_0.1;
    assert forall|i: int| 0 <= i < n implies got[i] == bits[i] by {
        let k = i / 32;
        assert(0 <= k < m);
        assert(all.subrange(12 + 4 * k, 16 + 4 * k) =~= words.subrange(4 * k, 4 * k + 4));
        let word = window_word(bits, k);
        lemma_bits_round_trip(word);
        assert(two_to(32) == 0x1_0000_0000) by {
            reveal_with_fuel(two_to, 33);
        }
        lemma_octets_of(e, bits_value(word), 4);
        assert(word[i % 32] == bits[i]);
    }
    assert(got =~= bits);
}

/// The bits that spell `w`, most significant first.
fn word_to_bits(w: u32, count: usize) -> (bits: Vec<bool>)
    ensures
        bits@ == word_bits(w as nat, count as nat),
    decreases count,
{
    if count == 0 {
        Vec::new()
    } else {
        let mut bits = word_to_bits(w / 2, count - 1);
        bits.push(w % 2 == 1);
        bits
    }
}

/// Puts the octets of a window of sequence numbers behind `out`.
pub fn put_sequence_number_set(out: &mut Vec<u8>, set: &SequenceNumberSet, e: Endianness)
    requires
        set.wf(),
    ensures
        final(out)@ == old(out)@ + sequence_number_set_octets(
            SequenceNumber(set.spec_base() as i64),
            set.spec_bits(),
            e,
        ),
{
    let ghost bits = set.spec_bits();
    let n = set.num_bits();
    put_sequence_number(out, set.base(), e);
    put_uint(out, n as u64, 4, e);
    let ghost head = out@;
    let m = (n + 31) / 32;
    let mut k: usize = 0;
    assert(out@ =~= head + words_octets(bits, e, 0));
    while k < m
        invariant
            k <= m,
            m == word_count(n as nat),
            n == bits.len(),
            n <= SEQUENCE_NUMBER_SET_MAX_BITS,
            bits == set.spec_bits(),
            out@ == head + words_octets(bits, e, k as nat),
        decreases m - k,
    {
        let ghost word = window_word(bits, k as int);
        let mut w: u64 = 0;
        let mut j: usize = 0;
        assert(word.take(0) =~= Seq::<bool>::empty());
        assert(two_to(32) == 0x1_0000_0000) by {
            reveal_with_fuel(two_to, 33);
        }
        proof {
            lemma_two_to_grows(0, 32);
        }
        while j < 32
            invariant
                j <= 32,
                k < m,
                m == word_count(n as nat),
                n == bits.len(),
                n <= SEQUENCE_NUMBER_SET_MAX_BITS,
                bits == set.spec_bits(),
                word == window_word(bits, k as int),
                w == bits_value(word.take(j as int)),
                w < two_to(j as nat),
                two_to(j as nat) <= two_to(32),
                two_to(32) == 0x1_0000_0000,
            decreases 32 - j,
        {
            let index = 32 * k + j;
            let bit = index < n && set.bit(index);
            proof {
                let upto = word.take(j as int + 1);
                assert(upto.drop_last() =~= word.take(j as int));
                assert(upto.last() == word[j as int]);
                reveal_with_fuel(two_to, 2);
                lemma_two_to_grows((j + 1) as nat, 32);
            }
            w = w * 2 + if bit {
                1
            } else {
                0
            };
            j += 1;
        }
        assert(word.take(32) =~= word);
        put_uint(out, w, 4, e);
        assert(out@ =~= head + words_octets(bits, e, (k + 1) as nat));
        k += 1;
    }
    assert(out@ =~= old(out)@ + sequence_number_set_octets(
        SequenceNumber(set.spec_base() as i64),
        bits,
        e,
    ));
}

/// Greater powers of two are greater.
pub proof fn lemma_two_to_grows(a: nat, b: nat)
    requires
        a <= b,
    ensures
        0 < two_to(a) <= two_to(b),
    decreases b,
{
    if b > 0 {
        if a < b {
            lemma_two_to_grows(a, (b - 1) as nat);
        } else {
            lemma_two_to_grows((a - 1) as nat, (b - 1) as nat);
        }
    }
}

/// The window of sequence numbers that the octets of `buf` from `at` on
/// begin with, and the place behind it.
pub fn get_sequence_number_set(buf: &[u8], at: usize, e: Endianness) -> (r: Result<
    (SequenceNumberSet, usize),
    crate::serialization::Error,
>)
    requires
        at <= buf@.len(),
    ensures
        match r {
            Ok((set, next)) => {
                &&& sequence_number_set_of(buf@.subrange(at as int, buf@.len() as int), e) == Ok::<
                    (SequenceNumber, Seq<bool>),
                    crate::serialization::Error,
                >((SequenceNumber(set.spec_base() as i64), set.spec_bits()))
                &&& set.wf()
                &&& next == at + sequence_number_set_len(
                    buf@.subrange(at as int, buf@.len() as int),
                    e,
                )
                &&& next <= buf@.len()
            },
            Err(err) => sequence_number_set_of(buf@.subrange(at as int, buf@.len() as int), e)
                == Err::<(SequenceNumber, Seq<bool>), crate::serialization::Error>(err),
        },
{
    let len = buf.len();
    let ghost octets = buf@.subrange(at as int, len as int);
    if len - at < 12 {
        return Err(crate::serialization::Error::Eof);
    }
    let base = get_sequence_number(buf, at, e);
    let n = get_uint(buf, at + 8, 4, e);
    proof {
        lemma_octet_ranges();
        assert(octets.subrange(0, 8) =~= buf@.subrange(at as int, at + 8));
        assert(octets.subrange(8, 12) =~= buf@.subrange(at + 8, at + 12));
    }
    if n > SEQUENCE_NUMBER_SET_MAX_BITS as u64 || (base.0 as i128) + (n as i128) > (
    i64::MAX as i128) + 1 {
        return Err(crate::serialization::Error::Malformed);
    }
    let n = n as usize;
    let m = (n + 31) / 32;
    if len - at - 12 < 4 * m {
        return Err(crate::serialization::Error::Eof);
    }
    let ghost want = sequence_number_set_of(octets, e)->Ok_0.1;
    let mut bits: Vec<bool> = Vec::new();
    let mut k: usize = 0;
    while k < m
        invariant
            k <= m,
            m == word_count(n as nat),
            n <= SEQUENCE_NUMBER_SET_MAX_BITS,
            len == buf@.len(),
            at + 12 + 4 * m <= len,
            octets == buf@.subrange(at as int, len as int),
            want.len() == n,
            want == sequence_number_set_of(octets, e)->Ok_0.1,
            sequence_number_set_of(octets, e) is Ok,
            sequence_number_set_of(octets, e)->Ok_0.0 == base,
            bits@.len() == if 32 * k < n {
                32 * k
            } else {
                n as int
            },
            forall|i: int| 0 <= i < bits@.len() ==> bits@[i] == want[i],
        decreases m - k,
    {
        let w = get_uint(buf, at + 12 + 4 * k, 4, e);
        proof {
            lemma_octet_ranges();
            assert(octets.subrange(12 + 4 * k, 16 + 4 * k) =~= buf@.subrange(
                at + 12 + 4 * k,
                at + 12 + 4 * k + 4,
            ));
            lemma_word_bits_len(w as nat, 32);
        }
        let word = word_to_bits(w as u32, 32);
        let mut j: usize = 0;
        while j < 32 && 32 * k + j < n
            invariant
                j <= 32,
                k < m,
                n <= SEQUENCE_NUMBER_SET_MAX_BITS,
                word@ == word_bits(w as nat, 32),
                word@.len() == 32,
                w as nat == endian_value(e, octets.subrange(12 + 4 * k, 16 + 4 * k)),
                want.len() == n,
                want == sequence_number_set_of(octets, e)->Ok_0.1,
                sequence_number_set_of(octets, e) is Ok,
                bits@.len() == 32 * k + j,
                32 * k + j <= n,
                forall|i: int| 0 <= i < bits@.len() ==> bits@[i] == want[i],
            decreases 32 - j,
        {
            let ghost i = 32 * k + j;
            assert(i / 32 == k && i % 32 == j);
            bits.push(word[j]);
            j += 1;
        }
        k += 1;
    }
    assert(bits@ =~= want);
    match SequenceNumberSet::from_bits(base, bits) {
        Some(set) => Ok((set, at + 12 + 4 * m)),
        None => Err(crate::serialization::Error::Malformed),
    }
}

/// The twenty-four octets of a locator: its kind, its port and its address.
pub open spec fn locator_octets(l: Locator, e: Endianness) -> Seq<u8> {
    octets_of(e, unsigned_32(l.kind as int), 4) + octets_of(e, l.port as nat, 4) + l.address@
}

/// The locator that twenty-four octets spell.
pub open spec fn locator_of(octets: Seq<u8>, e: Endianness) -> Locator {
    choose|l: Locator|
        l.kind == signed_32(endian_value(e, octets.subrange(0, 4))) && l.port == endian_value(
            e,
            octets.subrange(4, 8),
        ) && l.address@ == octets.subrange(8, 24)
}

/// Twenty-four octets spell the locator whose octets they are.
pub proof fn lemma_locator_round_trip(l: Locator, e: Endianness)
    ensures
        locator_octets(l, e).len() == 24,
        locator_of(locator_octets(l, e), e) == l,
{
    let octets = locator_octets(l, e);
    lemma_octet_ranges();
    lemma_octets_of(e, unsigned_32(l.kind as int), 4);
    lemma_octets_of(e, l.port as nat, 4);
    assert(octets.subrange(0, 4) =~= octets_of(e, unsigned_32(l.kind as int), 4));
    assert(octets.subrange(4, 8) =~= octets_of(e, l.port as nat, 4));
    assert(octets.subrange(8, 24) =~= l.address@);
    let q = locator_of(octets, e);
    assert(q.address =~= l.address);
}

/// Puts the twenty-four octets of a locator behind `out`.
pub fn put_locator(out: &mut Vec<u8>, l: &Locator, e: Endianness)
    ensures
        final(out)@ == old(out)@ + locator_octets(*l, e),
{
    put_uint(out, i32_to_wire(l.kind) as u64, 4, e);
    put_uint(out, l.port as u64, 4, e);
    let ghost head = out@;
    let mut i: usize = 0;
    while i < 16
        invariant
            i <= 16,
            out@ == head + l.address@.take(i as int),
        decreases 16 - i,
    {
        out.push(l.address[i]);
        assert(out@ =~= head + l.address@.take(i as int + 1));
        i += 1;
    }
    assert(l.address@.take(16) =~= l.address@);
    assert(out@ =~= old(out)@ + locator_octets(*l, e));
}

/// The locator that the twenty-four octets of `buf` from `at` on spell.
pub fn get_locator(buf: &[u8], at: usize, e: Endianness) -> (l: Locator)
    requires
        at + 24 <= buf@.len(),
    ensures
        l == locator_of(buf@.subrange(at as int, at + 24), e),
{
    let len = buf.len();
    let kind = get_uint(buf, at, 4, e);
    let port = get_uint(buf, at + 4, 4, e);
    let mut address: [u8; 16] = [0u8, 0, 0, 0, 0, 0, 0, 0, 0, 0, 0, 0, 0, 0, 0, 0];
    let mut i: usize = 0;
    while i < 16
        invariant
            i <= 16,
            at + 24 <= buf@.len(),
            len == buf@.len(),
            forall|j: int| 0 <= j < i ==> address@[j] == buf@[at + 8 + j],
        decreases 16 - i,
    {
        address[i] = buf[at + 8 + i];
        i += 1;
    }
    proof {
        lemma_octet_ranges();
    }
    let l = Locator { kind: i32_from_wire(kind as u32), port: port as u32, address };
    proof {
        let octets = buf@.subrange(at as int, at + 24);
        assert(octets.subrange(0, 4) =~= buf@.subrange(at as int, at + 4));
        assert(octets.subrange(4, 8) =~= buf@.subrange(at + 4, at + 8));
        assert(l.address@ =~= octets.subrange(8, 24));
        let q = locator_of(octets, e);
        assert(q.address =~= l.address);
    }
    l
}

/// The octets of the first `n` locators of a list.
pub open spec fn locators_octets(list: Seq<Locator>, e: Endianness, n: nat) -> Seq<u8>
    decreases n,
{
    if n == 0 {
        Seq::empty()
    } else {
        locators_octets(list, e, (n - 1) as nat) + locator_octets(list[n - 1], e)
    }
}

/// The octets of a list of locators: their count, and each of them.
pub open spec fn locator_list_octets(list: Seq<Locator>, e: Endianness) -> Seq<u8> {
    octets_of(e, list.len(), 4) + locators_octets(list, e, list.len())
}

/// How many octets the list of locators takes that `octets` begin with.
pub open spec fn locator_list_len(octets: Seq<u8>, e: Endianness) -> int {
    4 + 24 * (endian_value(e, octets.subrange(0, 4)) as int)
}

/// The list of locators that octets begin with.
///
/// Fails with `Eof` where the octets end before the list does.
pub open spec fn locator_list_of(octets: Seq<u8>, e: Endianness) -> Result<
    Seq<Locator>,
    crate::serialization::Error,
> {
    if octets.len() < 4 || octets.len() < locator_list_len(octets, e) {
        Err(crate::serialization::Error::Eof)
    } else {
        Ok(
            Seq::new(
                endian_value(e, octets.subrange(0, 4)),
                |i: int| locator_of(octets.subrange(4 + 24 * i, 28 + 24 * i), e),
            ),
        )
    }
}

/// Where the locators of a list stand among its octets.
pub proof fn lemma_locators_octets(list: Seq<Locator>, e: Endianness, n: nat)
    requires
        n <= list.len(),
    ensures
        locators_octets(list, e, n).len() == 24 * n,
        forall|k: int|
            0 <= k < n ==> #[trigger] locators_octets(list, e, n).subrange(24 * k, 24 * k + 24)
                == locator_octets(list[k], e),
    decreases n,
{
    if n > 0 {
        let head = locators_octets(list, e, (n - 1) as nat);
        let last = locator_octets(list[n - 1], e);
        lemma_locators_octets(list, e, (n - 1) as nat);
        lemma_locator_round_trip(list[n - 1], e);
        let all = locators_octets(list, e, n);
        assert forall|k: int| 0 <= k < n implies #[trigger] all.subrange(24 * k, 24 * k + 24)
            == locator_octets(list[k], e) by {
            if k < n - 1 {
                assert(all.subrange(24 * k, 24 * k + 24) =~= head.subrange(24 * k, 24 * k + 24));
            } else {
                assert(all.subrange(24 * k, 24 * k + 24) =~= last);
            }
        }
    }
}

/// The octets of a list of locators, whatever follows them, spell the list.
pub proof fn lemma_locator_list_round_trip(list: Seq<Locator>, e: Endianness, rest: Seq<u8>)
    requires
        list.len() <= u32::MAX,
    ensures
        locator_list_octets(list, e).len() == 4 + 24 * list.len(),
        locator_list_of(locator_list_octets(list, e) + rest, e) == Ok::<
            Seq<Locator>,
            crate::serialization::Error,
        >(list),
        locator_list_len(locator_list_octets(list, e) + rest, e) == locator_list_octets(
            list,
            e,
        ).len(),
{
    let n = list.len();
    let own = locator_list_octets(list, e);
    let all = own + rest;
    let body = locators_octets(list, e, n);
    lemma_octet_ranges();
    lemma_octets_of(e, n, 4);
    lemma_locators_octets(list, e, n);
    assert(all.subrange(0, 4) =~= octets_of(e, n, 4));
    let got = locator_list_of(all, e)->Ok_0;
    assert forall|i: int| 0 <= i < n implies got[i] == list[i] by {
        assert(all.subrange(4 + 24 * i, 28 + 24 * i) =~= body.subrange(24 * i, 24 * i + 24));
        lemma_locator_round_trip(list[i], e);
    }
    assert(got =~= list);
}

/// Puts the octets of a list of locators behind `out`.
pub fn put_locator_list(out: &mut Vec<u8>, list: &Vec<Locator>, e: Endianness)
    ensures
        final(out)@ == old(out)@ + locator_list_octets(list@, e),
{
    let n = list.len();
    put_uint(out, n as u64, 4, e);
    let ghost head = out@;
    let mut i: usize = 0;
    assert(out@ =~= head + locators_octets(list@, e, 0));
    while i < n
        invariant
            n == list@.len(),
            i <= n,
            out@ == head + locators_octets(list@, e, i as nat),
        decreases n - i,
    {
        put_locator(out, &list[i], e);
        assert(out@ =~= head + locators_octets(list@, e, (i + 1) as nat));
        i += 1;
    }
    assert(out@ =~= old(out)@ + locator_list_octets(list@, e));
}

/// The list of locators that the octets of `buf` from `at` on begin with,
/// and the place behind it.
pub fn get_locator_list(buf: &[u8], at: usize, e: Endianness) -> (r: Result<
    (Vec<Locator>, usize),
    crate::serialization::Error,
>)
    requires
        at <= buf@.len(),
    ensures
        match r {
            Ok((list, next)) => {
                &&& locator_list_of(buf@.subrange(at as int, buf@.len() as int), e) == Ok::<
                    Seq<Locator>,
                    crate::serialization::Error,
                >(list@)
                &&& next == at + locator_list_len(buf@.subrange(at as int, buf@.len() as int), e)
                &&& next <= buf@.len()
            },
            Err(err) => locator_list_of(buf@.subrange(at as int, buf@.len() as int), e) == Err::<
                Seq<Locator>,
                crate::serialization::Error,
            >(err),
        },
{
    let len = buf.len();
    let ghost octets = buf@.subrange(at as int, len as int);
    if len - at < 4 {
        return Err(crate::serialization::Error::Eof);
    }
    let n = get_uint(buf, at, 4, e);
    proof {
        lemma_octet_ranges();
        assert(octets.subrange(0, 4) =~= buf@.subrange(at as int, at + 4));
    }
    if (((len - at - 4) / 24) as u64) < n {
        return Err(crate::serialization::Error::Eof);
    }
    let n = n as usize;
    let ghost want = locator_list_of(octets, e)->Ok_0;
    let mut list: Vec<Locator> = Vec::new();
    let mut i: usize = 0;
    while i < n
        invariant
            i <= n,
            len == buf@.len(),
            at + 4 + 24 * n <= len,
            octets == buf@.subrange(at as int, len as int),
            locator_list_of(octets, e) is Ok,
            want == locator_list_of(octets, e)->Ok_0,
            want.len() == n,
            list@.len() == i,
            forall|k: int| 0 <= k < i ==> list@[k] == want[k],
        decreases n - i,
    {
        let l = get_locator(buf, at + 4 + 24 * i, e);
        proof {
            assert(octets.subrange(4 + 24 * i, 28 + 24 * i) =~= buf@.subrange(
                at + 4 + 24 * i,
                at + 4 + 24 * i + 24,
            ));
        }
        list.push(l);
        i += 1;
    }
    assert(list@ =~= want);
    Ok((list, at + 4 + 24 * n))
}

} // verus!
