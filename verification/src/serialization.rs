//! Byte order, integers on the wire, and the errors of decoding.

use byteorder::{BigEndian, ByteOrder, LittleEndian};
use vstd::prelude::*;
use vstd::utf8::{decode_utf8, valid_utf8};

verus! {

/// The byte order of a wire form.
#[derive(Debug, Clone, Copy, PartialEq, Eq, Structural)]
pub enum Endianness {
    BigEndian,
    LittleEndian,
}

/// Why a wire form could not be decoded.
#[derive(Debug, Clone, Copy, PartialEq, Eq, Structural)]
pub enum Error {
    /// The input ended before a fixed-size integer was complete.
    IOError,
    /// The input ended before the value was complete.
    Eof,
    /// A flag octet holds a bit that names no flag.
    InvalidFlags(u8),
    /// The representation identifier names no CDR encoding.
    UnknownRepresentation,
    /// The octets of a text are no text.
    InvalidText,
    /// A sequence has more elements than its length field can say.
    SequenceTooLong,
    /// A datagram does not begin as a message of this protocol does.
    BadMagic,
    /// A field holds what the protocol does not allow there.
    Malformed,
    /// A submessage of a kind that is not known and may not be passed over.
    UnknownSubmessage(u8),
}

/// The number that the octets `s` spell, most significant octet first.
pub open spec fn big_endian_value(s: Seq<u8>) -> nat
    decreases s.len(),
{
    if s.len() == 0 {
        0
    } else {
        big_endian_value(s.drop_last()) * 256 + s.last() as nat
    }
}

/// The number that the octets `s` spell, least significant octet first.
pub open spec fn little_endian_value(s: Seq<u8>) -> nat
    decreases s.len(),
{
    if s.len() == 0 {
        0
    } else {
        s[0] as nat + 256 * little_endian_value(s.skip(1))
    }
}

/// The number that the octets `s` spell in the given byte order.
pub open spec fn endian_value(e: Endianness, s: Seq<u8>) -> nat {
    match e {
        Endianness::BigEndian => big_endian_value(s),
        Endianness::LittleEndian => little_endian_value(s),
    }
}

/// 256 to the power `n`: the number of values that `n` octets can spell.
pub open spec fn octet_range(n: nat) -> nat
    decreases n,
{
    if n == 0 {
        1
    } else {
        256 * octet_range((n - 1) as nat)
    }
}

/// `byteorder::BigEndian::read_u128`: the first sixteen octets of `buf`, read
/// most significant first. The function panics on a shorter buffer, which
/// the precondition leaves out.
#[verifier::external_body]
pub(crate) fn read_u128_be(buf: &[u8]) -> (r: u128)
    requires
        buf@.len() >= 16,
    ensures
        r as nat == big_endian_value(buf@.subrange(0, 16)),
{
    BigEndian::read_u128(buf)
}

/// `byteorder::LittleEndian::read_u128`: the first sixteen octets of `buf`,
/// read least significant first. The function panics on a shorter buffer,
/// which the precondition leaves out.
#[verifier::external_body]
pub(crate) fn read_u128_le(buf: &[u8]) -> (r: u128)
    requires
        buf@.len() >= 16,
    ensures
        r as nat == little_endian_value(buf@.subrange(0, 16)),
{
    LittleEndian::read_u128(buf)
}

/// `byteorder::BigEndian::write_u128` into a fresh buffer of sixteen octets:
/// they spell `n`, most significant first.
#[verifier::external_body]
pub(crate) fn write_u128_be(n: u128) -> (out: Vec<u8>)
    ensures
        out@.len() == 16,
        big_endian_value(out@) == n as nat,
{
    let mut buf = vec![0u8; 16];
    BigEndian::write_u128(&mut buf, n);
    buf
}

/// `byteorder::LittleEndian::write_u128` into a fresh buffer of sixteen
/// octets: they spell `n`, least significant first.
#[verifier::external_body]
pub(crate) fn write_u128_le(n: u128) -> (out: Vec<u8>)
    ensures
        out@.len() == 16,
        little_endian_value(out@) == n as nat,
{
    let mut buf = vec![0u8; 16];
    LittleEndian::write_u128(&mut buf, n);
    buf
}

/// `n` octets spell a number below 256 to the power `n`.
pub proof fn lemma_big_endian_bound(s: Seq<u8>)
    ensures
        big_endian_value(s) < octet_range(s.len()),
    decreases s.len(),
{
    if s.len() > 0 {
        lemma_big_endian_bound(s.drop_last());
    }
}

/// `n` octets spell a number below 256 to the power `n`.
pub proof fn lemma_little_endian_bound(s: Seq<u8>)
    ensures
        little_endian_value(s) < octet_range(s.len()),
    decreases s.len(),
{
    if s.len() > 0 {
        lemma_little_endian_bound(s.skip(1));
    }
}

/// Two octet strings of one length that spell the same number, most
/// significant octet first, are the same string.
pub proof fn lemma_big_endian_injective(a: Seq<u8>, b: Seq<u8>)
    requires
        a.len() == b.len(),
        big_endian_value(a) == big_endian_value(b),
    ensures
        a == b,
    decreases a.len(),
{
    if a.len() > 0 {
        let x = big_endian_value(a.drop_last());
        let y = big_endian_value(b.drop_last());
        assert(x * 256 + a.last() as nat == y * 256 + b.last() as nat);
        assert(x == y && a.last() == b.last());
        lemma_big_endian_injective(a.drop_last(), b.drop_last());
        assert(a =~= a.drop_last().push(a.last()));
        assert(b =~= b.drop_last().push(b.last()));
    } else {
        assert(a =~= b);
    }
}

/// Two octet strings of one length that spell the same number, least
/// significant octet first, are the same string.
pub proof fn lemma_little_endian_injective(a: Seq<u8>, b: Seq<u8>)
    requires
        a.len() == b.len(),
        little_endian_value(a) == little_endian_value(b),
    ensures
        a == b,
    decreases a.len(),
{
    if a.len() > 0 {
        let x = little_endian_value(a.skip(1));
        let y = little_endian_value(b.skip(1));
        assert(a[0] as nat + 256 * x == b[0] as nat + 256 * y);
        assert(x == y && a[0] == b[0]);
        lemma_little_endian_injective(a.skip(1), b.skip(1));
        assert(a =~= seq![a[0]] + a.skip(1));
        assert(b =~= seq![b[0]] + b.skip(1));
    } else {
        assert(a =~= b);
    }
}

/// The `width` octets that spell `n`, most significant first.
pub open spec fn big_endian_octets(n: nat, width: nat) -> Seq<u8>
    decreases width,
{
    if width == 0 {
        Seq::empty()
    } else {
        big_endian_octets(n / 256, (width - 1) as nat).push((n % 256) as u8)
    }
}

/// The `width` octets that spell `n`, least significant first.
pub open spec fn little_endian_octets(n: nat, width: nat) -> Seq<u8>
    decreases width,
{
    if width == 0 {
        Seq::empty()
    } else {
        seq![(n % 256) as u8] + little_endian_octets(n / 256, (width - 1) as nat)
    }
}

/// The `width` octets that spell `n` in the given byte order.
pub open spec fn octets_of(e: Endianness, n: nat, width: nat) -> Seq<u8> {
    match e {
        Endianness::BigEndian => big_endian_octets(n, width),
        Endianness::LittleEndian => little_endian_octets(n, width),
    }
}

/// The octets that spell a number are as many as asked for, and where the
/// number fits into them they spell it.
pub proof fn lemma_octets_of(e: Endianness, n: nat, width: nat)
    ensures
        octets_of(e, n, width).len() == width,
        n < octet_range(width) ==> endian_value(e, octets_of(e, n, width)) == n,
    decreases width,
{
    if width > 0 {
        let rest = (width - 1) as nat;
        lemma_octets_of(e, n / 256, rest);
        match e {
            Endianness::BigEndian => {
                let s = big_endian_octets(n, width);
                assert(s.drop_last() =~= big_endian_octets(n / 256, rest));
            },
            Endianness::LittleEndian => {
                let s = little_endian_octets(n, width);
                assert(s.skip(1) =~= little_endian_octets(n / 256, rest));
            },
        }
    }
}

/// Octets are the octets that spell the number they spell.
pub proof fn lemma_octets_of_value(e: Endianness, s: Seq<u8>)
    ensures
        octets_of(e, endian_value(e, s), s.len()) == s,
{
    let n = endian_value(e, s);
    match e {
        Endianness::BigEndian => lemma_big_endian_bound(s),
        Endianness::LittleEndian => lemma_little_endian_bound(s),
    }
    lemma_octets_of(e, n, s.len());
    match e {
        Endianness::BigEndian => lemma_big_endian_injective(octets_of(e, n, s.len()), s),
        Endianness::LittleEndian => lemma_little_endian_injective(octets_of(e, n, s.len()), s),
    }
}

/// How many values one, two, four and eight octets can spell.
pub proof fn lemma_octet_ranges()
    ensures
        octet_range(0) == 1,
        octet_range(1) == 0x100,
        octet_range(2) == 0x1_0000,
        octet_range(4) == 0x1_0000_0000,
        octet_range(8) == 0x1_0000_0000_0000_0000,
{
    reveal_with_fuel(octet_range, 9);
}

/// More octets can spell more values.
pub proof fn lemma_octet_range_grows(a: nat, b: nat)
    requires
        a <= b,
    ensures
        0 < octet_range(a) <= octet_range(b),
    decreases b,
{
    if b > 0 {
        if a < b {
            lemma_octet_range_grows(a, (b - 1) as nat);
        } else {
            lemma_octet_range_grows((a - 1) as nat, (b - 1) as nat);
        }
    }
}

/// Puts the `width` octets that spell `n`, most significant first, behind
/// `out`.
fn put_big_endian(out: &mut Vec<u8>, n: u64, width: usize)
    ensures
        final(out)@ == old(out)@ + big_endian_octets(n as nat, width as nat),
    decreases width,
{
    if width > 0 {
        put_big_endian(out, n / 256, width - 1);
        out.push((n % 256) as u8);
        assert(out@ =~= old(out)@ + big_endian_octets(n as nat, width as nat));
    } else {
        assert(out@ =~= old(out)@ + big_endian_octets(n as nat, width as nat));
    }
}

/// Puts the `width` octets that spell `n`, least significant first, behind
/// `out`.
fn put_little_endian(out: &mut Vec<u8>, n: u64, width: usize)
    ensures
        final(out)@ == old(out)@ + little_endian_octets(n as nat, width as nat),
    decreases width,
{
    if width > 0 {
        out.push((n % 256) as u8);
        put_little_endian(out, n / 256, width - 1);
        assert(out@ =~= old(out)@ + little_endian_octets(n as nat, width as nat));
    } else {
        assert(out@ =~= old(out)@ + little_endian_octets(n as nat, width as nat));
    }
}

/// Puts the `width` octets that spell `n` in the given byte order behind
/// `out`.
pub fn put_uint(out: &mut Vec<u8>, n: u64, width: usize, e: Endianness)
    ensures
        final(out)@ == old(out)@ + octets_of(e, n as nat, width as nat),
{
    match e {
        Endianness::BigEndian => put_big_endian(out, n, width),
        Endianness::LittleEndian => put_little_endian(out, n, width),
    }
}

/// The number that the `width` octets of `buf` from `at` on spell, most
/// significant first.
fn get_big_endian(buf: &[u8], at: usize, width: usize) -> (n: u64)
    requires
        at + width <= buf@.len(),
        width <= 8,
    ensures
        n as nat == big_endian_value(buf@.subrange(at as int, at + width)),
    decreases width,
{
    if width == 0 {
        0
    } else {
        let len = buf.len();
        let head = get_big_endian(buf, at, width - 1);
        let last = buf[at + (width - 1)];
        proof {
            let s = buf@.subrange(at as int, at + width);
            assert(s.drop_last() =~= buf@.subrange(at as int, at + width - 1));
            lemma_big_endian_bound(s.drop_last());
            lemma_octet_range_grows((width - 1) as nat, 7);
            lemma_octet_ranges();
            reveal_with_fuel(octet_range, 8);
        }
        head * 256 + (last as u64)
    }
}

/// The number that the `width` octets of `buf` from `at` on spell, least
/// significant first.
fn get_little_endian(buf: &[u8], at: usize, width: usize) -> (n: u64)
    requires
        at + width <= buf@.len(),
        width <= 8,
    ensures
        n as nat == little_endian_value(buf@.subrange(at as int, at + width)),
    decreases width,
{
    if width == 0 {
        0
    } else {
        let len = buf.len();
        let first = buf[at];
        let rest = get_little_endian(buf, at + 1, width - 1);
        proof {
            let s = buf@.subrange(at as int, at + width);
            assert(s.skip(1) =~= buf@.subrange(at + 1, at + width));
            lemma_little_endian_bound(s.skip(1));
            lemma_octet_range_grows((width - 1) as nat, 7);
            lemma_octet_ranges();
            reveal_with_fuel(octet_range, 8);
        }
        (first as u64) + 256 * rest
    }
}

/// The number that the `width` octets of `buf` from `at` on spell in the
/// given byte order.
pub fn get_uint(buf: &[u8], at: usize, width: usize, e: Endianness) -> (n: u64)
    requires
        at + width <= buf@.len(),
        width <= 8,
    ensures
        n as nat == endian_value(e, buf@.subrange(at as int, at + width)),
        (n as nat) < octet_range(width as nat),
{
    proof {
        match e {
            Endianness::BigEndian => lemma_big_endian_bound(
                buf@.subrange(at as int, at + width),
            ),
            Endianness::LittleEndian => lemma_little_endian_bound(
                buf@.subrange(at as int, at + width),
            ),
        }
    }
    match e {
        Endianness::BigEndian => get_big_endian(buf, at, width),
        Endianness::LittleEndian => get_little_endian(buf, at, width),
    }
}

/// The number that a signed 32-bit number is on the wire: itself, or itself
/// and 2^32 where it is negative.
pub open spec fn unsigned_32(n: int) -> nat {
    if n >= 0 {
        n as nat
    } else {
        (n + 0x1_0000_0000) as nat
    }
}

/// The signed 32-bit number that a number on the wire stands for.
pub open spec fn signed_32(n: nat) -> int {
    if n < 0x8000_0000 {
        n as int
    } else {
        n - 0x1_0000_0000
    }
}

/// The number that a signed 64-bit number is on the wire: itself, or itself
/// and 2^64 where it is negative.
pub open spec fn unsigned_64(n: int) -> nat {
    if n >= 0 {
        n as nat
    } else {
        (n + 0x1_0000_0000_0000_0000) as nat
    }
}

/// The signed 64-bit number that a number on the wire stands for.
pub open spec fn signed_64(n: nat) -> int {
    if n < 0x8000_0000_0000_0000 {
        n as int
    } else {
        n - 0x1_0000_0000_0000_0000
    }
}

/// The number that a signed 32-bit number is on the wire.
pub fn i32_to_wire(n: i32) -> (u: u32)
    ensures
        u == unsigned_32(n as int),
        signed_32(u as nat) == n,
{
    if n >= 0 {
        n as u32
    } else {
        ((n as i64) + 0x1_0000_0000) as u32
    }
}

/// The signed 32-bit number that a number on the wire stands for.
pub fn i32_from_wire(u: u32) -> (n: i32)
    ensures
        n == signed_32(u as nat),
        unsigned_32(n as int) == u,
{
    if u < 0x8000_0000 {
        u as i32
    } else {
        ((u as i64) - 0x1_0000_0000) as i32
    }
}

/// The number that a signed 64-bit number is on the wire.
pub fn i64_to_wire(n: i64) -> (u: u64)
    ensures
        u == unsigned_64(n as int),
        signed_64(u as nat) == n,
{
    if n >= 0 {
        n as u64
    } else {
        ((n as i128) + 0x1_0000_0000_0000_0000) as u64
    }
}

/// The signed 64-bit number that a number on the wire stands for.
pub fn i64_from_wire(u: u64) -> (n: i64)
    ensures
        n == signed_64(u as nat),
        unsigned_64(n as int) == u,
{
    if u < 0x8000_0000_0000_0000 {
        u as i64
    } else {
        ((u as i128) - 0x1_0000_0000_0000_0000) as i64
    }
}

/// The text that octets spell in UTF-8, if they spell one.
pub uninterp spec fn utf8_text(octets: Seq<u8>) -> Option<String>;

/// `String::from_utf8`: the text that the octets spell where they are valid
/// UTF-8, whose characters are those that the octets decode to, and `None`
/// where they are not.
#[verifier::external_body]
pub(crate) fn string_from_utf8(octets: Vec<u8>) -> (r: Option<String>)
    ensures
        r == utf8_text(octets@),
        r is Some <==> valid_utf8(octets@),
        r is Some ==> r->0@ == decode_utf8(octets@),
{
    String::from_utf8(octets).ok()
}

} // verus!
