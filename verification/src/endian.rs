//! 64-bit integers as eight bytes, in either byte order.
//!
//! The file formats of this library store integers in the byte order of the
//! host that wrote them. The codec therefore takes the order as a value:
//! everything is proved for both orders, and [`ByteOrder::native`] tells which
//! one the running host uses.

use vstd::bytes::{
    lemma_auto_spec_u64_to_from_le_bytes, spec_u64_from_le_bytes, spec_u64_to_le_bytes,
    spec_u64_to_le_bytes_to_open, u64_from_le_bytes,
};
use vstd::prelude::*;
use vstd::slice::slice_subrange;

verus! {

/// The order in which the bytes of an integer are laid out.
#[derive(Clone, Copy, Debug, PartialEq, Eq, Structural)]
pub enum ByteOrder {
    /// Least significant byte first.
    LittleEndian,
    /// Most significant byte first.
    BigEndian,
}

/// The eight bytes that stand for `x` in the given order.
pub open spec fn encode_u64(x: u64, order: ByteOrder) -> Seq<u8> {
    match order {
        ByteOrder::LittleEndian => spec_u64_to_le_bytes(x),
        ByteOrder::BigEndian => spec_u64_to_le_bytes(x).reverse(),
    }
}

/// The integer that the eight bytes `bytes` stand for in the given order.
pub open spec fn decode_u64(bytes: Seq<u8>, order: ByteOrder) -> u64
    recommends
        bytes.len() == 8,
{
    match order {
        ByteOrder::LittleEndian => spec_u64_from_le_bytes(bytes),
        ByteOrder::BigEndian => spec_u64_from_le_bytes(bytes.reverse()),
    }
}

/// Reversing a sequence twice gives it back.
pub proof fn lemma_reverse_twice(s: Seq<u8>)
    ensures
        s.reverse().reverse() == s,
{
}

/// Encoding yields eight bytes, and decoding them yields the integer again.
pub proof fn lemma_decode_encode(x: u64, order: ByteOrder)
    ensures
        encode_u64(x, order).len() == 8,
        decode_u64(encode_u64(x, order), order) == x,
{
    lemma_auto_spec_u64_to_from_le_bytes();
    lemma_reverse_twice(spec_u64_to_le_bytes(x));
}

/// The two bytes that stand for `x` in the given order.
pub open spec fn u16_bytes(x: u16, order: ByteOrder) -> Seq<u8> {
    match order {
        ByteOrder::LittleEndian => seq![(x & 0xff) as u8, (x >> 8) as u8],
        ByteOrder::BigEndian => seq![(x >> 8) as u8, (x & 0xff) as u8],
    }
}

/// The byte order that two bytes show, if they are the bytes of the integer
/// one: least significant byte first if the one stands first, else most
/// significant byte first.
pub open spec fn order_of_probe(probe: Seq<u8>) -> ByteOrder {
    if probe[0] == 1 {
        ByteOrder::LittleEndian
    } else {
        ByteOrder::BigEndian
    }
}

/// Calls `u16::to_ne_bytes`. The result is the two bytes of the value in the
/// order of the host: least significant byte first, or most significant byte
/// first. Which of the two depends on the machine, so the contract leaves it
/// open.
#[verifier::external_body]
fn native_bytes(x: u16) -> (bytes: [u8; 2])
    ensures
        bytes@ == u16_bytes(x, ByteOrder::LittleEndian) || bytes@ == u16_bytes(
            x,
            ByteOrder::BigEndian,
        ),
{
    x.to_ne_bytes()
}

impl ByteOrder {
    /// The byte order under which the integer one is laid out as `probe`.
    pub fn from_probe(probe: [u8; 2]) -> (order: ByteOrder)
        ensures
            order == order_of_probe(probe@),
            probe@ == u16_bytes(1, ByteOrder::LittleEndian) ==> order == ByteOrder::LittleEndian,
            probe@ == u16_bytes(1, ByteOrder::BigEndian) ==> order == ByteOrder::BigEndian,
    {
        assert(1u16 & 0xff == 1 && 1u16 >> 8 == 0) by (bit_vector);
        if probe[0] == 1 {
            ByteOrder::LittleEndian
        } else {
            ByteOrder::BigEndian
        }
    }

    /// The byte order of the host this runs on, found by looking at how the
    /// host lays out the integer one. Which order that is depends on the
    /// machine.
    pub fn native() -> (order: ByteOrder) {
        ByteOrder::from_probe(native_bytes(1))
    }
}

fn low_byte(x: u64, shift: u64) -> (b: u8)
    requires
        shift < 64,
    ensures
        b == ((x >> shift) & 0xff) as u8,
{
    let masked: u64 = (x >> shift) & 0xff;
    assert(masked < 256) by (bit_vector)
        requires
            masked == (x >> shift) & 0xff,
    ;
    masked as u8
}

/// Appends the eight bytes of `x` in the given order to `out`.
pub fn push_u64(out: &mut Vec<u8>, x: u64, order: ByteOrder)
    ensures
        final(out)@ == old(out)@ + encode_u64(x, order),
{
    proof {
        spec_u64_to_le_bytes_to_open(x);
    }
    let b0 = low_byte(x, 0);
    let b1 = low_byte(x, 8);
    let b2 = low_byte(x, 16);
    let b3 = low_byte(x, 24);
    let b4 = low_byte(x, 32);
    let b5 = low_byte(x, 40);
    let b6 = low_byte(x, 48);
    let b7 = low_byte(x, 56);
    assert(x >> 0 == x) by (bit_vector);
    match order {
        ByteOrder::LittleEndian => {
            out.push(b0);
            out.push(b1);
            out.push(b2);
            out.push(b3);
            out.push(b4);
            out.push(b5);
            out.push(b6);
            out.push(b7);
        },
        ByteOrder::BigEndian => {
            out.push(b7);
            out.push(b6);
            out.push(b5);
            out.push(b4);
            out.push(b3);
            out.push(b2);
            out.push(b1);
            out.push(b0);
        },
    }
}

/// A length as the 64-bit integer that the file formats store.
pub fn length_as_u64(n: usize) -> (x: u64)
    ensures
        x == n,
{
    n as u64
}

/// Appends `bytes` to `out`.
pub fn push_bytes(out: &mut Vec<u8>, bytes: &[u8])
    ensures
        final(out)@ == old(out)@ + bytes@,
{
    out.extend_from_slice(bytes);
}

/// Reads the integer that the eight bytes of `bytes` from position `at` on
/// stand for in the given order.
pub fn read_u64(bytes: &[u8], at: usize, order: ByteOrder) -> (x: u64)
    requires
        at + 8 <= bytes.len(),
    ensures
        x == decode_u64(bytes@.subrange(at as int, at + 8), order),
{
    let word = slice_subrange(bytes, at, at + 8);
    match order {
        ByteOrder::LittleEndian => u64_from_le_bytes(word),
        ByteOrder::BigEndian => {
            let turned: [u8; 8] = [
                word[7],
                word[6],
                word[5],
                word[4],
                word[3],
                word[2],
                word[1],
                word[0],
            ];
            assert(turned@ =~= word@.reverse());
            u64_from_le_bytes(turned.as_slice())
        },
    }
}

} // verus!
