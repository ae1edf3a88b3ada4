//! Big-endian encodings of the fixed-width integers that appear on the wire:
//! the 2-byte unsigned lengths and counts, and the 8-byte two's-complement
//! signed value payload.

use vstd::prelude::*;

verus! {

/// The two bytes of `x` in big-endian order.
pub open spec fn spec_u16_be(x: u16) -> Seq<u8> {
    seq![((x >> 8) & 0xff) as u8, (x & 0xff) as u8]
}

/// The value read from two big-endian bytes.
pub open spec fn spec_u16_of_be(b0: u8, b1: u8) -> u16 {
    ((b0 as u16) << 8) | (b1 as u16)
}

pub proof fn lemma_u16_be_of_be(x: u16)
    ensures
        spec_u16_of_be(spec_u16_be(x)[0], spec_u16_be(x)[1]) == x,
{
    let b0 = (x >> 8) & 0xff;
    let b1 = x & 0xff;
    assert((((((x >> 8) & 0xff) as u8) as u16) << 8) | (((x & 0xff) as u8) as u16) == x)
        by (bit_vector);
}

/// Writes `x` as two big-endian bytes.
pub fn u16_write_be(x: u16, out: &mut Vec<u8>)
    ensures
        final(out)@ == old(out)@ + spec_u16_be(x),
{
    proof {
        assert((x >> 8) & 0xff < 256 && x & 0xff < 256) by (bit_vector);
    }
    out.push(((x >> 8) & 0xff) as u8);
    out.push((x & 0xff) as u8);
    proof {
        assert(out@ =~= old(out)@ + spec_u16_be(x));
    }
}

/// Reads a `u16` from two big-endian bytes.
pub fn u16_read_be(b0: u8, b1: u8) -> (x: u16)
    ensures
        x == spec_u16_of_be(b0, b1),
{
    ((b0 as u16) << 8) | (b1 as u16)
}

/// The eight bytes of `x` in big-endian order.
pub open spec fn spec_u64_be(x: u64) -> Seq<u8> {
    seq![
        ((x >> 56) & 0xff) as u8,
        ((x >> 48) & 0xff) as u8,
        ((x >> 40) & 0xff) as u8,
        ((x >> 32) & 0xff) as u8,
        ((x >> 24) & 0xff) as u8,
        ((x >> 16) & 0xff) as u8,
        ((x >> 8) & 0xff) as u8,
        (x & 0xff) as u8,
    ]
}

/// The value read from eight big-endian bytes.
pub open spec fn spec_u64_of_be(b: Seq<u8>) -> u64
    recommends
        b.len() == 8,
{
    ((b[0] as u64) << 56) | ((b[1] as u64) << 48) | ((b[2] as u64) << 40) | ((b[3] as u64) << 32)
        | ((b[4] as u64) << 24) | ((b[5] as u64) << 16) | ((b[6] as u64) << 8) | (b[7] as u64)
}

pub proof fn lemma_u64_be_of_be(x: u64)
    ensures
        spec_u64_of_be(spec_u64_be(x)) == x,
{
    assert(((((x >> 56) & 0xff) as u8 as u64) << 56) | ((((x >> 48) & 0xff) as u8 as u64) << 48)
        | ((((x >> 40) & 0xff) as u8 as u64) << 40) | ((((x >> 32) & 0xff) as u8 as u64) << 32)
        | ((((x >> 24) & 0xff) as u8 as u64) << 24) | ((((x >> 16) & 0xff) as u8 as u64) << 16)
        | ((((x >> 8) & 0xff) as u8 as u64) << 8) | ((x & 0xff) as u8 as u64) == x)
        by (bit_vector);
}

/// Writes `x` as eight big-endian bytes.
pub fn u64_write_be(x: u64, out: &mut Vec<u8>)
    ensures
        final(out)@ == old(out)@ + spec_u64_be(x),
{
    proof {
        assert((x >> 56) & 0xff < 256 && (x >> 48) & 0xff < 256 && (x >> 40) & 0xff < 256 && (x
            >> 32) & 0xff < 256 && (x >> 24) & 0xff < 256 && (x >> 16) & 0xff < 256 && (x >> 8)
            & 0xff < 256 && x & 0xff < 256) by (bit_vector);
    }
    out.push(((x >> 56) & 0xff) as u8);
    out.push(((x >> 48) & 0xff) as u8);
    out.push(((x >> 40) & 0xff) as u8);
    out.push(((x >> 32) & 0xff) as u8);
    out.push(((x >> 24) & 0xff) as u8);
    out.push(((x >> 16) & 0xff) as u8);
    out.push(((x >> 8) & 0xff) as u8);
    out.push((x & 0xff) as u8);
    proof {
        assert(out@ =~= old(out)@ + spec_u64_be(x));
    }
}

/// Reads a `u64` from eight big-endian bytes.
pub fn u64_read_be(b0: u8, b1: u8, b2: u8, b3: u8, b4: u8, b5: u8, b6: u8, b7: u8) -> (x: u64)
    ensures
        x == spec_u64_of_be(seq![b0, b1, b2, b3, b4, b5, b6, b7]),
{
    ((b0 as u64) << 56) | ((b1 as u64) << 48) | ((b2 as u64) << 40) | ((b3 as u64) << 32) | ((
    b4 as u64) << 24) | ((b5 as u64) << 16) | ((b6 as u64) << 8) | (b7 as u64)
}

/// The eight bytes of `x` in big-endian order, two's complement.
pub open spec fn spec_i64_be(x: i64) -> Seq<u8> {
    spec_u64_be(x as u64)
}

/// The signed value read from eight big-endian bytes, two's complement.
pub open spec fn spec_i64_of_be(b: Seq<u8>) -> i64
    recommends
        b.len() == 8,
{
    spec_u64_of_be(b) as i64
}

pub proof fn lemma_i64_be_of_be(x: i64)
    ensures
        spec_i64_of_be(spec_i64_be(x)) == x,
{
    lemma_u64_be_of_be(x as u64);
    assert(((x as u64) as i64) == x) by (bit_vector);
}

/// Writes `x` as eight big-endian bytes, two's complement.
pub fn i64_write_be(x: i64, out: &mut Vec<u8>)
    ensures
        final(out)@ == old(out)@ + spec_i64_be(x),
{
    u64_write_be(#[verifier::truncate] (x as u64), out);
}

/// Reads an `i64` from eight big-endian bytes, two's complement.
pub fn i64_read_be(b0: u8, b1: u8, b2: u8, b3: u8, b4: u8, b5: u8, b6: u8, b7: u8) -> (x: i64)
    ensures
        x == spec_i64_of_be(seq![b0, b1, b2, b3, b4, b5, b6, b7]),
{
    #[verifier::truncate] (u64_read_be(b0, b1, b2, b3, b4, b5, b6, b7) as i64)
}

} // verus!
