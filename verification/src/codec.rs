//! Big-endian integer fields of the on-disk formats: 16-bit lengths and
//! offsets inside a block, 64-bit offsets inside a table file.
use vstd::prelude::*;

verus! {

/// The two big-endian bytes of a 16-bit field.
pub open spec fn spec_u16_to_be(x: u16) -> Seq<u8> {
    seq![((x >> 8) & 0xff) as u8, (x & 0xff) as u8]
}

/// The 16-bit value of two big-endian bytes.
pub open spec fn spec_u16_from_be(s: Seq<u8>) -> u16
    recommends
        s.len() == 2,
{
    ((s[0] as u16) << 8) | (s[1] as u16)
}

pub proof fn lemma_u16_be_round_trip(x: u16)
    ensures
        spec_u16_from_be(spec_u16_to_be(x)) == x,
{
    let b0 = ((x >> 8) & 0xff) as u8;
    let b1 = (x & 0xff) as u8;
    assert((((((x >> 8) & 0xff) as u8) as u16) << 8) | (((x & 0xff) as u8) as u16) == x)
        by (bit_vector);
    assert(spec_u16_to_be(x)[0] == b0 && spec_u16_to_be(x)[1] == b1);
}

pub proof fn lemma_u16_be_parse(s: Seq<u8>)
    requires
        s.len() == 2,
    ensures
        spec_u16_to_be(spec_u16_from_be(s)) == s,
{
    let b0 = s[0];
    let b1 = s[1];
    let x = spec_u16_from_be(s);
    assert(x == ((b0 as u16) << 8) | (b1 as u16));
    assert((((((b0 as u16) << 8) | (b1 as u16)) >> 8) & 0xff) as u8 == b0) by (bit_vector);
    assert(((((b0 as u16) << 8) | (b1 as u16)) & 0xff) as u8 == b1) by (bit_vector);
    assert(spec_u16_to_be(x) =~= s);
}

/// The eight big-endian bytes of a 64-bit field.
pub open spec fn spec_u64_to_be(x: u64) -> Seq<u8> {
    seq![
        ((x >> 56) & 0xff) as u8,
        ((x >> 48) & 0xff) as u8,
        ((x >> 40) & 0xff) as u8,
        ((x >> 32) & 0xff) as u8,
        ((x >> 24) & 0xff) as u8,
        ((x >> 16) & 0xff) as u8,
        ((x >> 8) & 0xff) as u8,
        (x & 0xff) as u8,
    ]
}

/// The 64-bit value of eight big-endian bytes.
pub open spec fn spec_u64_from_be(s: Seq<u8>) -> u64
    recommends
        s.len() == 8,
{
    ((s[0] as u64) << 56) | ((s[1] as u64) << 48) | ((s[2] as u64) << 40) | ((s[3] as u64) << 32)
        | ((s[4] as u64) << 24) | ((s[5] as u64) << 16) | ((s[6] as u64) << 8) | (s[7] as u64)
}

pub proof fn lemma_u64_be_round_trip(x: u64)
    ensures
        spec_u64_from_be(spec_u64_to_be(x)) == x,
{
    assert(((((x >> 56) & 0xff) as u8) as u64) << 56 | ((((x >> 48) & 0xff) as u8) as u64) << 48
        | ((((x >> 40) & 0xff) as u8) as u64) << 40 | ((((x >> 32) & 0xff) as u8) as u64) << 32
        | ((((x >> 24) & 0xff) as u8) as u64) << 24 | ((((x >> 16) & 0xff) as u8) as u64) << 16
        | ((((x >> 8) & 0xff) as u8) as u64) << 8 | (((x & 0xff) as u8) as u64) == x)
        by (bit_vector);
}

pub proof fn lemma_u64_be_parse(s: Seq<u8>)
    requires
        s.len() == 8,
    ensures
        spec_u64_to_be(spec_u64_from_be(s)) == s,
{
    let b0 = s[0] as u64;
    let b1 = s[1] as u64;
    let b2 = s[2] as u64;
    let b3 = s[3] as u64;
    let b4 = s[4] as u64;
    let b5 = s[5] as u64;
    let b6 = s[6] as u64;
    let b7 = s[7] as u64;
    let x = spec_u64_from_be(s);
    assert(x == (b0 << 56) | (b1 << 48) | (b2 << 40) | (b3 << 32) | (b4 << 24) | (b5 << 16) | (
    b6 << 8) | b7);
    assert(b0 < 256 && b1 < 256 && b2 < 256 && b3 < 256 && b4 < 256 && b5 < 256 && b6 < 256 && b7
        < 256 ==> {
        let y = (b0 << 56) | (b1 << 48) | (b2 << 40) | (b3 << 32) | (b4 << 24) | (b5 << 16) | (b6
            << 8) | b7;
        ((y >> 56) & 0xff == b0) && ((y >> 48) & 0xff == b1) && ((y >> 40) & 0xff == b2) && ((y
            >> 32) & 0xff == b3) && ((y >> 24) & 0xff == b4) && ((y >> 16) & 0xff == b5) && ((y
            >> 8) & 0xff == b6) && (y & 0xff == b7)
    }) by (bit_vector);
    assert(spec_u64_to_be(x) =~= s);
}

/// Append the two big-endian bytes of `x`.
pub fn push_u16_be(buf: &mut Vec<u8>, x: u16)
    ensures
        final(buf)@ == old(buf)@ + spec_u16_to_be(x),
{
    buf.push(((x >> 8) & 0xff) as u8);
    buf.push((x & 0xff) as u8);
    proof {
        assert(buf@ =~= old(buf)@ + spec_u16_to_be(x));
    }
}

/// The 16-bit value of two big-endian bytes.
pub fn read_u16_be(b0: u8, b1: u8) -> (x: u16)
    ensures
        x == spec_u16_from_be(seq![b0, b1]),
{
    ((b0 as u16) << 8u16) | (b1 as u16)
}

/// Append the eight big-endian bytes of `x`.
pub fn push_u64_be(buf: &mut Vec<u8>, x: u64)
    ensures
        final(buf)@ == old(buf)@ + spec_u64_to_be(x),
{
    buf.push(((x >> 56) & 0xff) as u8);
    buf.push(((x >> 48) & 0xff) as u8);
    buf.push(((x >> 40) & 0xff) as u8);
    buf.push(((x >> 32) & 0xff) as u8);
    buf.push(((x >> 24) & 0xff) as u8);
    buf.push(((x >> 16) & 0xff) as u8);
    buf.push(((x >> 8) & 0xff) as u8);
    buf.push((x & 0xff) as u8);
    proof {
        assert(buf@ =~= old(buf)@ + spec_u64_to_be(x));
    }
}

/// The 64-bit value of the eight big-endian bytes at `off`.
pub fn read_u64_be(s: &[u8], off: usize) -> (x: u64)
    requires
        off + 8 <= s@.len(),
    ensures
        x == spec_u64_from_be(s@.subrange(off as int, off as int + 8)),
{
    let x = ((s[off] as u64) << 56u64) | ((s[off + 1] as u64) << 48u64) | ((s[off + 2] as u64)
        << 40u64) | ((s[off + 3] as u64) << 32u64) | ((s[off + 4] as u64) << 24u64) | ((s[off + 5]
        as u64) << 16u64) | ((s[off + 6] as u64) << 8u64) | (s[off + 7] as u64);
    proof {
        let sub = s@.subrange(off as int, off as int + 8);
        assert(sub[0] == s@[off as int] && sub[1] == s@[off as int + 1] && sub[2] == s@[off as int
            + 2] && sub[3] == s@[off as int + 3] && sub[4] == s@[off as int + 4] && sub[5] == s@[
        off as int + 5] && sub[6] == s@[off as int + 6] && sub[7] == s@[off as int + 7]);
    }
    x
}

} // verus!
