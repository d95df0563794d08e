//! Fixed-width big-endian integers, the one primitive of the file format.

use byteorder::{BigEndian, ByteOrder};
use vstd::prelude::*;
use vstd::slice::slice_subrange;

verus! {

/// The eight bytes of `v`, most significant first.
#[verifier::opaque]
pub open spec fn be_bytes(v: u64) -> Seq<u8> {
    seq![
        (v / 0x100_0000_0000_0000) as u8,
        (v / 0x1_0000_0000_0000 % 0x100) as u8,
        (v / 0x100_0000_0000 % 0x100) as u8,
        (v / 0x1_0000_0000 % 0x100) as u8,
        (v / 0x100_0000 % 0x100) as u8,
        (v / 0x1_0000 % 0x100) as u8,
        (v / 0x100 % 0x100) as u8,
        (v % 0x100) as u8,
    ]
}

/// The number that eight bytes spell, most significant first.
#[verifier::opaque]
pub open spec fn be_value(b: Seq<u8>) -> u64
    recommends
        b.len() == 8,
{
    (b[0] * 0x100_0000_0000_0000 + b[1] * 0x1_0000_0000_0000 + b[2] * 0x100_0000_0000 + b[3]
        * 0x1_0000_0000 + b[4] * 0x100_0000 + b[5] * 0x1_0000 + b[6] * 0x100 + b[7]) as u64
}

/// The big-endian number held in the eight bytes of `b` that start at `pos`.
pub open spec fn u64_at(b: Seq<u8>, pos: int) -> u64 {
    be_value(b.subrange(pos, pos + 8))
}

/// A number is the sum of its eight bytes, each at its place value.
proof fn lemma_bytes_sum(v: u64)
    by (bit_vector)
    ensures
        ((v / 0x100_0000_0000_0000) as u8) as u64 * 0x100_0000_0000_0000 + ((v / 0x1_0000_0000_0000
            % 0x100) as u8) as u64 * 0x1_0000_0000_0000 + ((v / 0x100_0000_0000 % 0x100) as u8) as u64
            * 0x100_0000_0000 + ((v / 0x1_0000_0000 % 0x100) as u8) as u64 * 0x1_0000_0000 + ((v
            / 0x100_0000 % 0x100) as u8) as u64 * 0x100_0000 + ((v / 0x1_0000 % 0x100) as u8) as u64
            * 0x1_0000 + ((v / 0x100 % 0x100) as u8) as u64 * 0x100 + ((v % 0x100) as u8) as u64 == v,
{
}

/// Reading back what was written gives the number that was written.
pub proof fn lemma_be_roundtrip(v: u64)
    ensures
        be_bytes(v).len() == 8,
        be_value(be_bytes(v)) == v,
{
    reveal(be_bytes);
    reveal(be_value);
    lemma_bytes_sum(v);
}

/// A number written anywhere into a byte string is read back from that place.
pub proof fn lemma_u64_at_written(b: Seq<u8>, pos: int, v: u64)
    requires
        0 <= pos,
        pos + 8 <= b.len(),
        b.subrange(pos, pos + 8) == be_bytes(v),
    ensures
        u64_at(b, pos) == v,
{
    lemma_be_roundtrip(v);
}

/// `byteorder::BigEndian::read_u64`: the number spelled by the first eight
/// bytes of `buf`, most significant first. The call panics on a shorter
/// buffer, which the precondition rules out.
#[verifier::external_body]
fn read_be(buf: &[u8]) -> (v: u64)
    requires
        buf@.len() >= 8,
    ensures
        v == be_value(buf@.subrange(0, 8)),
{
    BigEndian::read_u64(buf)
}

/// `byteorder::BigEndian::write_u64` on a fresh eight-byte buffer: the buffer
/// then holds `v`, most significant byte first.
#[verifier::external_body]
fn write_be(v: u64) -> (b: [u8; 8])
    ensures
        b@ == be_bytes(v),
{
    let mut b = [0u8; 8];
    BigEndian::write_u64(&mut b, v);
    b
}

/// Reads the big-endian number at `pos`.
pub fn get_u64(bytes: &[u8], pos: usize) -> (v: u64)
    requires
        pos + 8 <= bytes@.len(),
    ensures
        v == u64_at(bytes@, pos as int),
{
    let len = bytes.len();
    let window = slice_subrange(bytes, pos, pos + 8);
    assert(window@.subrange(0, 8) =~= bytes@.subrange(pos as int, pos + 8));
    read_be(window)
}

/// Appends the big-endian form of `v`.
pub fn put_u64(out: &mut Vec<u8>, v: u64)
    ensures
        final(out)@ == old(out)@ + be_bytes(v),
{
    let b = write_be(v);
    proof {
        lemma_be_roundtrip(v);
    }
    let mut i: usize = 0;
    while i < 8
        invariant
            i <= 8,
            b@ == be_bytes(v),
            out@ == old(out)@ + be_bytes(v).subrange(0, i as int),
        decreases 8 - i,
    {
        out.push(b[i]);
        i = i + 1;
        assert(out@ =~= old(out)@ + be_bytes(v).subrange(0, i as int));
    }
    assert(be_bytes(v).subrange(0, 8) =~= be_bytes(v));
}

} // verus!
