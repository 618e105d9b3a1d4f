//! Reading and writing the primitive pieces of stored records: little-endian
//! 64-bit integers and runs of bytes.

use vstd::prelude::*;
use vstd::bytes::*;
use vstd::slice::*;

verus! {

/// The eight bytes that stand for `x`.
pub open spec fn u64_bytes(x: u64) -> Seq<u8> {
    spec_u64_to_le_bytes(x)
}

/// The integer that the eight bytes of `input` from `pos` on stand for.
pub open spec fn u64_at(input: Seq<u8>, pos: int) -> u64 {
    spec_u64_from_le_bytes(input.subrange(pos, pos + 8))
}

/// An integer written and read back is the same integer, and takes eight bytes.
pub proof fn lemma_u64_round_trip(prefix: Seq<u8>, x: u64, suffix: Seq<u8>)
    ensures
        u64_bytes(x).len() == 8,
        u64_at(prefix + u64_bytes(x) + suffix, prefix.len() as int) == x,
{
    lemma_auto_spec_u64_to_from_le_bytes();
    let whole = prefix + u64_bytes(x) + suffix;
    assert(whole.subrange(prefix.len() as int, prefix.len() as int + 8) =~= u64_bytes(x));
}

/// Eight bytes read as an integer and written back are the same bytes.
pub proof fn lemma_u64_bytes_of_u64_at(input: Seq<u8>, pos: int)
    requires
        0 <= pos,
        pos + 8 <= input.len(),
    ensures
        u64_bytes(u64_at(input, pos)) == input.subrange(pos, pos + 8),
{
    lemma_auto_spec_u64_to_from_le_bytes();
    assert(input.subrange(pos, pos + 8).len() == 8);
}

/// Appends the eight bytes of `x`.
pub fn put_u64(out: &mut Vec<u8>, x: u64)
    ensures
        final(out)@ == old(out)@ + u64_bytes(x),
{
    let mut piece = u64_to_le_bytes(x);
    out.append(&mut piece);
}

/// Appends a copy of `data`.
pub fn put_bytes(out: &mut Vec<u8>, data: &[u8])
    ensures
        final(out)@ == old(out)@ + data@,
{
    let n: usize = data.len();
    let mut i: usize = 0;
    while i < n
        invariant
            n == data@.len(),
            i <= n,
            out@ == old(out)@ + data@.subrange(0, i as int),
        decreases n - i,
    {
        out.push(data[i]);
        i += 1;
        assert(out@ =~= old(out)@ + data@.subrange(0, i as int));
    }
    assert(data@.subrange(0, n as int) =~= data@);
}

/// Reads the integer stored at `pos`, if eight bytes are there.
pub fn read_u64(input: &[u8], pos: usize) -> (r: Option<u64>)
    ensures
        r == (if pos + 8 <= input@.len() {
            Some(u64_at(input@, pos as int))
        } else {
            None
        }),
{
    let n: usize = input.len();
    if n < 8 || pos > n - 8 {
        return None;
    }
    let piece = slice_subrange(input, pos, pos + 8);
    Some(u64_from_le_bytes(piece))
}

/// Copies the bytes of `input` from `start` up to `end`.
pub fn copy_range(input: &[u8], start: usize, end: usize) -> (out: Vec<u8>)
    requires
        start <= end <= input@.len(),
    ensures
        out@ == input@.subrange(start as int, end as int),
{
    slice_to_vec(slice_subrange(input, start, end))
}

/// Copies `input`.
pub fn copy_bytes(input: &[u8]) -> (out: Vec<u8>)
    ensures
        out@ == input@,
{
    slice_to_vec(input)
}

} // verus!
