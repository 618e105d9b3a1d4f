//! The frame in which the freezer keeps snapshots and diffs: a checksum, the
//! length of the content, and the content in run-length form.
//!
//! The run-length form is a list of pairs, a count from 1 to 255 and a byte,
//! each standing for that many copies of the byte.

use vstd::prelude::*;
use vstd::slice::slice_subrange;
use crate::error::StoreError;
use crate::wire::{u64_bytes, u64_at, put_u64, read_u64, lemma_u64_round_trip};

verus! {

/// The number of bytes before the run-length form: checksum and length.
pub const FRAME_HEADER_LEN: usize = 16;

/// The longest run that one pair stands for.
pub const MAX_RUN: usize = 255;

/// The checksum of `data`: each byte in turn is added to thirty-one times the
/// checksum so far, in arithmetic modulo two to the sixty-fourth.
pub open spec fn checksum(data: Seq<u8>) -> u64
    decreases data.len(),
{
    if data.len() == 0 {
        0
    } else {
        ((checksum(data.drop_last()) * 31 + data.last()) % 0x1_0000_0000_0000_0000) as u64
    }
}

/// The length of the run of equal bytes that `data` begins with, up to the
/// longest run that one pair stands for.
pub open spec fn leading_run(data: Seq<u8>) -> nat
    decreases data.len(),
{
    if data.len() == 0 {
        0
    } else if data.len() == 1 || data[1] != data[0] {
        1
    } else {
        let rest = leading_run(data.drop_first());
        if rest >= MAX_RUN {
            MAX_RUN as nat
        } else {
            rest + 1
        }
    }
}

/// The run-length form of `data`: its runs from first to last, each as long
/// as one pair allows.
pub open spec fn run_length_form(data: Seq<u8>) -> Seq<u8>
    decreases data.len(),
{
    if data.len() == 0 {
        Seq::empty()
    } else if leading_run(data) == 0 || leading_run(data) > data.len() {
        Seq::empty()
    } else {
        seq![leading_run(data) as u8, data[0]] + run_length_form(
            data.skip(leading_run(data) as int),
        )
    }
}

/// What the run-length form `body` stands for; nothing where `body` is not a
/// list of pairs, or a count is zero.
pub open spec fn expanded(body: Seq<u8>) -> Option<Seq<u8>>
    decreases body.len(),
{
    if body.len() == 0 {
        Some(Seq::empty())
    } else if body.len() < 2 || body[0] == 0 {
        None
    } else {
        match expanded(body.skip(2)) {
            Some(rest) => Some(Seq::new(body[0] as nat, |k: int| body[1]) + rest),
            None => None,
        }
    }
}

/// The frame of `data`.
pub open spec fn framed(data: Seq<u8>) -> Seq<u8> {
    u64_bytes(checksum(data)) + u64_bytes(data.len() as u64) + run_length_form(data)
}

/// The content of the frame `bytes`; nothing where `bytes` is no frame, or
/// the content has not the length or the checksum that the frame states.
pub open spec fn unframed(bytes: Seq<u8>) -> Option<Seq<u8>> {
    if bytes.len() < FRAME_HEADER_LEN {
        None
    } else {
        match expanded(bytes.skip(FRAME_HEADER_LEN as int)) {
            Some(data) => if data.len() == u64_at(bytes, 8) && checksum(data) == u64_at(bytes, 0) {
                Some(data)
            } else {
                None
            },
            None => None,
        }
    }
}

/// Whether `r` is the length of the run that `data` begins with: the first
/// `r` bytes are equal, and the run ends there or is as long as it may be.
pub open spec fn is_leading_run(data: Seq<u8>, r: int) -> bool {
    &&& 1 <= r <= data.len()
    &&& r <= MAX_RUN
    &&& forall|k: int| 0 <= k < r ==> #[trigger] data[k] == data[0]
    &&& (r == MAX_RUN || r == data.len() || data[r] != data[0])
}

/// The leading run is the one length that meets [`is_leading_run`].
pub proof fn lemma_leading_run(data: Seq<u8>, r: int)
    requires
        data.len() > 0,
    ensures
        is_leading_run(data, leading_run(data) as int),
        is_leading_run(data, r) ==> r == leading_run(data),
    decreases data.len(),
{
    if data.len() == 1 || data[1] != data[0] {
        if is_leading_run(data, r) && r > 1 {
            assert(data[1] == data[0]);
        }
    } else {
        let rest = data.drop_first();
        lemma_leading_run(rest, r - 1);
        let lr = leading_run(data) as int;
        assert forall|k: int| 0 <= k < lr implies #[trigger] data[k] == data[0] by {
            if k > 0 {
                assert(rest[k - 1] == rest[0]);
            }
        }
        if is_leading_run(data, r) {
            if r == 1 {
                assert(data[1] == data[0]);
            } else {
                assert forall|k: int| 0 <= k < r - 1 implies #[trigger] rest[k] == rest[0] by {
                    assert(data[k + 1] == data[0]);
                }
                let m = leading_run(rest) as int;
                if r - 1 < m {
                    // the run of `rest` goes on past r - 1, so `data` goes on past r
                    assert(rest[r - 1] == rest[0]);
                } else if r - 1 > m {
                    assert(rest[m] == rest[0]);
                }
            }
        }
    }
}

/// The run-length form, expanded, is what it was made from.
pub proof fn lemma_expand_run_length_form(data: Seq<u8>)
    ensures
        expanded(run_length_form(data)) == Some(data),
    decreases data.len(),
{
    if data.len() > 0 {
        let n = leading_run(data) as int;
        lemma_leading_run(data, n);
        let rest = data.skip(n);
        lemma_expand_run_length_form(rest);
        let body = run_length_form(data);
        assert(body.skip(2) =~= run_length_form(rest));
        assert(body[0] == n as u8);
        assert(body[1] == data[0]);
        assert(Seq::new(body[0] as nat, |k: int| body[1]) + rest =~= data);
    }
}

/// The round trip of the frame: the content of the frame of `data` is `data`.
pub proof fn lemma_unframe_framed(data: Seq<u8>)
    requires
        data.len() <= u64::MAX,
    ensures
        unframed(framed(data)) == Some(data),
{
    let bytes = framed(data);
    lemma_u64_round_trip(
        Seq::empty(),
        checksum(data),
        u64_bytes(data.len() as u64) + run_length_form(data),
    );
    lemma_u64_round_trip(u64_bytes(checksum(data)), data.len() as u64, run_length_form(data));
    assert(Seq::<u8>::empty() + u64_bytes(checksum(data)) + (u64_bytes(data.len() as u64)
        + run_length_form(data)) =~= bytes);
    assert(bytes.skip(FRAME_HEADER_LEN as int) =~= run_length_form(data));
    lemma_expand_run_length_form(data);
}

/// Computes [`checksum`].
pub fn checksum_of(data: &[u8]) -> (c: u64)
    ensures
        c == checksum(data@),
{
    let mut c: u64 = 0;
    let mut i: usize = 0;
    while i < data.len()
        invariant
            i <= data@.len(),
            c == checksum(data@.take(i as int)),
        decreases data@.len() - i,
    {
        proof {
            assert(data@.take(i + 1).drop_last() =~= data@.take(i as int));
        }
        let wide: u128 = (c as u128) * 31 + (data[i] as u128);
        c = (wide % 0x1_0000_0000_0000_0000u128) as u64;
        i += 1;
    }
    proof {
        assert(data@.take(i as int) =~= data@);
    }
    c
}

/// Puts `data` into its frame.
pub fn compress(data: &[u8]) -> (out: Vec<u8>)
    ensures
        out@ == framed(data@),
        unframed(out@) == Some(data@),
{
    let n: usize = data.len();
    let mut out: Vec<u8> = Vec::new();
    put_u64(&mut out, checksum_of(data));
    put_u64(&mut out, n as u64);
    let ghost header = out@;
    let mut i: usize = 0;
    proof {
        assert(data@.skip(0) =~= data@);
    }
    while i < n
        invariant
            n == data@.len(),
            i <= n,
            out@ + run_length_form(data@.skip(i as int)) == header + run_length_form(data@),
        decreases n - i,
    {
        let b: u8 = data[i];
        let mut j: usize = i + 1;
        while j < n && j - i < MAX_RUN && data[j] == b
            invariant
                n == data@.len(),
                i < j <= n,
                j - i <= MAX_RUN,
                b == data@[i as int],
                forall|k: int| i <= k < j ==> data@[k] == b,
            decreases n - j,
        {
            j += 1;
        }
        let ghost rest = data@.skip(i as int);
        let ghost before = out@;
        proof {
            assert(is_leading_run(rest, j - i)) by {
                assert forall|k: int| 0 <= k < j - i implies #[trigger] rest[k] == rest[0] by {
                    assert(rest[k] == data@[i + k]);
                }
                if j < n && j - i < MAX_RUN {
                    assert(rest[j - i] == data@[j as int]);
                }
            }
            lemma_leading_run(rest, j - i);
            assert(rest.skip(j - i) =~= data@.skip(j as int));
        }
        out.push((j - i) as u8);
        out.push(b);
        proof {
            assert(out@ =~= before + seq![(j - i) as u8, b]);
            assert(out@ + run_length_form(data@.skip(j as int)) =~= before + run_length_form(rest));
        }
        i = j;
    }
    proof {
        assert(run_length_form(data@.skip(n as int)) =~= Seq::<u8>::empty());
        assert(out@ =~= header + run_length_form(data@));
        lemma_unframe_framed(data@);
    }
    out
}

/// Takes the content out of the frame `bytes`. Fails where `bytes` is no
/// frame, or the content has not the length or the checksum that the frame
/// states.
pub fn decompress(bytes: &[u8]) -> (r: Result<Vec<u8>, StoreError>)
    ensures
        match unframed(bytes@) {
            Some(data) => r is Ok && r.unwrap()@ == data,
            None => r == Err::<Vec<u8>, StoreError>(StoreError::CorruptData),
        },
{
    if bytes.len() < FRAME_HEADER_LEN {
        return Err(StoreError::CorruptData);
    }
    let sum: u64 = read_u64(bytes, 0).unwrap();
    let len: u64 = read_u64(bytes, 8).unwrap();
    let body = slice_subrange(bytes, FRAME_HEADER_LEN, bytes.len());
    assert(body@ =~= bytes@.skip(FRAME_HEADER_LEN as int));
    let m: usize = body.len();
    let mut out: Vec<u8> = Vec::new();
    let mut pos: usize = 0;
    proof {
        assert(body@.skip(0) =~= body@);
        if expanded(body@) is Some {
            assert(out@ + expanded(body@).unwrap() =~= expanded(body@).unwrap());
        }
    }
    while pos < m
        invariant
            m == body@.len(),
            pos <= m,
            out@.len() <= len,
            bytes@.len() >= FRAME_HEADER_LEN,
            body@ == bytes@.skip(FRAME_HEADER_LEN as int),
            len == u64_at(bytes@, 8),
            expanded(body@) == (match expanded(body@.skip(pos as int)) {
                Some(rest) => Some(out@ + rest),
                None => None,
            }),
        decreases m - pos,
    {
        let ghost tail = body@.skip(pos as int);
        let ghost before = out@;
        proof {
            assert(tail[0] == body@[pos as int]);
        }
        if m - pos < 2 || body[pos] == 0 {
            return Err(StoreError::CorruptData);
        }
        let count: u8 = body[pos];
        let b: u8 = body[pos + 1];
        proof {
            assert(tail[1] == body@[pos + 1]);
            assert(tail.skip(2) =~= body@.skip(pos + 2));
        }
        if count as u64 > len - out.len() as u64 {
            return Err(StoreError::CorruptData);
        }
        let mut k: u8 = 0;
        while k < count
            invariant
                k <= count,
                before.len() + count <= len,
                out@ == before + Seq::new(k as nat, |x: int| b),
            decreases count - k,
        {
            out.push(b);
            k += 1;
            assert(out@ =~= before + Seq::new(k as nat, |x: int| b));
        }
        pos += 2;
        proof {
            match expanded(body@.skip(pos as int)) {
                Some(rest) => {
                    assert(out@ + rest =~= before + (Seq::new(count as nat, |x: int| b) + rest));
                },
                None => {},
            }
        }
    }
    proof {
        assert(body@.skip(m as int) =~= Seq::<u8>::empty());
        assert(out@ + Seq::<u8>::empty() =~= out@);
    }
    if out.len() as u64 != len || checksum_of(out.as_slice()) != sum {
        return Err(StoreError::CorruptData);
    }
    Ok(out)
}

} // verus!
