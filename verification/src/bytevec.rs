//! Byte-buffer helpers and big-endian integer codecs used by the framing
//! and by the queue record format.
use vstd::prelude::*;
use vstd::slice::{slice_index_get, slice_subrange, slice_to_vec};

verus! {

/// Append a byte slice to a vector.
pub fn append_bytes(out: &mut Vec<u8>, b: &[u8])
    ensures
        final(out)@ == old(out)@ + b@,
{
    let mut tmp = slice_to_vec(b);
    out.append(&mut tmp);
}

/// Copy `src[i..j]` into a fresh vector.
pub fn copy_range(src: &[u8], i: usize, j: usize) -> (r: Vec<u8>)
    requires
        i <= j <= src@.len(),
    ensures
        r@ == src@.subrange(i as int, j as int),
{
    slice_to_vec(slice_subrange(src, i, j))
}

/// Big-endian bytes of a 32-bit integer.
pub open spec fn be32(x: u32) -> Seq<u8> {
    seq![(x >> 24) as u8, (x >> 16) as u8, (x >> 8) as u8, x as u8]
}

/// The 32-bit integer read from four big-endian bytes.
pub open spec fn be32_val(s: Seq<u8>) -> u32
    recommends
        s.len() == 4,
{
    (((s[0] as u32) << 24) | ((s[1] as u32) << 16) | ((s[2] as u32) << 8) | (s[3] as u32)) as u32
}

pub proof fn lemma_be32_roundtrip(x: u32)
    ensures
        be32(x).len() == 4,
        be32_val(be32(x)) == x,
{
    assert(((((x >> 24) as u8 as u32) << 24) | (((x >> 16) as u8 as u32) << 16) | (((x >> 8)
        as u8 as u32) << 8) | (x as u8 as u32)) as u32 == x) by (bit_vector);
}

/// Big-endian bytes of a 64-bit integer.
pub open spec fn be64(x: u64) -> Seq<u8> {
    seq![
        (x >> 56) as u8,
        (x >> 48) as u8,
        (x >> 40) as u8,
        (x >> 32) as u8,
        (x >> 24) as u8,
        (x >> 16) as u8,
        (x >> 8) as u8,
        x as u8,
    ]
}

/// The 64-bit integer read from eight big-endian bytes.
pub open spec fn be64_val(s: Seq<u8>) -> u64
    recommends
        s.len() == 8,
{
    (((s[0] as u64) << 56) | ((s[1] as u64) << 48) | ((s[2] as u64) << 40) | ((s[3] as u64) << 32)
        | ((s[4] as u64) << 24) | ((s[5] as u64) << 16) | ((s[6] as u64) << 8) | (s[7] as u64))
        as u64
}

pub proof fn lemma_be64_roundtrip(x: u64)
    ensures
        be64(x).len() == 8,
        be64_val(be64(x)) == x,
{
    assert(((((x >> 56) as u8 as u64) << 56) | (((x >> 48) as u8 as u64) << 48) | (((x >> 40)
        as u8 as u64) << 40) | (((x >> 32) as u8 as u64) << 32) | (((x >> 24) as u8 as u64) << 24)
        | (((x >> 16) as u8 as u64) << 16) | (((x >> 8) as u8 as u64) << 8) | (x as u8 as u64))
        as u64 == x) by (bit_vector);
}

/// Casting a signed 64-bit value to unsigned and back is the identity.
pub proof fn lemma_i64_u64_roundtrip(x: i64)
    ensures
        (x as u64) as i64 == x,
{
    assert((x as u64) as i64 == x) by (bit_vector);
}

/// Append the big-endian bytes of `x`.
pub fn push_be32(out: &mut Vec<u8>, x: u32)
    ensures
        final(out)@ == old(out)@ + be32(x),
{
    out.push(#[verifier::truncate] ((x >> 24) as u8));
    out.push(#[verifier::truncate] ((x >> 16) as u8));
    out.push(#[verifier::truncate] ((x >> 8) as u8));
    out.push(#[verifier::truncate] (x as u8));
    proof {
        assert(out@ =~= old(out)@ + be32(x));
    }
}

/// Append the big-endian bytes of `x`.
pub fn push_be64(out: &mut Vec<u8>, x: u64)
    ensures
        final(out)@ == old(out)@ + be64(x),
{
    out.push(#[verifier::truncate] ((x >> 56) as u8));
    out.push(#[verifier::truncate] ((x >> 48) as u8));
    out.push(#[verifier::truncate] ((x >> 40) as u8));
    out.push(#[verifier::truncate] ((x >> 32) as u8));
    out.push(#[verifier::truncate] ((x >> 24) as u8));
    out.push(#[verifier::truncate] ((x >> 16) as u8));
    out.push(#[verifier::truncate] ((x >> 8) as u8));
    out.push(#[verifier::truncate] (x as u8));
    proof {
        assert(out@ =~= old(out)@ + be64(x));
    }
}

/// Read a big-endian 32-bit integer at `off`.
pub fn read_be32(s: &[u8], off: usize) -> (x: u32)
    requires
        off + 4 <= s@.len(),
    ensures
        x == be32_val(s@.subrange(off as int, off as int + 4)),
{
    let n = s.len();
    let b0 = *slice_index_get(s, off);
    let b1 = *slice_index_get(s, off + 1);
    let b2 = *slice_index_get(s, off + 2);
    let b3 = *slice_index_get(s, off + 3);
    let x = ((b0 as u32) << 24) | ((b1 as u32) << 16) | ((b2 as u32) << 8) | (b3 as u32);
    proof {
        let sub = s@.subrange(off as int, off as int + 4);
        assert(sub[0] == s@[off as int]);
        assert(sub[1] == s@[off as int + 1]);
        assert(sub[2] == s@[off as int + 2]);
        assert(sub[3] == s@[off as int + 3]);
    }
    x
}

/// Read a big-endian 64-bit integer at `off`.
pub fn read_be64(s: &[u8], off: usize) -> (x: u64)
    requires
        off + 8 <= s@.len(),
    ensures
        x == be64_val(s@.subrange(off as int, off as int + 8)),
{
    let n = s.len();
    let b0 = *slice_index_get(s, off);
    let b1 = *slice_index_get(s, off + 1);
    let b2 = *slice_index_get(s, off + 2);
    let b3 = *slice_index_get(s, off + 3);
    let b4 = *slice_index_get(s, off + 4);
    let b5 = *slice_index_get(s, off + 5);
    let b6 = *slice_index_get(s, off + 6);
    let b7 = *slice_index_get(s, off + 7);
    let x = ((b0 as u64) << 56) | ((b1 as u64) << 48) | ((b2 as u64) << 40) | ((b3 as u64) << 32)
        | ((b4 as u64) << 24) | ((b5 as u64) << 16) | ((b6 as u64) << 8) | (b7 as u64);
    proof {
        let sub = s@.subrange(off as int, off as int + 8);
        assert(sub[0] == s@[off as int]);
        assert(sub[1] == s@[off as int + 1]);
        assert(sub[2] == s@[off as int + 2]);
        assert(sub[3] == s@[off as int + 3]);
        assert(sub[4] == s@[off as int + 4]);
        assert(sub[5] == s@[off as int + 5]);
        assert(sub[6] == s@[off as int + 6]);
        assert(sub[7] == s@[off as int + 7]);
    }
    x
}

} // verus!
