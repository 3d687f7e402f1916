//! Big-endian byte strings for the fixed-width integers of the storage
//! format, and small helpers on byte vectors.

use vstd::prelude::*;

verus! {

/// The four big-endian bytes of a 32-bit integer.
pub open spec fn u32_be(n: u32) -> Seq<u8> {
    seq![(n >> 24) as u8, (n >> 16) as u8, (n >> 8) as u8, n as u8]
}

/// The 32-bit integer read from four big-endian bytes.
pub open spec fn be_u32(b: Seq<u8>) -> u32
    recommends
        b.len() == 4,
{
    (((b[0] as u32) << 24) | ((b[1] as u32) << 16) | ((b[2] as u32) << 8) | (b[3] as u32)) as u32
}

/// The eight big-endian bytes of a 64-bit integer.
pub open spec fn u64_be(n: u64) -> Seq<u8> {
    seq![
        (n >> 56) as u8, (n >> 48) as u8, (n >> 40) as u8, (n >> 32) as u8,
        (n >> 24) as u8, (n >> 16) as u8, (n >> 8) as u8, n as u8,
    ]
}

/// The 64-bit integer read from eight big-endian bytes.
pub open spec fn be_u64(b: Seq<u8>) -> u64
    recommends
        b.len() == 8,
{
    (((b[0] as u64) << 56) | ((b[1] as u64) << 48) | ((b[2] as u64) << 40)
        | ((b[3] as u64) << 32) | ((b[4] as u64) << 24) | ((b[5] as u64) << 16)
        | ((b[6] as u64) << 8) | (b[7] as u64)) as u64
}

/// Reading back the four bytes of an integer yields the integer.
pub proof fn lemma_u32_be_round_trip(n: u32)
    ensures
        be_u32(u32_be(n)) == n,
{
    assert(((((n >> 24) as u8 as u32) << 24) | (((n >> 16) as u8 as u32) << 16)
        | (((n >> 8) as u8 as u32) << 8) | (n as u8 as u32)) as u32 == n) by (bit_vector);
}

/// Reading back the eight bytes of an integer yields the integer.
pub proof fn lemma_u64_be_round_trip(n: u64)
    ensures
        be_u64(u64_be(n)) == n,
{
    assert(((((n >> 56) as u8 as u64) << 56) | (((n >> 48) as u8 as u64) << 48)
        | (((n >> 40) as u8 as u64) << 40) | (((n >> 32) as u8 as u64) << 32)
        | (((n >> 24) as u8 as u64) << 24) | (((n >> 16) as u8 as u64) << 16)
        | (((n >> 8) as u8 as u64) << 8) | (n as u8 as u64)) as u64 == n) by (bit_vector);
}

/// Appends the four big-endian bytes of `n` to `buf`.
pub fn push_u32_be(buf: &mut Vec<u8>, n: u32)
    ensures
        final(buf)@ == old(buf)@ + u32_be(n),
{
    buf.push((n >> 24) as u8);
    buf.push((n >> 16) as u8);
    buf.push((n >> 8) as u8);
    buf.push(n as u8);
    proof {
        assert(buf@ =~= old(buf)@ + u32_be(n));
    }
}

/// Appends the eight big-endian bytes of `n` to `buf`.
pub fn push_u64_be(buf: &mut Vec<u8>, n: u64)
    ensures
        final(buf)@ == old(buf)@ + u64_be(n),
{
    buf.push((n >> 56) as u8);
    buf.push((n >> 48) as u8);
    buf.push((n >> 40) as u8);
    buf.push((n >> 32) as u8);
    buf.push((n >> 24) as u8);
    buf.push((n >> 16) as u8);
    buf.push((n >> 8) as u8);
    buf.push(n as u8);
    proof {
        assert(buf@ =~= old(buf)@ + u64_be(n));
    }
}

/// Reads the big-endian 32-bit integer at offset `off` of `b`.
pub fn read_u32_be(b: &Vec<u8>, off: usize) -> (r: u32)
    requires
        off + 4 <= b@.len(),
    ensures
        r == be_u32(b@.subrange(off as int, off as int + 4)),
{
    let n = b.len();
    let r = ((b[off] as u32) << 24) | ((b[off + 1] as u32) << 16)
        | ((b[off + 2] as u32) << 8) | (b[off + 3] as u32);
    proof {
        let s = b@.subrange(off as int, off as int + 4);
        assert(s[0] == b@[off as int] && s[1] == b@[off as int + 1]
            && s[2] == b@[off as int + 2] && s[3] == b@[off as int + 3]);
    }
    r
}

/// Reads the big-endian 64-bit integer at offset `off` of `b`.
pub fn read_u64_be(b: &Vec<u8>, off: usize) -> (r: u64)
    requires
        off + 8 <= b@.len(),
    ensures
        r == be_u64(b@.subrange(off as int, off as int + 8)),
{
    let n = b.len();
    let r = ((b[off] as u64) << 56) | ((b[off + 1] as u64) << 48)
        | ((b[off + 2] as u64) << 40) | ((b[off + 3] as u64) << 32)
        | ((b[off + 4] as u64) << 24) | ((b[off + 5] as u64) << 16)
        | ((b[off + 6] as u64) << 8) | (b[off + 7] as u64);
    proof {
        let s = b@.subrange(off as int, off as int + 8);
        assert(s[0] == b@[off as int] && s[1] == b@[off as int + 1]
            && s[2] == b@[off as int + 2] && s[3] == b@[off as int + 3]
            && s[4] == b@[off as int + 4] && s[5] == b@[off as int + 5]
            && s[6] == b@[off as int + 6] && s[7] == b@[off as int + 7]);
    }
    r
}

/// Copies `b[start..end]` into a fresh vector.
pub fn bytes_slice(b: &Vec<u8>, start: usize, end: usize) -> (r: Vec<u8>)
    requires
        start <= end <= b@.len(),
    ensures
        r@ == b@.subrange(start as int, end as int),
{
    let mut r: Vec<u8> = Vec::new();
    let mut i: usize = start;
    while i < end
        invariant
            start <= i <= end <= b@.len(),
            r@ == b@.subrange(start as int, i as int),
        decreases end - i,
    {
        r.push(b[i]);
        i = i + 1;
        proof {
            assert(r@ =~= b@.subrange(start as int, i as int));
        }
    }
    r
}

/// Appends all of `src` to `buf`.
pub fn push_bytes(buf: &mut Vec<u8>, src: &Vec<u8>)
    ensures
        final(buf)@ == old(buf)@ + src@,
{
    let mut i: usize = 0;
    while i < src.len()
        invariant
            i <= src@.len(),
            buf@ == old(buf)@ + src@.subrange(0, i as int),
        decreases src@.len() - i,
    {
        buf.push(src[i]);
        i = i + 1;
        proof {
            assert(buf@ =~= old(buf)@ + src@.subrange(0, i as int));
        }
    }
    proof {
        assert(src@.subrange(0, src@.len() as int) =~= src@);
    }
}

/// A fresh vector holding the same bytes as `v`.
pub fn bytes_clone(v: &Vec<u8>) -> (r: Vec<u8>)
    ensures
        r@ == v@,
{
    let r = bytes_slice(v, 0, v.len());
    proof {
        assert(v@.subrange(0, v@.len() as int) =~= v@);
    }
    r
}

/// True exactly when the two byte vectors hold the same bytes.
pub fn bytes_eq(a: &Vec<u8>, b: &Vec<u8>) -> (r: bool)
    ensures
        r <==> a@ == b@,
{
    if a.len() != b.len() {
        proof {
            assert(a@.len() != b@.len());
        }
        return false;
    }
    let mut i: usize = 0;
    while i < a.len()
        invariant
            i <= a@.len(),
            a@.len() == b@.len(),
            forall|j: int| 0 <= j < i ==> a@[j] == b@[j],
        decreases a@.len() - i,
    {
        if a[i] != b[i] {
            return false;
        }
        i = i + 1;
    }
    proof {
        assert(a@ =~= b@);
    }
    true
}

} // verus!
