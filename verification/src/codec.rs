//! Binary codec for lists of byte-string blobs: the fixed representation of
//! the per-address message list and of the global address index.
//!
//! Layout: an eight-byte big-endian count, then for each blob a four-byte
//! big-endian length followed by the blob's bytes, with nothing after the
//! last blob.

use vstd::prelude::*;

use crate::bytes::be_u32;
use crate::bytes::be_u64;
use crate::bytes::bytes_slice;
use crate::bytes::lemma_u32_be_round_trip;
use crate::bytes::lemma_u64_be_round_trip;
use crate::bytes::push_bytes;
use crate::bytes::push_u32_be;
use crate::bytes::push_u64_be;
use crate::bytes::read_u32_be;
use crate::bytes::read_u64_be;
use crate::bytes::u32_be;
use crate::bytes::u64_be;

verus! {

/// The largest blob length and blob count the list layout can carry.
pub const MAX_BLOB_COUNT: u64 = 0xFFFF_FFFF;

/// The views of the byte vectors of `l`, as a sequence of byte strings.
pub open spec fn blob_views(l: Seq<Vec<u8>>) -> Seq<Seq<u8>> {
    l.map_values(|v: Vec<u8>| v@)
}

/// A blob sequence that the list layout can carry: the count and every
/// blob length fit in the fixed-width fields.
pub open spec fn blobs_wf(l: Seq<Seq<u8>>) -> bool {
    &&& l.len() <= MAX_BLOB_COUNT
    &&& forall|i: int| 0 <= i < l.len() ==> (#[trigger] l[i]).len() <= MAX_BLOB_COUNT
}

/// The encoded bodies of the blobs of `l`, without the leading count.
pub open spec fn spec_encode_blobs(l: Seq<Seq<u8>>) -> Seq<u8>
    decreases l.len(),
{
    if l.len() == 0 {
        Seq::empty()
    } else {
        u32_be(l.first().len() as u32) + l.first() + spec_encode_blobs(l.drop_first())
    }
}

/// The encoded list: count, then the blob bodies.
pub open spec fn spec_encode_list(l: Seq<Seq<u8>>) -> Seq<u8> {
    u64_be(l.len() as u64) + spec_encode_blobs(l)
}

/// Parses exactly `n` length-prefixed blobs out of `b`; fails on a short
/// buffer and on trailing bytes.
pub open spec fn spec_decode_blobs(b: Seq<u8>, n: nat) -> Option<Seq<Seq<u8>>>
    decreases n,
{
    if n == 0 {
        if b.len() == 0 {
            Some(Seq::empty())
        } else {
            None
        }
    } else if b.len() < 4 {
        None
    } else {
        let len = be_u32(b.subrange(0, 4)) as int;
        if b.len() < 4 + len {
            None
        } else {
            let blob = b.subrange(4, 4 + len);
            let rest = b.subrange(4 + len, b.len() as int);
            match spec_decode_blobs(rest, (n - 1) as nat) {
                Some(tail) => Some(seq![blob] + tail),
                None => None,
            }
        }
    }
}

/// Parses an encoded list; the unique blob sequence `b` encodes, if any.
pub open spec fn spec_decode_list(b: Seq<u8>) -> Option<Seq<Seq<u8>>> {
    if b.len() < 8 {
        None
    } else {
        spec_decode_blobs(b.subrange(8, b.len() as int), be_u64(b.subrange(0, 8)) as nat)
    }
}

/// Appending a blob extends the encoded bodies by one length-prefixed body.
pub proof fn lemma_encode_blobs_push(l: Seq<Seq<u8>>, x: Seq<u8>)
    ensures
        spec_encode_blobs(l.push(x)) == spec_encode_blobs(l) + u32_be(x.len() as u32) + x,
    decreases l.len(),
{
    if l.len() == 0 {
        assert(l.push(x).first() == x);
        assert(l.push(x).drop_first() =~= Seq::<Seq<u8>>::empty());
        assert(l =~= Seq::<Seq<u8>>::empty());
        assert(spec_encode_blobs(Seq::<Seq<u8>>::empty()) =~= Seq::<u8>::empty());
        assert(spec_encode_blobs(l.push(x)) =~= spec_encode_blobs(l) + u32_be(x.len() as u32)
            + x);
    } else {
        assert(l.push(x).first() == l.first());
        assert(l.push(x).drop_first() =~= l.drop_first().push(x));
        lemma_encode_blobs_push(l.drop_first(), x);
        assert(spec_encode_blobs(l.push(x)) =~= spec_encode_blobs(l) + u32_be(x.len() as u32)
            + x);
    }
}

/// Decoding the encoded bodies of `l`, with the right count, yields `l`.
pub proof fn lemma_decode_encode_blobs(l: Seq<Seq<u8>>)
    requires
        forall|i: int| 0 <= i < l.len() ==> (#[trigger] l[i]).len() <= MAX_BLOB_COUNT,
    ensures
        spec_decode_blobs(spec_encode_blobs(l), l.len() as nat) == Some(l),
    decreases l.len(),
{
    if l.len() == 0 {
        assert(spec_encode_blobs(l).len() == 0);
        assert(spec_decode_blobs(spec_encode_blobs(l), 0) == Some(Seq::<Seq<u8>>::empty()));
        assert(l =~= Seq::<Seq<u8>>::empty());
    } else {
        let head = l.first();
        let hl = head.len() as int;
        let tail_enc = spec_encode_blobs(l.drop_first());
        let e = spec_encode_blobs(l);
        assert(e == u32_be(head.len() as u32) + head + tail_enc);
        assert(e.len() == 4 + hl + tail_enc.len());
        assert(e.subrange(0, 4) =~= u32_be(head.len() as u32));
        lemma_u32_be_round_trip(head.len() as u32);
        assert(be_u32(e.subrange(0, 4)) as int == hl);
        assert(e.subrange(4, 4 + hl) =~= head);
        assert(e.subrange(4 + hl, e.len() as int) =~= tail_enc);
        lemma_decode_encode_blobs(l.drop_first());
        assert(spec_decode_blobs(tail_enc, (l.len() - 1) as nat) == Some(l.drop_first()));
        assert(seq![head] + l.drop_first() =~= l);
        assert(spec_decode_blobs(e, l.len() as nat) == Some(l));
    }
}

/// Round trip: decoding an encoded well-formed blob list yields the list.
pub proof fn lemma_list_round_trip(l: Seq<Seq<u8>>)
    requires
        blobs_wf(l),
    ensures
        spec_decode_list(spec_encode_list(l)) == Some(l),
{
    let e = spec_encode_list(l);
    assert(e.subrange(0, 8) =~= u64_be(l.len() as u64));
    lemma_u64_be_round_trip(l.len() as u64);
    assert(e.subrange(8, e.len() as int) =~= spec_encode_blobs(l));
    lemma_decode_encode_blobs(l);
}

/// Encodes a list of blobs in the fixed layout.
pub fn encode_list(l: &Vec<Vec<u8>>) -> (r: Vec<u8>)
    requires
        blobs_wf(blob_views(l@)),
    ensures
        r@ == spec_encode_list(blob_views(l@)),
{
    let ghost lv = blob_views(l@);
    let mut buf: Vec<u8> = Vec::new();
    push_u64_be(&mut buf, l.len() as u64);
    let mut i: usize = 0;
    while i < l.len()
        invariant
            i <= l@.len(),
            lv == blob_views(l@),
            blobs_wf(lv),
            lv.len() == l@.len(),
            buf@ == u64_be(l@.len() as u64) + spec_encode_blobs(lv.take(i as int)),
        decreases l@.len() - i,
    {
        let blob = &l[i];
        proof {
            assert(lv[i as int] == l@[i as int]@);
        }
        push_u32_be(&mut buf, blob.len() as u32);
        push_bytes(&mut buf, blob);
        proof {
            lemma_encode_blobs_push(lv.take(i as int), lv[i as int]);
            assert(lv.take(i + 1) =~= lv.take(i as int).push(lv[i as int]));
            assert(buf@ =~= u64_be(l@.len() as u64) + spec_encode_blobs(lv.take(i + 1)));
        }
        i = i + 1;
    }
    proof {
        assert(lv.take(l@.len() as int) =~= lv);
    }
    buf
}

/// True exactly when one of the blobs of `l` holds the bytes of `x`.
pub fn contains_blob(l: &Vec<Vec<u8>>, x: &Vec<u8>) -> (r: bool)
    ensures
        r == blob_views(l@).contains(x@),
{
    let mut i: usize = 0;
    while i < l.len()
        invariant
            i <= l@.len(),
            forall|j: int| 0 <= j < i ==> blob_views(l@)[j] != x@,
        decreases l@.len() - i,
    {
        if crate::bytes::bytes_eq(&l[i], x) {
            proof {
                assert(blob_views(l@)[i as int] == x@);
            }
            return true;
        }
        i = i + 1;
    }
    proof {
        assert(forall|j: int| 0 <= j < blob_views(l@).len() ==> blob_views(l@)[j] != x@);
    }
    false
}

/// Decodes a list of blobs; `None` exactly when `b` is not an encoded list.
pub fn decode_list(b: &Vec<u8>) -> (r: Option<Vec<Vec<u8>>>)
    ensures
        match r {
            Some(l) => spec_decode_list(b@) == Some(blob_views(l@)),
            None => spec_decode_list(b@) is None,
        },
{
    let blen = b.len();
    if blen < 8 {
        return None;
    }
    let count = read_u64_be(b, 0);
    proof {
        assert(b@.subrange(0, 8) =~= b@.take(8));
    }
    let mut acc: Vec<Vec<u8>> = Vec::new();
    let mut off: usize = 8;
    let mut rem: u64 = count;
    while rem > 0
        invariant
            8 <= off <= blen,
            blen == b@.len(),
            spec_decode_list(b@) == (match spec_decode_blobs(
                b@.subrange(off as int, blen as int),
                rem as nat,
            ) {
                Some(t) => Some(blob_views(acc@) + t),
                None => None::<Seq<Seq<u8>>>,
            }),
        decreases rem,
    {
        let ghost rest0 = b@.subrange(off as int, blen as int);
        if blen - off < 4 {
            proof {
                assert(spec_decode_blobs(rest0, rem as nat) is None);
            }
            return None;
        }
        let len32 = read_u32_be(b, off);
        proof {
            assert(rest0.subrange(0, 4) =~= b@.subrange(off as int, off as int + 4));
        }
        if ((blen - off - 4) as u64) < (len32 as u64) {
            proof {
                assert(spec_decode_blobs(rest0, rem as nat) is None);
            }
            return None;
        }
        let start = off + 4;
        let end = start + (len32 as usize);
        let blob = bytes_slice(b, start, end);
        let ghost rest1 = b@.subrange(end as int, blen as int);
        proof {
            assert(rest0.subrange(4, 4 + len32 as int) =~= blob@);
            assert(rest0.subrange(4 + len32 as int, rest0.len() as int) =~= rest1);
            assert(spec_decode_blobs(rest0, rem as nat) == (match spec_decode_blobs(
                rest1,
                (rem - 1) as nat,
            ) {
                Some(tail) => Some(seq![blob@] + tail),
                None => None::<Seq<Seq<u8>>>,
            }));
        }
        let ghost old_acc = acc@;
        acc.push(blob);
        proof {
            assert(blob_views(acc@) =~= blob_views(old_acc).push(blob@));
            if spec_decode_blobs(rest1, (rem - 1) as nat) is Some {
                let tail = spec_decode_blobs(rest1, (rem - 1) as nat).unwrap();
                assert(blob_views(old_acc) + (seq![blob@] + tail) =~= blob_views(acc@) + tail);
            }
        }
        off = end;
        rem = rem - 1;
    }
    if off != blen {
        proof {
            assert(b@.subrange(off as int, blen as int).len() > 0);
        }
        return None;
    }
    proof {
        assert(b@.subrange(off as int, blen as int) =~= Seq::<u8>::empty());
        assert(blob_views(acc@) + Seq::<Seq<u8>>::empty() =~= blob_views(acc@));
    }
    Some(acc)
}

} // verus!
