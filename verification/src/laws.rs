//! Laws of the message store, proved over its mathematical model: what a
//! submission does to the stored sequences, that addresses are independent,
//! what the sweep keeps, and that the sweep is idempotent.

use vstd::prelude::*;

use crate::codec::MAX_BLOB_COUNT;
use crate::codec::blobs_wf;
use crate::codec::lemma_list_round_trip;
use crate::codec::spec_encode_list;
use crate::message::UserMessageView;
use crate::message::index_key;
use crate::message::lemma_decode_msg_len;
use crate::message::lemma_msg_round_trip;
use crate::message::msg_valid;
use crate::message::spec_decode_msg;
use crate::store::addr_emptied;
use crate::store::blob_msg;
use crate::store::blob_msgs;
use crate::store::index_entry_ok;
use crate::store::keep_blob;
use crate::store::kept_blobs;
use crate::store::kept_msgs;
use crate::store::lemma_filter_all_true;
use crate::store::lemma_kept_blob_source;
use crate::store::lemma_submit_view_inv;
use crate::store::lemma_sweep_addrs_frame;
use crate::store::lemma_sweep_view_inv;
use crate::store::list_ok;
use crate::store::read_blobs;
use crate::store::read_index;
use crate::store::read_msgs;
use crate::store::store_inv;
use crate::store::submit_fits;
use crate::store::submit_view;
use crate::store::sweep_addr;
use crate::store::sweep_addrs;
use crate::store::sweep_index;
use crate::store::sweep_view;

verus! {

/// Law: a valid submission that fits appends the message at the end of its
/// address's stored sequence, and preserves the store invariant.
pub proof fn lemma_store_message_appends(v: Map<Seq<u8>, Seq<u8>>, m: UserMessageView, now: u64)
    requires
        store_inv(v),
        msg_valid(m, now),
        submit_fits(v, m),
    ensures
        read_msgs(submit_view(v, m), m.address) == read_msgs(v, m.address).push(m),
        store_inv(submit_view(v, m)),
{
    lemma_submit_view_inv(v, m, now);
    lemma_msg_round_trip(m);
    assert(m.address != index_key());
    assert(read_msgs(submit_view(v, m), m.address) =~= read_msgs(v, m.address).push(m));
}

/// Law: two submissions for one address land in submission order at the end
/// of the stored sequence.
pub proof fn lemma_submission_order(
    v: Map<Seq<u8>, Seq<u8>>,
    m1: UserMessageView,
    now1: u64,
    m2: UserMessageView,
    now2: u64,
)
    requires
        store_inv(v),
        msg_valid(m1, now1),
        msg_valid(m2, now2),
        m2.address == m1.address,
        submit_fits(v, m1),
        submit_fits(submit_view(v, m1), m2),
    ensures
        read_msgs(submit_view(submit_view(v, m1), m2), m1.address) == read_msgs(
            v,
            m1.address,
        ).push(m1).push(m2),
{
    lemma_store_message_appends(v, m1, now1);
    lemma_store_message_appends(submit_view(v, m1), m2, now2);
}

/// Law: a submission never changes what any other address reads back.
pub proof fn lemma_address_independence(
    v: Map<Seq<u8>, Seq<u8>>,
    m: UserMessageView,
    other: Seq<u8>,
)
    requires
        other != m.address,
    ensures
        read_msgs(submit_view(v, m), other) == read_msgs(v, other),
{
    if other != index_key() {
        assert(read_blobs(submit_view(v, m), other) == read_blobs(v, other));
    }
}

/// Surviving blobs decode, are short enough to re-encode, and decoding the
/// re-encoded pruned list gives the pruned blobs back.
proof fn lemma_kept_blobs_wf(blobs: Seq<Seq<u8>>, now: u64, ret: u64)
    requires
        forall|i: int| 0 <= i < blobs.len() ==> spec_decode_msg(#[trigger] blobs[i]) is Some,
        blobs.len() <= MAX_BLOB_COUNT,
    ensures
        blobs_wf(kept_blobs(blobs, now, ret)),
        forall|i: int|
            0 <= i < kept_blobs(blobs, now, ret).len() ==> spec_decode_msg(
                #[trigger] kept_blobs(blobs, now, ret)[i],
            ) is Some,
{
    let kb = kept_blobs(blobs, now, ret);
    blobs.lemma_filter_len(|b: Seq<u8>| keep_blob(b, now, ret));
    assert forall|i: int| 0 <= i < kb.len() implies spec_decode_msg(#[trigger] kb[i]) is Some by {
        lemma_kept_blob_source(blobs, now, ret, i);
    }
    assert forall|i: int| 0 <= i < kb.len() implies (#[trigger] kb[i]).len() <= MAX_BLOB_COUNT by {
        assert(spec_decode_msg(kb[i]) is Some);
        lemma_decode_msg_len(kb[i]);
    }
}

/// Pruning blobs and then reading them as messages is reading them as
/// messages and then pruning.
proof fn lemma_kept_map_commute(blobs: Seq<Seq<u8>>, now: u64, ret: u64)
    ensures
        blob_msgs(kept_blobs(blobs, now, ret)) == kept_msgs(blob_msgs(blobs), now, ret),
    decreases blobs.len(),
{
    reveal(Seq::filter);
    if blobs.len() == 0 {
        assert(blob_msgs(kept_blobs(blobs, now, ret)) =~= kept_msgs(
            blob_msgs(blobs),
            now,
            ret,
        ));
    } else {
        let rest = blobs.drop_last();
        lemma_kept_map_commute(rest, now, ret);
        assert(blob_msgs(blobs).drop_last() =~= blob_msgs(rest));
        assert(blob_msgs(blobs).last() == blob_msg(blobs.last()));
        if keep_blob(blobs.last(), now, ret) {
            assert(kept_blobs(blobs, now, ret) == kept_blobs(rest, now, ret).push(blobs.last()));
            assert(kept_msgs(blob_msgs(blobs), now, ret) == kept_msgs(
                blob_msgs(rest),
                now,
                ret,
            ).push(blob_msg(blobs.last())));
            assert(blob_msgs(kept_blobs(blobs, now, ret)) =~= blob_msgs(
                kept_blobs(rest, now, ret),
            ).push(blob_msg(blobs.last())));
        } else {
            assert(kept_blobs(blobs, now, ret) == kept_blobs(rest, now, ret));
            assert(kept_msgs(blob_msgs(blobs), now, ret) == kept_msgs(blob_msgs(rest), now, ret));
        }
    }
}

/// What the sweep leaves under one of the processed addresses, assuming the
/// processed list carries no duplicates.
proof fn lemma_sweep_addrs_at(
    v: Map<Seq<u8>, Seq<u8>>,
    addrs: Seq<Seq<u8>>,
    now: u64,
    ret: u64,
    x: int,
)
    requires
        forall|i: int, j: int| 0 <= i < j < addrs.len() ==> addrs[i] != addrs[j],
        0 <= x < addrs.len(),
    ensures
        ({
            let w = sweep_addrs(v, addrs, now, ret);
            let a = addrs[x];
            let kb = kept_blobs(read_blobs(v, a), now, ret);
            if !v.contains_key(a) {
                !w.contains_key(a)
            } else if kb.len() == 0 {
                !w.contains_key(a)
            } else {
                w.contains_key(a) && w[a] == spec_encode_list(kb)
            }
        }),
    decreases addrs.len(),
{
    let w = sweep_addrs(v, addrs, now, ret);
    let a = addrs[x];
    let rest = addrs.drop_last();
    let u = sweep_addrs(v, rest, now, ret);
    if x == addrs.len() - 1 {
        assert(!rest.contains(a)) by {
            if rest.contains(a) {
                let y = choose|y: int| 0 <= y < rest.len() && rest[y] == a;
                assert(addrs[y] == addrs[x]);
            }
        }
        lemma_sweep_addrs_frame(v, rest, now, ret, a);
        assert(read_blobs(u, a) == read_blobs(v, a));
    } else {
        assert(forall|i: int, j: int| 0 <= i < j < rest.len() ==> rest[i] != rest[j]);
        lemma_sweep_addrs_at(v, rest, now, ret, x);
        assert(addrs.last() != a);
    }
}

/// Law: for an indexed address, the sweep keeps exactly the messages at or
/// after the retention cutoff, in order; an emptied address reads back
/// empty afterwards.
pub proof fn lemma_sweep_prunes(v: Map<Seq<u8>, Seq<u8>>, a: Seq<u8>, now: u64, ret: u64)
    requires
        store_inv(v),
        read_index(v).contains(a),
    ensures
        read_msgs(sweep_view(v, now, ret), a) == kept_msgs(read_msgs(v, a), now, ret),
        addr_emptied(v, a, now, ret) ==> read_msgs(sweep_view(v, now, ret), a) == Seq::<
            UserMessageView,
        >::empty(),
{
    assert(v.contains_key(index_key()));
    let addrs = read_index(v);
    let x = choose|x: int| 0 <= x < addrs.len() && addrs[x] == a;
    assert(index_entry_ok(a));
    let w = sweep_view(v, now, ret);
    let v1 = sweep_addrs(v, addrs, now, ret);
    lemma_sweep_addrs_at(v, addrs, now, ret, x);
    assert(w.contains_key(a) == v1.contains_key(a) && (v1.contains_key(a) ==> w[a] == v1[a]));
    if !v.contains_key(a) {
        reveal(Seq::filter);
        assert(read_msgs(w, a) =~= kept_msgs(read_msgs(v, a), now, ret));
    } else {
        let blobs = read_blobs(v, a);
        let kb = kept_blobs(blobs, now, ret);
        assert(list_ok(v[a]));
        lemma_kept_map_commute(blobs, now, ret);
        if kb.len() == 0 {
            assert(read_msgs(w, a) =~= blob_msgs(kb));
        } else {
            lemma_kept_blobs_wf(blobs, now, ret);
            lemma_list_round_trip(kb);
            assert(read_blobs(w, a) == kb);
        }
    }
}

/// Law: after a sweep, an indexed address remains in the global index
/// exactly when some of its messages survived.
pub proof fn lemma_sweep_index_membership(v: Map<Seq<u8>, Seq<u8>>, a: Seq<u8>, now: u64, ret: u64)
    requires
        store_inv(v),
        read_index(v).contains(a),
    ensures
        read_index(sweep_view(v, now, ret)).contains(a) <==> !addr_emptied(v, a, now, ret),
{
    assert(v.contains_key(index_key()));
    let addrs = read_index(v);
    let pred = |aa: Seq<u8>| !addr_emptied(v, aa, now, ret);
    let x = choose|x: int| 0 <= x < addrs.len() && addrs[x] == a;
    lemma_sweep_view_inv(v, now, ret);
    assert(read_index(sweep_view(v, now, ret)) == addrs.filter(pred));
    if pred(a) {
        addrs.lemma_filter_contains(pred, x);
    }
    if addrs.filter(pred).contains(a) {
        let y = choose|y: int| 0 <= y < addrs.filter(pred).len() && addrs.filter(pred)[y] == a;
        addrs.lemma_filter_pred(pred, y);
    }
}

/// A sweep step that changes nothing for any listed address changes nothing
/// at all.
proof fn lemma_sweep_noop_addrs(u: Map<Seq<u8>, Seq<u8>>, addrs: Seq<Seq<u8>>, now: u64, ret: u64)
    requires
        forall|x: int| 0 <= x < addrs.len() ==> sweep_addr(u, #[trigger] addrs[x], now, ret) == u,
    ensures
        sweep_addrs(u, addrs, now, ret) == u,
    decreases addrs.len(),
{
    if addrs.len() > 0 {
        let rest = addrs.drop_last();
        assert(forall|x: int|
            0 <= x < rest.len() ==> sweep_addr(u, #[trigger] rest[x], now, ret) == u);
        lemma_sweep_noop_addrs(u, rest, now, ret);
        assert(addrs[addrs.len() - 1] == addrs.last());
    }
}

/// Law: running the sweep twice in a row, with no submissions in between,
/// leaves exactly the state of running it once.
pub proof fn lemma_sweep_idempotent(v: Map<Seq<u8>, Seq<u8>>, now: u64, ret: u64)
    requires
        store_inv(v),
    ensures
        sweep_view(sweep_view(v, now, ret), now, ret) == sweep_view(v, now, ret),
{
    let w = sweep_view(v, now, ret);
    lemma_sweep_view_inv(v, now, ret);
    if !v.contains_key(index_key()) {
        assert(w == v);
    } else {
        let addrs = read_index(v);
        let pred = |aa: Seq<u8>| !addr_emptied(v, aa, now, ret);
        let kept = sweep_index(v, now, ret);
        let v1 = sweep_addrs(v, addrs, now, ret);
        assert(forall|i: int| 0 <= i < addrs.len() ==> index_entry_ok(#[trigger] addrs[i]));
        assert(!addrs.contains(index_key())) by {
            if addrs.contains(index_key()) {
                let y = choose|y: int| 0 <= y < addrs.len() && addrs[y] == index_key();
                assert(index_entry_ok(addrs[y]));
            }
        }
        lemma_sweep_addrs_frame(v, addrs, now, ret, index_key());
        assert(w.contains_key(index_key()));
        assert(read_index(w) == kept);

        // Each surviving address is already fully pruned in `w`.
        assert forall|x: int| 0 <= x < kept.len() implies sweep_addr(
            w,
            #[trigger] kept[x],
            now,
            ret,
        ) == w && !addr_emptied(w, kept[x], now, ret) by {
            let a = kept[x];
            assert(kept.contains(a));
            addrs.lemma_filter_contains_rev(pred, a);
            let y = choose|y: int| 0 <= y < addrs.len() && addrs[y] == a;
            addrs.lemma_filter_pred(pred, x);
            assert(!addr_emptied(v, a, now, ret));
            assert(index_entry_ok(a));
            lemma_sweep_addrs_at(v, addrs, now, ret, y);
            if !v.contains_key(a) {
                assert(!w.contains_key(a));
                assert(sweep_addr(w, a, now, ret) == w);
            } else {
                let blobs = read_blobs(v, a);
                let kb = kept_blobs(blobs, now, ret);
                assert(kb.len() > 0);
                assert(list_ok(v[a]));
                lemma_kept_blobs_wf(blobs, now, ret);
                lemma_list_round_trip(kb);
                assert(w.contains_key(a) && w[a] == spec_encode_list(kb));
                assert(read_blobs(w, a) == kb);
                assert forall|i: int| 0 <= i < kb.len() implies keep_blob(
                    #[trigger] kb[i],
                    now,
                    ret,
                ) by {
                    blobs.lemma_filter_pred(|b: Seq<u8>| keep_blob(b, now, ret), i);
                }
                lemma_filter_all_true(kb, |b: Seq<u8>| keep_blob(b, now, ret));
                assert(kept_blobs(kb, now, ret) == kb);
                assert(sweep_addr(w, a, now, ret) == w.insert(a, spec_encode_list(kb)));
                assert(w.insert(a, spec_encode_list(kb)) =~= w);
            }
        }
        lemma_sweep_noop_addrs(w, kept, now, ret);
        let pred2 = |aa: Seq<u8>| !addr_emptied(w, aa, now, ret);
        assert(forall|x: int| 0 <= x < kept.len() ==> pred2(#[trigger] kept[x]));
        lemma_filter_all_true(kept, pred2);
        assert(sweep_index(w, now, ret) == kept);
        assert(sweep_view(w, now, ret) == sweep_addrs(w, kept, now, ret));
    }
}

} // verus!
