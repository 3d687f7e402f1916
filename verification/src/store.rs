//! The message store: validation, per-address append-only storage, the
//! global address index, and the time-based retention sweep.
//!
//! The store owns the backing key-value store; every operation is a plain
//! method call, so one owner serializes all access. The whole state is
//! viewed as the backing store's map from keys to raw bytes.

use vstd::prelude::*;

use crate::bytes::bytes_clone;
use crate::bytes::bytes_eq;
use crate::codec::MAX_BLOB_COUNT;
use crate::codec::blob_views;
use crate::codec::blobs_wf;
use crate::codec::contains_blob;
use crate::codec::decode_list;
use crate::codec::encode_list;
use crate::codec::lemma_list_round_trip;
use crate::codec::spec_decode_list;
use crate::codec::spec_encode_list;
use crate::kv::KvStore;
use crate::message::MAX_ADDRESS_SIZE_BYTES;
use crate::message::StoreError;
use crate::message::StoreMessageRequest;
use crate::message::UserMessage;
use crate::message::UserMessageView;
use crate::message::decode_message;
use crate::message::encode_message;
use crate::message::index_key;
use crate::message::index_key_bytes;
use crate::message::lemma_decode_msg_len;
use crate::message::lemma_msg_round_trip;
use crate::message::msg_views;
use crate::message::spec_decode_msg;
use crate::message::spec_encode_msg;
use crate::message::spec_validate;
use crate::message::validate_request;

verus! {

/// Default retention: messages older than this many seconds are pruned.
pub const DEFAULT_RETENTION_SECS: u64 = 1814400;

/// The blob list stored under key `a`: the decoded value, or empty when the
/// key is absent.
pub open spec fn read_blobs(v: Map<Seq<u8>, Seq<u8>>, a: Seq<u8>) -> Seq<Seq<u8>> {
    if v.contains_key(a) {
        match spec_decode_list(v[a]) {
            Some(l) => l,
            None => Seq::empty(),
        }
    } else {
        Seq::empty()
    }
}

/// The global address index: the decoded reserved entry, or empty when
/// absent.
pub open spec fn read_index(v: Map<Seq<u8>, Seq<u8>>) -> Seq<Seq<u8>> {
    read_blobs(v, index_key())
}

/// The message an encoded blob stands for.
pub open spec fn blob_msg(b: Seq<u8>) -> UserMessageView {
    spec_decode_msg(b)->0
}

/// The messages a sequence of encoded blobs stands for.
pub open spec fn blob_msgs(blobs: Seq<Seq<u8>>) -> Seq<UserMessageView> {
    blobs.map_values(|b: Seq<u8>| blob_msg(b))
}

/// The messages stored under address `a`, in insertion order.
pub open spec fn read_msgs(v: Map<Seq<u8>, Seq<u8>>, a: Seq<u8>) -> Seq<UserMessageView> {
    if a == index_key() {
        Seq::empty()
    } else {
        blob_msgs(read_blobs(v, a))
    }
}

/// An address the index may carry: sized like a user address and distinct
/// from the reserved key.
pub open spec fn index_entry_ok(a: Seq<u8>) -> bool {
    &&& 1 <= a.len() <= MAX_ADDRESS_SIZE_BYTES
    &&& a != index_key()
}

/// The reserved entry, when present, decodes to a duplicate-free sequence of
/// well-sized addresses.
pub open spec fn index_ok(v: Map<Seq<u8>, Seq<u8>>) -> bool {
    v.contains_key(index_key()) ==> {
        let d = spec_decode_list(v[index_key()]);
        &&& d is Some
        &&& (d->0).len() <= MAX_BLOB_COUNT
        &&& forall|i: int| 0 <= i < (d->0).len() ==> index_entry_ok(#[trigger] (d->0)[i])
        &&& forall|i: int, j: int| 0 <= i < j < (d->0).len() ==> (d->0)[i] != (d->0)[j]
    }
}

/// A per-address value: a non-empty encoded list whose every blob is an
/// encoded message.
pub open spec fn list_ok(val: Seq<u8>) -> bool {
    let d = spec_decode_list(val);
    &&& d is Some
    &&& 0 < (d->0).len() <= MAX_BLOB_COUNT
    &&& forall|i: int| 0 <= i < (d->0).len() ==> spec_decode_msg(#[trigger] (d->0)[i]) is Some
}

/// The store's internal invariant: everything stored decodes, lists are
/// never empty, the index is duplicate-free. Constructors establish it and
/// every operation preserves it.
pub open spec fn store_inv(v: Map<Seq<u8>, Seq<u8>>) -> bool {
    &&& index_ok(v)
    &&& forall|k: Seq<u8>|
        #[trigger] v.contains_key(k) && k != index_key() ==> list_ok(v[k])
}

/// The per-address blob list after a submission: the old list with the
/// encoded message appended.
pub open spec fn submit_list_blobs(v: Map<Seq<u8>, Seq<u8>>, m: UserMessageView) -> Seq<Seq<u8>> {
    read_blobs(v, m.address).push(spec_encode_msg(m))
}

/// The index after a submission: unchanged when the address is already
/// known, else with the address appended.
pub open spec fn submit_index(v: Map<Seq<u8>, Seq<u8>>, m: UserMessageView) -> Seq<Seq<u8>> {
    let idx = read_index(v);
    if idx.contains(m.address) {
        idx
    } else {
        idx.push(m.address)
    }
}

/// The whole store after a successful submission: the address's list grows
/// by the message, and the index records the address.
pub open spec fn submit_view(v: Map<Seq<u8>, Seq<u8>>, m: UserMessageView) -> Map<
    Seq<u8>,
    Seq<u8>,
> {
    v.insert(m.address, spec_encode_list(submit_list_blobs(v, m))).insert(
        index_key(),
        spec_encode_list(submit_index(v, m)),
    )
}

/// The layout's count fields leave room for this submission.
pub open spec fn submit_fits(v: Map<Seq<u8>, Seq<u8>>, m: UserMessageView) -> bool {
    &&& read_blobs(v, m.address).len() < MAX_BLOB_COUNT
    &&& (read_index(v).contains(m.address) || read_index(v).len() < MAX_BLOB_COUNT)
}

/// Everything `store_message` promises: validation rejections leave the
/// store untouched; an accepted message is appended and indexed; the only
/// other outcome is a full counter, which also leaves the store untouched.
pub open spec fn store_message_post(
    pre: Map<Seq<u8>, Seq<u8>>,
    post: Map<Seq<u8>, Seq<u8>>,
    req: Option<UserMessageView>,
    now: u64,
    r: Result<(), StoreError>,
) -> bool {
    match spec_validate(req, now) {
        Some(e) => r == Err::<(), StoreError>(e) && post == pre,
        None => {
            let m = req->0;
            if submit_fits(pre, m) {
                r == Ok::<(), StoreError>(()) && post == submit_view(pre, m)
            } else {
                r == Err::<(), StoreError>(StoreError::Internal) && post == pre
            }
        },
    }
}

/// A message young enough to keep at time `now` under retention `ret`: its
/// `created` stamp lies at or after the cutoff (the boundary is kept).
pub open spec fn keep_msg(m: UserMessageView, now: u64, ret: u64) -> bool {
    m.created >= now - ret
}

/// The retention rule lifted to an encoded blob.
pub open spec fn keep_blob(b: Seq<u8>, now: u64, ret: u64) -> bool {
    keep_msg(blob_msg(b), now, ret)
}

/// The blobs of a list that survive the sweep.
pub open spec fn kept_blobs(blobs: Seq<Seq<u8>>, now: u64, ret: u64) -> Seq<Seq<u8>> {
    blobs.filter(|b: Seq<u8>| keep_blob(b, now, ret))
}

/// The messages of a sequence that survive the sweep.
pub open spec fn kept_msgs(msgs: Seq<UserMessageView>, now: u64, ret: u64) -> Seq<
    UserMessageView,
> {
    msgs.filter(|m: UserMessageView| keep_msg(m, now, ret))
}

/// One address processed by the sweep: an absent key is left alone; an
/// emptied list is deleted; a shortened list is rewritten.
pub open spec fn sweep_addr(v: Map<Seq<u8>, Seq<u8>>, a: Seq<u8>, now: u64, ret: u64) -> Map<
    Seq<u8>,
    Seq<u8>,
> {
    if !v.contains_key(a) {
        v
    } else {
        let kb = kept_blobs(read_blobs(v, a), now, ret);
        if kb.len() == 0 {
            v.remove(a)
        } else {
            v.insert(a, spec_encode_list(kb))
        }
    }
}

/// The sweep applied to a sequence of addresses, in order.
pub open spec fn sweep_addrs(
    v: Map<Seq<u8>, Seq<u8>>,
    addrs: Seq<Seq<u8>>,
    now: u64,
    ret: u64,
) -> Map<Seq<u8>, Seq<u8>>
    decreases addrs.len(),
{
    if addrs.len() == 0 {
        v
    } else {
        sweep_addr(sweep_addrs(v, addrs.drop_last(), now, ret), addrs.last(), now, ret)
    }
}

/// The sweep empties this address's list entirely.
pub open spec fn addr_emptied(v: Map<Seq<u8>, Seq<u8>>, a: Seq<u8>, now: u64, ret: u64) -> bool {
    v.contains_key(a) && kept_blobs(read_blobs(v, a), now, ret).len() == 0
}

/// The index after a sweep: the emptied addresses drop out.
pub open spec fn sweep_index(v: Map<Seq<u8>, Seq<u8>>, now: u64, ret: u64) -> Seq<Seq<u8>> {
    read_index(v).filter(|a: Seq<u8>| !addr_emptied(v, a, now, ret))
}

/// The whole store after a sweep: with no index there is nothing to do;
/// otherwise every indexed address is pruned, and the index is rewritten
/// only when some address was emptied.
pub open spec fn sweep_view(v: Map<Seq<u8>, Seq<u8>>, now: u64, ret: u64) -> Map<Seq<u8>, Seq<u8>> {
    if !v.contains_key(index_key()) {
        v
    } else {
        let addrs = read_index(v);
        let v1 = sweep_addrs(v, addrs, now, ret);
        let kept = sweep_index(v, now, ret);
        if kept.len() == addrs.len() {
            v1
        } else {
            v1.insert(index_key(), spec_encode_list(kept))
        }
    }
}

/// Runtime check of the retention cutoff (inclusive: a message exactly at
/// the boundary is kept).
pub fn check_keep_msg(created: u64, now: u64, ret: u64) -> (r: bool)
    ensures
        r == (created >= now - ret),
{
    if now >= ret {
        created >= now - ret
    } else {
        true
    }
}

/// Keys outside the processed address list are untouched by the sweep.
pub proof fn lemma_sweep_addrs_frame(
    v: Map<Seq<u8>, Seq<u8>>,
    addrs: Seq<Seq<u8>>,
    now: u64,
    ret: u64,
    k: Seq<u8>,
)
    requires
        !addrs.contains(k),
    ensures
        sweep_addrs(v, addrs, now, ret).contains_key(k) == v.contains_key(k),
        v.contains_key(k) ==> sweep_addrs(v, addrs, now, ret)[k] == v[k],
    decreases addrs.len(),
{
    if addrs.len() > 0 {
        assert(!addrs.drop_last().contains(k)) by {
            if addrs.drop_last().contains(k) {
                let x = choose|x: int|
                    0 <= x < addrs.drop_last().len() && addrs.drop_last()[x] == k;
                assert(addrs[x] == k);
            }
        }
        lemma_sweep_addrs_frame(v, addrs.drop_last(), now, ret, k);
        assert(addrs.last() != k);
    }
}

/// Filtering keeps a duplicate-free sequence of byte strings duplicate-free.
pub proof fn lemma_filter_distinct_bytes(s: Seq<Seq<u8>>, p: spec_fn(Seq<u8>) -> bool)
    requires
        forall|i: int, j: int| 0 <= i < j < s.len() ==> s[i] != s[j],
    ensures
        forall|i: int, j: int|
            0 <= i < j < s.filter(p).len() ==> s.filter(p)[i] != s.filter(p)[j],
    decreases s.len(),
{
    reveal(Seq::filter);
    if s.len() > 0 {
        let rest = s.drop_last();
        assert(forall|i: int, j: int| 0 <= i < j < rest.len() ==> rest[i] != rest[j]);
        lemma_filter_distinct_bytes(rest, p);
        if p(s.last()) {
            assert(s.filter(p) == rest.filter(p).push(s.last()));
            assert forall|i: int, j: int|
                0 <= i < j < s.filter(p).len() implies s.filter(p)[i] != s.filter(p)[j] by {
                if j == s.filter(p).len() - 1 {
                    assert(rest.filter(p).contains(rest.filter(p)[i]));
                    rest.lemma_filter_contains_rev(p, rest.filter(p)[i]);
                    let x = choose|x: int| 0 <= x < rest.len() && rest[x] == s.filter(p)[i];
                    assert(s[x] == s.filter(p)[i]);
                    assert(s.last() != s[x]);
                }
            }
        }
    }
}

/// A filter that keeps every element returns the sequence unchanged.
pub proof fn lemma_filter_all_true(s: Seq<Seq<u8>>, p: spec_fn(Seq<u8>) -> bool)
    requires
        forall|i: int| 0 <= i < s.len() ==> p(#[trigger] s[i]),
    ensures
        s.filter(p) == s,
    decreases s.len(),
{
    reveal(Seq::filter);
    if s.len() > 0 {
        let rest = s.drop_last();
        assert(forall|i: int| 0 <= i < rest.len() ==> p(#[trigger] rest[i]));
        lemma_filter_all_true(rest, p);
        assert(p(s.last()));
        assert(rest.push(s.last()) =~= s);
    }
}

/// A filter that keeps the whole length kept every element.
pub proof fn lemma_filter_len_eq(s: Seq<Seq<u8>>, p: spec_fn(Seq<u8>) -> bool)
    requires
        s.filter(p).len() == s.len(),
    ensures
        s.filter(p) == s,
        forall|i: int| 0 <= i < s.len() ==> p(#[trigger] s[i]),
    decreases s.len(),
{
    reveal(Seq::filter);
    if s.len() > 0 {
        let rest = s.drop_last();
        rest.lemma_filter_len(p);
        assert(p(s.last()));
        lemma_filter_len_eq(rest, p);
        assert(rest.push(s.last()) =~= s);
    }
}

/// Every surviving blob comes from the unfiltered list.
pub proof fn lemma_kept_blob_source(blobs: Seq<Seq<u8>>, now: u64, ret: u64, i: int)
    requires
        0 <= i < kept_blobs(blobs, now, ret).len(),
    ensures
        exists|x: int| 0 <= x < blobs.len() && blobs[x] == kept_blobs(blobs, now, ret)[i],
{
    let kb = kept_blobs(blobs, now, ret);
    assert(kb.contains(kb[i]));
    blobs.lemma_filter_contains_rev(|b: Seq<u8>| keep_blob(b, now, ret), kb[i]);
    let x = choose|x: int| 0 <= x < blobs.len() && blobs[x] == kb[i];
}

/// Sweeping one non-reserved address preserves the store invariant.
pub proof fn lemma_sweep_addr_inv(v: Map<Seq<u8>, Seq<u8>>, a: Seq<u8>, now: u64, ret: u64)
    requires
        store_inv(v),
        a != index_key(),
    ensures
        store_inv(sweep_addr(v, a, now, ret)),
{
    let w = sweep_addr(v, a, now, ret);
    if v.contains_key(a) {
        let blobs = read_blobs(v, a);
        let kb = kept_blobs(blobs, now, ret);
        blobs.lemma_filter_len(|b: Seq<u8>| keep_blob(b, now, ret));
        if kb.len() == 0 {
            assert forall|k: Seq<u8>| #[trigger] w.contains_key(k) && k != index_key()
                implies list_ok(w[k]) by {
                assert(v.contains_key(k));
            }
        } else {
            assert forall|i: int| 0 <= i < kb.len() implies spec_decode_msg(
                #[trigger] kb[i],
            ) is Some by {
                lemma_kept_blob_source(blobs, now, ret, i);
            }
            assert forall|i: int| 0 <= i < kb.len() implies (#[trigger] kb[i]).len()
                <= MAX_BLOB_COUNT by {
                lemma_kept_blob_source(blobs, now, ret, i);
                let x = choose|x: int| 0 <= x < blobs.len() && blobs[x] == kb[i];
                assert(spec_decode_msg(blobs[x]) is Some);
                lemma_decode_msg_len(blobs[x]);
            }
            assert(blobs_wf(kb));
            lemma_list_round_trip(kb);
            assert(list_ok(spec_encode_list(kb)));
            assert forall|k: Seq<u8>| #[trigger] w.contains_key(k) && k != index_key()
                implies list_ok(w[k]) by {
                if k != a {
                    assert(v.contains_key(k));
                }
            }
        }
    }
}

/// Sweeping a sequence of non-reserved addresses preserves the invariant.
pub proof fn lemma_sweep_addrs_inv(
    v: Map<Seq<u8>, Seq<u8>>,
    addrs: Seq<Seq<u8>>,
    now: u64,
    ret: u64,
)
    requires
        store_inv(v),
        forall|i: int| 0 <= i < addrs.len() ==> (#[trigger] addrs[i]) != index_key(),
    ensures
        store_inv(sweep_addrs(v, addrs, now, ret)),
    decreases addrs.len(),
{
    if addrs.len() > 0 {
        lemma_sweep_addrs_inv(v, addrs.drop_last(), now, ret);
        lemma_sweep_addr_inv(sweep_addrs(v, addrs.drop_last(), now, ret), addrs.last(), now, ret);
    }
}

/// The sweep preserves the store invariant.
pub proof fn lemma_sweep_view_inv(v: Map<Seq<u8>, Seq<u8>>, now: u64, ret: u64)
    requires
        store_inv(v),
    ensures
        store_inv(sweep_view(v, now, ret)),
        read_index(sweep_view(v, now, ret)) == sweep_index(v, now, ret),
{
    if !v.contains_key(index_key()) {
        reveal(Seq::filter);
        assert(read_index(v).filter(|a: Seq<u8>| !addr_emptied(v, a, now, ret)) =~= Seq::<
            Seq<u8>,
        >::empty());
    } else {
        let addrs = read_index(v);
        let pred = |a: Seq<u8>| !addr_emptied(v, a, now, ret);
        let v1 = sweep_addrs(v, addrs, now, ret);
        let kept = sweep_index(v, now, ret);
        assert(forall|i: int| 0 <= i < addrs.len() ==> index_entry_ok(#[trigger] addrs[i]));
        lemma_sweep_addrs_inv(v, addrs, now, ret);
        assert(!addrs.contains(index_key())) by {
            if addrs.contains(index_key()) {
                let x = choose|x: int| 0 <= x < addrs.len() && addrs[x] == index_key();
                assert(index_entry_ok(addrs[x]));
            }
        }
        lemma_sweep_addrs_frame(v, addrs, now, ret, index_key());
        assert(read_index(v1) == addrs);
        if kept.len() == addrs.len() {
            lemma_filter_len_eq(addrs, pred);
        } else {
            let w = sweep_view(v, now, ret);
            assert(w == v1.insert(index_key(), spec_encode_list(kept)));
            addrs.lemma_filter_len(pred);
            assert forall|i: int| 0 <= i < kept.len() implies index_entry_ok(
                #[trigger] kept[i],
            ) by {
                assert(kept.contains(kept[i]));
                addrs.lemma_filter_contains_rev(pred, kept[i]);
                let x = choose|x: int| 0 <= x < addrs.len() && addrs[x] == kept[i];
            }
            assert forall|i: int| 0 <= i < kept.len() implies (#[trigger] kept[i]).len()
                <= MAX_BLOB_COUNT by {
                assert(index_entry_ok(kept[i]));
            }
            assert(blobs_wf(kept));
            lemma_list_round_trip(kept);
            lemma_filter_distinct_bytes(addrs, pred);
            assert(index_ok(w));
            assert forall|k: Seq<u8>| #[trigger] w.contains_key(k) && k != index_key()
                implies list_ok(w[k]) by {
                assert(v1.contains_key(k));
            }
            assert(read_index(w) == kept);
        }
    }
}

/// The message store: one per process, owner of the backing store.
pub struct MessageStore {
    kv: KvStore,
    retention_secs: u64,
}

impl View for MessageStore {
    type V = Map<Seq<u8>, Seq<u8>>;

    closed spec fn view(&self) -> Map<Seq<u8>, Seq<u8>> {
        self.kv@
    }
}

impl MessageStore {
    #[verifier::type_invariant]
    spec fn wf(self) -> bool {
        store_inv(self.kv@)
    }

    /// The configured retention duration, in seconds.
    pub closed spec fn retention(&self) -> u64 {
        self.retention_secs
    }

    /// A live store's state always satisfies the store invariant, so the
    /// laws stated over `store_inv` apply to it.
    pub fn invariant_holds(&self)
        ensures
            store_inv(self@),
    {
        proof {
            use_type_invariant(&*self);
        }
    }

    /// A fresh, empty store with the default retention duration.
    pub fn new() -> (r: MessageStore)
        ensures
            r@ == Map::<Seq<u8>, Seq<u8>>::empty(),
            r.retention() == DEFAULT_RETENTION_SECS,
    {
        let kv = KvStore::new();
        proof {
            assert(store_inv(kv@));
        }
        MessageStore { kv, retention_secs: DEFAULT_RETENTION_SECS }
    }

    /// Reconfigures the retention duration; stored data is untouched.
    pub fn set_retention(&mut self, secs: u64)
        ensures
            final(self)@ == old(self)@,
            final(self).retention() == secs,
    {
        proof {
            use_type_invariant(&*self);
        }
        self.retention_secs = secs;
    }

    /// The configured retention duration.
    pub fn retention_seconds(&self) -> (r: u64)
        ensures
            r == self.retention(),
    {
        self.retention_secs
    }

    /// Returns all messages stored under `address`, oldest first; an unknown
    /// address yields an empty list, never an error.
    pub fn get_messages(&self, address: &Vec<u8>) -> (r: Result<Vec<UserMessage>, StoreError>)
        ensures
            r matches Ok(ms) && msg_views(ms@) == read_msgs(self@, address@),
    {
        proof {
            use_type_invariant(&*self);
        }
        let ik = index_key_bytes();
        if bytes_eq(address, &ik) {
            let out: Vec<UserMessage> = Vec::new();
            proof {
                assert(msg_views(out@) =~= read_msgs(self@, address@));
            }
            return Ok(out);
        }
        match self.kv.get(address) {
            None => {
                let out: Vec<UserMessage> = Vec::new();
                proof {
                    assert(msg_views(out@) =~= read_msgs(self@, address@));
                }
                Ok(out)
            },
            Some(bytes) => {
                proof {
                    assert(self@.contains_key(address@));
                    assert(list_ok(self@[address@]));
                }
                match decode_list(&bytes) {
                    None => {
                        proof {
                            assert(false);
                        }
                        Err(StoreError::Corruption)
                    },
                    Some(blobs) => {
                        let ghost bl = blob_views(blobs@);
                        proof {
                            assert(read_blobs(self@, address@) == bl);
                        }
                        let mut out: Vec<UserMessage> = Vec::new();
                        let mut i: usize = 0;
                        while i < blobs.len()
                            invariant
                                i <= blobs@.len(),
                                bl == blob_views(blobs@),
                                bl.len() == blobs@.len(),
                                forall|j: int| 0 <= j < bl.len() ==> spec_decode_msg(
                                    #[trigger] bl[j],
                                ) is Some,
                                out@.len() == i,
                                forall|j: int| 0 <= j < i ==> (#[trigger] out@[j])@ == blob_msg(
                                    bl[j],
                                ),
                            decreases blobs@.len() - i,
                        {
                            proof {
                                assert(bl[i as int] == blobs@[i as int]@);
                            }
                            match decode_message(&blobs[i]) {
                                None => {
                                    proof {
                                        assert(false);
                                    }
                                    return Err(StoreError::Corruption);
                                },
                                Some(m) => {
                                    out.push(m);
                                },
                            }
                            i = i + 1;
                        }
                        proof {
                            assert(msg_views(out@) =~= read_msgs(self@, address@));
                        }
                        Ok(out)
                    },
                }
            },
        }
    }

    /// The addresses currently recorded in the global index.
    pub fn known_addresses(&self) -> (r: Vec<Vec<u8>>)
        ensures
            blob_views(r@) == read_index(self@),
    {
        proof {
            use_type_invariant(&*self);
        }
        let ik = index_key_bytes();
        match self.kv.get(&ik) {
            None => {
                let r: Vec<Vec<u8>> = Vec::new();
                proof {
                    assert(blob_views(r@) =~= read_index(self@));
                }
                r
            },
            Some(bytes) => {
                match decode_list(&bytes) {
                    Some(l) => l,
                    None => {
                        proof {
                            assert(self@.contains_key(index_key()));
                            assert(false);
                        }
                        Vec::new()
                    },
                }
            },
        }
    }

    /// Validates and stores one message: appends it to its address's list
    /// and records the address in the global index, both durably and in one
    /// step. Rejections and failures leave the store exactly as it was.
    pub fn store_message(&mut self, req: &StoreMessageRequest, now: u64) -> (r: Result<
        (),
        StoreError,
    >)
        ensures
            store_message_post(old(self)@, final(self)@, req@, now, r),
            final(self).retention() == old(self).retention(),
    {
        proof {
            use_type_invariant(&*self);
        }
        if let Some(e) = validate_request(req, now) {
            return Err(e);
        }
        let m = match &req.user_message {
            Some(m) => m,
            None => {
                return Err(StoreError::MissingMessage);
            },
        };
        let ghost v0 = self.kv@;
        let ghost a = m.address@;

        // Read and decode the existing list for this address.
        let mut blobs: Vec<Vec<u8>> = match self.kv.get(&m.address) {
            Some(bytes) => {
                proof {
                    assert(v0.contains_key(a));
                    assert(list_ok(v0[a]));
                }
                match decode_list(&bytes) {
                    Some(l) => l,
                    None => {
                        proof {
                            assert(false);
                        }
                        return Err(StoreError::Corruption);
                    },
                }
            },
            None => Vec::new(),
        };
        proof {
            assert(read_blobs(v0, a) =~= blob_views(blobs@));
        }
        if blobs.len() as u64 >= MAX_BLOB_COUNT {
            return Err(StoreError::Internal);
        }

        // Read and decode the global index.
        let ik = index_key_bytes();
        let mut addrs: Vec<Vec<u8>> = match self.kv.get(&ik) {
            Some(bytes) => {
                match decode_list(&bytes) {
                    Some(l) => l,
                    None => {
                        proof {
                            assert(false);
                        }
                        return Err(StoreError::Corruption);
                    },
                }
            },
            None => Vec::new(),
        };
        proof {
            assert(read_index(v0) =~= blob_views(addrs@));
        }
        let present = contains_blob(&addrs, &m.address);
        if !present && addrs.len() as u64 >= MAX_BLOB_COUNT {
            return Err(StoreError::Internal);
        }

        // Build the new list value.
        let enc = encode_message(m);
        blobs.push(enc);
        proof {
            assert(blob_views(blobs@) =~= submit_list_blobs(v0, m@));
            assert forall|i: int| 0 <= i < blob_views(blobs@).len() implies (#[trigger] blob_views(
                blobs@,
            )[i]).len() <= MAX_BLOB_COUNT by {
                let b = blob_views(blobs@)[i];
                assert(spec_decode_msg(b) is Some);
                lemma_decode_msg_len(b);
            }
            assert(blobs_wf(blob_views(blobs@)));
        }
        let list_value = encode_list(&blobs);

        // Build the new index value.
        if !present {
            addrs.push(bytes_clone(&m.address));
        }
        proof {
            assert(blob_views(addrs@) =~= submit_index(v0, m@));
            assert(blobs_wf(blob_views(addrs@)));
        }
        let index_value = encode_list(&addrs);

        // Write both keys.
        let mut kv = KvStore::new();
        std::mem::swap(&mut kv, &mut self.kv);
        kv.put(bytes_clone(&m.address), list_value);
        kv.put(ik, index_value);
        proof {
            assert(kv@ == submit_view(v0, m@));
            lemma_submit_view_inv(v0, m@, now);
        }
        self.kv = kv;
        Ok(())
    }

    /// The retention sweep: prunes every indexed address's list of messages
    /// older than the retention duration, deletes addresses whose lists are
    /// emptied, and removes them from the global index. Idempotent; with no
    /// index present it succeeds trivially.
    pub fn delete_old_messages(&mut self, now: u64) -> (r: Result<(), StoreError>)
        ensures
            r == Ok::<(), StoreError>(()),
            final(self)@ == sweep_view(old(self)@, now, old(self).retention()),
            final(self).retention() == old(self).retention(),
    {
        proof {
            use_type_invariant(&*self);
        }
        let ret = self.retention_secs;
        let ghost v0 = self.kv@;
        let ik = index_key_bytes();
        let idx_bytes = match self.kv.get(&ik) {
            None => {
                return Ok(());
            },
            Some(b) => b,
        };
        let addrs: Vec<Vec<u8>> = match decode_list(&idx_bytes) {
            Some(l) => l,
            None => {
                proof {
                    assert(v0.contains_key(index_key()));
                    assert(false);
                }
                return Err(StoreError::Corruption);
            },
        };
        let ghost aviews = blob_views(addrs@);
        let ghost empt = |a: Seq<u8>| !addr_emptied(v0, a, now, ret);
        proof {
            assert(v0.contains_key(index_key()));
            assert(read_index(v0) == aviews);
        }

        let mut kept_addrs: Vec<Vec<u8>> = Vec::new();
        let mut removed_any = false;
        let mut kv = KvStore::new();
        std::mem::swap(&mut kv, &mut self.kv);

        let mut i: usize = 0;
        while i < addrs.len()
            invariant
                i <= addrs@.len(),
                aviews == blob_views(addrs@),
                aviews.len() == addrs@.len(),
                store_inv(v0),
                v0.contains_key(index_key()),
                read_index(v0) == aviews,
                aviews.len() <= MAX_BLOB_COUNT,
                forall|x: int| 0 <= x < aviews.len() ==> index_entry_ok(#[trigger] aviews[x]),
                forall|x: int, y: int| 0 <= x < y < aviews.len() ==> aviews[x] != aviews[y],
                empt == (|a: Seq<u8>| !addr_emptied(v0, a, now, ret)),
                kv@ == sweep_addrs(v0, aviews.take(i as int), now, ret),
                blob_views(kept_addrs@) == aviews.take(i as int).filter(empt),
                removed_any == (blob_views(kept_addrs@).len() < i),
            decreases addrs@.len() - i,
        {
            let a = &addrs[i];
            proof {
                assert(aviews[i as int] == a@);
                assert(index_entry_ok(a@));
                assert(!aviews.take(i as int).contains(a@)) by {
                    if aviews.take(i as int).contains(a@) {
                        let x = choose|x: int|
                            0 <= x < i && aviews.take(i as int)[x] == a@;
                        assert(aviews[x] == aviews[i as int]);
                    }
                }
                lemma_sweep_addrs_frame(v0, aviews.take(i as int), now, ret, a@);
                assert(aviews.take(i as int).filter(empt).len() <= i) by {
                    aviews.take(i as int).lemma_filter_len(empt);
                }
            }
            let ghost kv_pre = kv@;
            match kv.get(a) {
                None => {
                    kept_addrs.push(bytes_clone(a));
                    proof {
                        assert(!v0.contains_key(a@));
                        assert(sweep_addr(kv_pre, a@, now, ret) == kv_pre);
                        assert(aviews.take(i as int + 1).drop_last() =~= aviews.take(i as int));
                        assert(kv@ == sweep_addrs(v0, aviews.take(i as int + 1), now, ret));
                        assert(empt(a@));
                        reveal(Seq::<Seq<u8>>::filter);
                        assert(blob_views(kept_addrs@) =~= aviews.take(i as int + 1).filter(
                            empt,
                        ));
                    }
                },
                Some(bytes) => {
                    proof {
                        assert(v0.contains_key(a@));
                        assert(list_ok(v0[a@]));
                        assert(bytes@ == v0[a@]);
                    }
                    let blobs: Vec<Vec<u8>> = match decode_list(&bytes) {
                        Some(l) => l,
                        None => {
                            proof {
                                assert(false);
                            }
                            return Err(StoreError::Corruption);
                        },
                    };
                    let ghost bviews = blob_views(blobs@);
                    proof {
                        assert(read_blobs(v0, a@) == bviews);
                    }
                    let mut kept: Vec<Vec<u8>> = Vec::new();
                    let mut j: usize = 0;
                    while j < blobs.len()
                        invariant
                            j <= blobs@.len(),
                            bviews == blob_views(blobs@),
                            bviews.len() == blobs@.len(),
                            forall|x: int| 0 <= x < bviews.len() ==> spec_decode_msg(
                                #[trigger] bviews[x],
                            ) is Some,
                            blob_views(kept@) == kept_blobs(bviews.take(j as int), now, ret),
                            forall|x: int| 0 <= x < blob_views(kept@).len()
                                ==> spec_decode_msg(#[trigger] blob_views(kept@)[x]) is Some,
                            forall|x: int| 0 <= x < blob_views(kept@).len()
                                ==> (#[trigger] blob_views(kept@)[x]).len() <= MAX_BLOB_COUNT,
                            blob_views(kept@).len() <= j,
                        decreases blobs@.len() - j,
                    {
                        proof {
                            assert(bviews[j as int] == blobs@[j as int]@);
                        }
                        let ghost kept_pre = blob_views(kept@);
                        match decode_message(&blobs[j]) {
                            None => {
                                proof {
                                    assert(false);
                                }
                                return Err(StoreError::Corruption);
                            },
                            Some(msg) => {
                                if check_keep_msg(msg.created, now, ret) {
                                    proof {
                                        lemma_decode_msg_len(bviews[j as int]);
                                    }
                                    kept.push(bytes_clone(&blobs[j]));
                                }
                            },
                        }
                        proof {
                            reveal(Seq::<Seq<u8>>::filter);
                            assert(bviews.take(j as int + 1).drop_last() =~= bviews.take(
                                j as int,
                            ));
                            assert(bviews.take(j as int + 1).last() == bviews[j as int]);
                            assert(blob_views(kept@) =~= kept_blobs(
                                bviews.take(j as int + 1),
                                now,
                                ret,
                            ));
                        }
                        j = j + 1;
                    }
                    proof {
                        assert(bviews.take(bviews.len() as int) =~= bviews);
                        assert(blob_views(kept@) == kept_blobs(read_blobs(v0, a@), now, ret));
                    }
                    if kept.len() == 0 {
                        kv.delete(a);
                        removed_any = true;
                        proof {
                            assert(addr_emptied(v0, a@, now, ret));
                            assert(read_blobs(kv_pre, a@) == read_blobs(v0, a@));
                            assert(sweep_addr(kv_pre, a@, now, ret) == kv_pre.remove(a@));
                            assert(aviews.take(i as int + 1).drop_last() =~= aviews.take(
                                i as int,
                            ));
                            assert(kv@ == sweep_addrs(v0, aviews.take(i as int + 1), now, ret));
                            assert(!empt(a@));
                            reveal(Seq::<Seq<u8>>::filter);
                            assert(blob_views(kept_addrs@) =~= aviews.take(i as int + 1).filter(
                                empt,
                            ));
                        }
                    } else {
                        proof {
                            assert(blobs_wf(blob_views(kept@))) by {
                                bviews.lemma_filter_len(|b: Seq<u8>| keep_blob(b, now, ret));
                            }
                        }
                        let value = encode_list(&kept);
                        kv.put(bytes_clone(a), value);
                        kept_addrs.push(bytes_clone(a));
                        proof {
                            assert(!addr_emptied(v0, a@, now, ret));
                            assert(read_blobs(kv_pre, a@) == read_blobs(v0, a@));
                            assert(sweep_addr(kv_pre, a@, now, ret) == kv_pre.insert(
                                a@,
                                spec_encode_list(kept_blobs(read_blobs(v0, a@), now, ret)),
                            ));
                            assert(aviews.take(i as int + 1).drop_last() =~= aviews.take(
                                i as int,
                            ));
                            assert(kv@ == sweep_addrs(v0, aviews.take(i as int + 1), now, ret));
                            assert(empt(a@));
                            reveal(Seq::<Seq<u8>>::filter);
                            assert(blob_views(kept_addrs@) =~= aviews.take(i as int + 1).filter(
                                empt,
                            ));
                        }
                    }
                },
            }
            i = i + 1;
        }
        proof {
            assert(aviews.take(aviews.len() as int) =~= aviews);
            assert(kv@ == sweep_addrs(v0, aviews, now, ret));
            assert(blob_views(kept_addrs@) == sweep_index(v0, now, ret));
        }
        if removed_any {
            proof {
                assert(blobs_wf(blob_views(kept_addrs@))) by {
                    aviews.lemma_filter_len(empt);
                    assert forall|x: int| 0 <= x < blob_views(kept_addrs@).len()
                        implies (#[trigger] blob_views(kept_addrs@)[x]).len()
                        <= MAX_BLOB_COUNT by {
                        let kept = blob_views(kept_addrs@);
                        assert(kept.contains(kept[x]));
                        aviews.lemma_filter_contains_rev(empt, kept[x]);
                        let y = choose|y: int| 0 <= y < aviews.len() && aviews[y] == kept[x];
                        assert(index_entry_ok(aviews[y]));
                    }
                }
            }
            let index_value = encode_list(&kept_addrs);
            kv.put(ik, index_value);
            proof {
                assert(kv@ == sweep_view(v0, now, ret));
                lemma_sweep_view_inv(v0, now, ret);
            }
        } else {
            proof {
                assert(sweep_index(v0, now, ret).len() == aviews.len());
                assert(kv@ == sweep_view(v0, now, ret));
                lemma_sweep_view_inv(v0, now, ret);
            }
        }
        self.kv = kv;
        Ok(())
    }
}

/// Relies on chrono::Utc::now and chrono::DateTime::timestamp: the current
/// wall-clock time as whole seconds since the Unix epoch, cast to u64.
/// Nothing can be promised of the clock's value; chrono itself aborts if
/// the system clock stands before the epoch.
#[verifier::external_body]
fn now_unix_seconds() -> u64 {
    chrono::Utc::now().timestamp() as u64
}

impl MessageStore {
    /// Validates and stores one message against the current wall-clock
    /// time; for some reading `now` of the clock, the outcome is exactly
    /// that of `store_message` at `now`.
    pub fn store_message_now(&mut self, req: &StoreMessageRequest) -> (r: Result<(), StoreError>)
        ensures
            exists|now: u64| store_message_post(old(self)@, final(self)@, req@, now, r),
            final(self).retention() == old(self).retention(),
    {
        let now = now_unix_seconds();
        self.store_message(req, now)
    }

    /// Runs the retention sweep against the current wall-clock time; for
    /// some reading `now` of the clock, the store becomes exactly the swept
    /// store at `now`.
    pub fn delete_old_messages_now(&mut self) -> (r: Result<(), StoreError>)
        ensures
            r == Ok::<(), StoreError>(()),
            exists|now: u64|
                final(self)@ == sweep_view(old(self)@, now, old(self).retention()),
            final(self).retention() == old(self).retention(),
    {
        let now = now_unix_seconds();
        self.delete_old_messages(now)
    }
}

/// A successful submission preserves the store invariant.
pub proof fn lemma_submit_view_inv(v: Map<Seq<u8>, Seq<u8>>, m: UserMessageView, now: u64)
    requires
        store_inv(v),
        spec_validate(Some(m), now) is None,
        submit_fits(v, m),
    ensures
        store_inv(submit_view(v, m)),
        read_blobs(submit_view(v, m), m.address) == submit_list_blobs(v, m),
        read_index(submit_view(v, m)) == submit_index(v, m),
{
    assert(m.address != index_key());
    let w = submit_view(v, m);
    let blobs1 = submit_list_blobs(v, m);
    let idx1 = submit_index(v, m);

    // The new list decodes to the appended blob sequence.
    assert forall|i: int| 0 <= i < blobs1.len() implies (#[trigger] blobs1[i]).len()
        <= MAX_BLOB_COUNT by {
        if i < blobs1.len() - 1 {
            assert(v.contains_key(m.address));
            assert(spec_decode_msg(blobs1[i]) is Some);
            lemma_decode_msg_len(blobs1[i]);
        } else {
            lemma_msg_round_trip(m);
            lemma_decode_msg_len(blobs1[i]);
        }
    }
    assert(blobs_wf(blobs1));
    lemma_list_round_trip(blobs1);
    assert forall|i: int| 0 <= i < blobs1.len() implies spec_decode_msg(
        #[trigger] blobs1[i],
    ) is Some by {
        if i < blobs1.len() - 1 {
            assert(v.contains_key(m.address));
        } else {
            lemma_msg_round_trip(m);
        }
    }
    assert(list_ok(spec_encode_list(blobs1)));

    // The new index decodes to the appended address sequence.
    assert forall|i: int| 0 <= i < idx1.len() implies (#[trigger] idx1[i]).len()
        <= MAX_BLOB_COUNT by {
        if i < read_index(v).len() {
            assert(v.contains_key(index_key()));
            assert(index_entry_ok(idx1[i]));
        }
    }
    assert(blobs_wf(idx1));
    lemma_list_round_trip(idx1);
    assert forall|i: int| 0 <= i < idx1.len() implies index_entry_ok(#[trigger] idx1[i]) by {
        if i < read_index(v).len() {
            assert(v.contains_key(index_key()));
        }
    }
    assert forall|i: int, j: int| 0 <= i < j < idx1.len() implies idx1[i] != idx1[j] by {
        if j < read_index(v).len() {
            assert(v.contains_key(index_key()));
        } else if j == read_index(v).len() && idx1.len() > read_index(v).len() {
            assert(!read_index(v).contains(m.address));
            assert(idx1[j] == m.address);
            assert(read_index(v)[i] == idx1[i]);
        }
    }
    assert(index_ok(w));
    assert forall|k: Seq<u8>| #[trigger] w.contains_key(k) && k != index_key() implies list_ok(
        w[k],
    ) by {
        if k == m.address {
        } else {
            assert(v.contains_key(k));
        }
    }
}

} // verus!
