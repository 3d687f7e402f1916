//! User messages: the data they carry, their validation rules, and their
//! fixed binary representation.
//!
//! Message layout: eight big-endian bytes for `created`, one byte for the
//! transaction type, a four-byte big-endian address length and the address,
//! then a four-byte big-endian payload length and the payload, with nothing
//! after the payload.

use vstd::prelude::*;

use crate::bytes::be_u32;
use crate::bytes::be_u64;
use crate::bytes::bytes_eq;
use crate::bytes::bytes_slice;
use crate::bytes::lemma_u32_be_round_trip;
use crate::bytes::lemma_u64_be_round_trip;
use crate::bytes::push_bytes;
use crate::bytes::push_u32_be;
use crate::bytes::push_u64_be;
use crate::bytes::read_u32_be;
use crate::bytes::read_u64_be;
use crate::bytes::u32_be;
use crate::bytes::u64_be;

verus! {

/// Longest address the store accepts, in bytes.
pub const MAX_ADDRESS_SIZE_BYTES: usize = 128;

/// Longest transaction payload the store accepts, in bytes.
pub const MAX_TX_DATA_SIZE_BYTES: usize = 2048;

/// Half-width of the acceptance window around the server's wall-clock time:
/// a message's `created` stamp may lie at most this many seconds in the past
/// or in the future (both boundaries inclusive).
pub const ACCEPTANCE_WINDOW_SECS: u64 = 86400;

/// Tag telling a future consumer how to interpret the transaction payload;
/// the store itself never interprets it.
#[derive(Clone, Copy, Debug, PartialEq, Eq, Structural)]
pub enum TransactionType {
    /// Withdraw request from a vault contract.
    VaultWithdraw,
    /// Change a vault contract's daily spending account.
    VaultChangeDailySpendAccount,
    /// Change a vault contract's daily spending amount.
    VaultChangeDailySpendAmount,
    /// Spend from a multi-signature account.
    CoinSpend,
}

/// One submitted item: an opaque signed payload filed under an address.
#[derive(Clone, Debug, PartialEq, Eq)]
pub struct UserMessage {
    /// Seconds since the epoch, set by the submitter.
    pub created: u64,
    /// The storage and retrieval key: a vault, account or contract identity.
    pub address: Vec<u8>,
    /// Tag interpreting `transaction_data`.
    pub transaction_type: TransactionType,
    /// Opaque signed payload.
    pub transaction_data: Vec<u8>,
}

/// The mathematical value of a `UserMessage`.
pub struct UserMessageView {
    pub created: u64,
    pub address: Seq<u8>,
    pub transaction_type: TransactionType,
    pub transaction_data: Seq<u8>,
}

impl View for UserMessage {
    type V = UserMessageView;

    open spec fn view(&self) -> UserMessageView {
        UserMessageView {
            created: self.created,
            address: self.address@,
            transaction_type: self.transaction_type,
            transaction_data: self.transaction_data@,
        }
    }
}

/// A submission request; the message may be absent, which is itself a
/// distinct validation failure.
#[derive(Clone, Debug, PartialEq, Eq)]
pub struct StoreMessageRequest {
    pub user_message: Option<UserMessage>,
}

impl View for StoreMessageRequest {
    type V = Option<UserMessageView>;

    open spec fn view(&self) -> Option<UserMessageView> {
        match self.user_message {
            Some(m) => Some(m@),
            None => None,
        }
    }
}

/// Why the store refused or failed an operation. The first five variants are
/// validation rejections; `Internal` and `Corruption` are failures.
#[derive(Clone, Copy, Debug, PartialEq, Eq, Structural)]
pub enum StoreError {
    /// The submission carried no message.
    MissingMessage,
    /// The address is empty or longer than `MAX_ADDRESS_SIZE_BYTES`.
    AddressSize,
    /// The address equals the reserved global-index key.
    ReservedAddress,
    /// The `created` stamp lies outside the acceptance window.
    CreatedOutOfWindow,
    /// The payload is empty or longer than `MAX_TX_DATA_SIZE_BYTES`.
    TransactionDataSize,
    /// An internal storage failure; nothing was persisted.
    Internal,
    /// Stored data failed to decode: a broken internal invariant.
    Corruption,
}

/// True of the validation rejections, false of the two failure variants.
pub open spec fn is_validation_error(e: StoreError) -> bool {
    !(e == StoreError::Internal || e == StoreError::Corruption)
}

/// The reserved backing-store key (the bytes of "all_addresses") under which
/// the global address index lives; disallowed as a user address.
pub open spec fn index_key() -> Seq<u8> {
    seq![97u8, 108u8, 108u8, 95u8, 97u8, 100u8, 100u8, 114u8, 101u8, 115u8, 115u8, 101u8, 115u8]
}

/// The reserved global-index key as a byte vector.
pub fn index_key_bytes() -> (r: Vec<u8>)
    ensures
        r@ == index_key(),
{
    let r: Vec<u8> = vec![97, 108, 108, 95, 97, 100, 100, 114, 101, 115, 115, 101, 115];
    proof {
        assert(r@ =~= index_key());
    }
    r
}

/// A message whose lengths the layout and the store accept.
pub open spec fn msg_wf(m: UserMessageView) -> bool {
    &&& 1 <= m.address.len() <= MAX_ADDRESS_SIZE_BYTES
    &&& 1 <= m.transaction_data.len() <= MAX_TX_DATA_SIZE_BYTES
}

/// `created` lies within the inclusive acceptance window around `now`.
pub open spec fn created_in_window(created: u64, now: u64) -> bool {
    now - ACCEPTANCE_WINDOW_SECS <= created <= now + ACCEPTANCE_WINDOW_SECS
}

/// The store's validation verdict, in rule order: missing message, address
/// size, reserved address, acceptance window, payload size. `None` means the
/// request is accepted.
pub open spec fn spec_validate(req: Option<UserMessageView>, now: u64) -> Option<StoreError> {
    match req {
        None => Some(StoreError::MissingMessage),
        Some(m) => {
            if m.address.len() < 1 || m.address.len() > MAX_ADDRESS_SIZE_BYTES {
                Some(StoreError::AddressSize)
            } else if m.address == index_key() {
                Some(StoreError::ReservedAddress)
            } else if !created_in_window(m.created, now) {
                Some(StoreError::CreatedOutOfWindow)
            } else if m.transaction_data.len() < 1 || m.transaction_data.len()
                > MAX_TX_DATA_SIZE_BYTES {
                Some(StoreError::TransactionDataSize)
            } else {
                None
            }
        },
    }
}

/// A message that passes every validation rule at time `now`.
pub open spec fn msg_valid(m: UserMessageView, now: u64) -> bool {
    spec_validate(Some(m), now) is None
}

/// Runtime check of the acceptance window.
pub fn check_created_in_window(created: u64, now: u64) -> (r: bool)
    ensures
        r == created_in_window(created, now),
{
    let lower_ok = if now >= ACCEPTANCE_WINDOW_SECS {
        created >= now - ACCEPTANCE_WINDOW_SECS
    } else {
        true
    };
    let upper_ok = if now <= u64::MAX - ACCEPTANCE_WINDOW_SECS {
        created <= now + ACCEPTANCE_WINDOW_SECS
    } else {
        true
    };
    lower_ok && upper_ok
}

/// Applies the validation rules to a request, in rule order.
pub fn validate_request(req: &StoreMessageRequest, now: u64) -> (r: Option<StoreError>)
    ensures
        r == spec_validate(req@, now),
{
    match &req.user_message {
        None => Some(StoreError::MissingMessage),
        Some(m) => {
            if m.address.len() < 1 || m.address.len() > MAX_ADDRESS_SIZE_BYTES {
                return Some(StoreError::AddressSize);
            }
            let ik = index_key_bytes();
            if bytes_eq(&m.address, &ik) {
                return Some(StoreError::ReservedAddress);
            }
            if !check_created_in_window(m.created, now) {
                return Some(StoreError::CreatedOutOfWindow);
            }
            if m.transaction_data.len() < 1 || m.transaction_data.len() > MAX_TX_DATA_SIZE_BYTES {
                return Some(StoreError::TransactionDataSize);
            }
            None
        },
    }
}

/// The one-byte tag of a transaction type in the message layout.
pub open spec fn tx_type_byte(t: TransactionType) -> u8 {
    match t {
        TransactionType::VaultWithdraw => 0,
        TransactionType::VaultChangeDailySpendAccount => 1,
        TransactionType::VaultChangeDailySpendAmount => 2,
        TransactionType::CoinSpend => 3,
    }
}

/// The transaction type a tag byte stands for, if any.
pub open spec fn byte_to_tx_type(b: u8) -> Option<TransactionType> {
    if b == 0 {
        Some(TransactionType::VaultWithdraw)
    } else if b == 1 {
        Some(TransactionType::VaultChangeDailySpendAccount)
    } else if b == 2 {
        Some(TransactionType::VaultChangeDailySpendAmount)
    } else if b == 3 {
        Some(TransactionType::CoinSpend)
    } else {
        None
    }
}

/// Reading back a transaction type's tag yields the type.
pub proof fn lemma_tx_type_byte_round_trip(t: TransactionType)
    ensures
        byte_to_tx_type(tx_type_byte(t)) == Some(t),
{
    match t {
        TransactionType::VaultWithdraw => {},
        TransactionType::VaultChangeDailySpendAccount => {},
        TransactionType::VaultChangeDailySpendAmount => {},
        TransactionType::CoinSpend => {},
    }
}

/// Encodes a transaction type as its tag byte.
pub fn tx_type_to_byte(t: &TransactionType) -> (r: u8)
    ensures
        r == tx_type_byte(*t),
{
    match t {
        TransactionType::VaultWithdraw => 0,
        TransactionType::VaultChangeDailySpendAccount => 1,
        TransactionType::VaultChangeDailySpendAmount => 2,
        TransactionType::CoinSpend => 3,
    }
}

/// Decodes a tag byte.
pub fn tx_type_from_byte(b: u8) -> (r: Option<TransactionType>)
    ensures
        r == byte_to_tx_type(b),
{
    if b == 0 {
        Some(TransactionType::VaultWithdraw)
    } else if b == 1 {
        Some(TransactionType::VaultChangeDailySpendAccount)
    } else if b == 2 {
        Some(TransactionType::VaultChangeDailySpendAmount)
    } else if b == 3 {
        Some(TransactionType::CoinSpend)
    } else {
        None
    }
}

/// The encoded message: `created`, type tag, address, payload.
pub open spec fn spec_encode_msg(m: UserMessageView) -> Seq<u8> {
    u64_be(m.created) + seq![tx_type_byte(m.transaction_type)] + u32_be(m.address.len() as u32)
        + m.address + u32_be(m.transaction_data.len() as u32) + m.transaction_data
}

/// Parses an encoded message; enforces the length bounds of `msg_wf` and
/// refuses trailing bytes.
pub open spec fn spec_decode_msg(b: Seq<u8>) -> Option<UserMessageView> {
    if b.len() < 13 {
        None
    } else {
        let created = be_u64(b.subrange(0, 8));
        match byte_to_tx_type(b[8]) {
            None => None,
            Some(t) => {
                let alen = be_u32(b.subrange(9, 13)) as int;
                if alen < 1 || alen > MAX_ADDRESS_SIZE_BYTES {
                    None
                } else if b.len() < 17 + alen {
                    None
                } else {
                    let address = b.subrange(13, 13 + alen);
                    let dlen = be_u32(b.subrange(13 + alen, 17 + alen)) as int;
                    if dlen < 1 || dlen > MAX_TX_DATA_SIZE_BYTES {
                        None
                    } else if b.len() != 17 + alen + dlen {
                        None
                    } else {
                        let data = b.subrange(17 + alen, 17 + alen + dlen);
                        Some(
                            UserMessageView {
                                created,
                                address,
                                transaction_type: t,
                                transaction_data: data,
                            },
                        )
                    }
                }
            },
        }
    }
}

/// A decoded message always satisfies the well-formedness bounds.
pub proof fn lemma_decode_msg_wf(b: Seq<u8>)
    requires
        spec_decode_msg(b) is Some,
    ensures
        msg_wf(spec_decode_msg(b)->0),
{
}

/// An encoded message is never longer than the layout's maximum:
/// the fixed seventeen bytes plus the two longest variable fields.
pub proof fn lemma_decode_msg_len(b: Seq<u8>)
    requires
        spec_decode_msg(b) is Some,
    ensures
        b.len() == 17 + (spec_decode_msg(b)->0).address.len() + (spec_decode_msg(
            b,
        )->0).transaction_data.len(),
        b.len() <= 17 + MAX_ADDRESS_SIZE_BYTES + MAX_TX_DATA_SIZE_BYTES,
{
}

/// The views of a sequence of messages.
pub open spec fn msg_views(s: Seq<UserMessage>) -> Seq<UserMessageView> {
    s.map_values(|m: UserMessage| m@)
}

/// Round trip: decoding an encoded well-formed message yields the message.
pub proof fn lemma_msg_round_trip(m: UserMessageView)
    requires
        msg_wf(m),
    ensures
        spec_decode_msg(spec_encode_msg(m)) == Some(m),
{
    let e = spec_encode_msg(m);
    let al = m.address.len() as int;
    let dl = m.transaction_data.len() as int;
    assert(e.len() == 17 + al + dl);
    assert(e.subrange(0, 8) =~= u64_be(m.created));
    lemma_u64_be_round_trip(m.created);
    assert(e[8] == tx_type_byte(m.transaction_type));
    lemma_tx_type_byte_round_trip(m.transaction_type);
    assert(e.subrange(9, 13) =~= u32_be(m.address.len() as u32));
    lemma_u32_be_round_trip(m.address.len() as u32);
    assert(e.subrange(13, 13 + al) =~= m.address);
    assert(e.subrange(13 + al, 17 + al) =~= u32_be(m.transaction_data.len() as u32));
    lemma_u32_be_round_trip(m.transaction_data.len() as u32);
    assert(e.subrange(17 + al, 17 + al + dl) =~= m.transaction_data);
    assert(spec_decode_msg(e) == Some(m));
}

/// Encodes a message in the fixed layout.
pub fn encode_message(m: &UserMessage) -> (r: Vec<u8>)
    requires
        msg_wf(m@),
    ensures
        r@ == spec_encode_msg(m@),
        spec_decode_msg(r@) == Some(m@),
{
    let mut buf: Vec<u8> = Vec::new();
    push_u64_be(&mut buf, m.created);
    buf.push(tx_type_to_byte(&m.transaction_type));
    push_u32_be(&mut buf, m.address.len() as u32);
    push_bytes(&mut buf, &m.address);
    push_u32_be(&mut buf, m.transaction_data.len() as u32);
    push_bytes(&mut buf, &m.transaction_data);
    proof {
        assert(buf@ =~= spec_encode_msg(m@));
        lemma_msg_round_trip(m@);
    }
    buf
}

/// Decodes a message; `None` exactly when `b` is not an encoded message.
pub fn decode_message(b: &Vec<u8>) -> (r: Option<UserMessage>)
    ensures
        match r {
            Some(m) => spec_decode_msg(b@) == Some(m@) && msg_wf(m@),
            None => spec_decode_msg(b@) is None,
        },
{
    let blen = b.len();
    if blen < 13 {
        return None;
    }
    let created = read_u64_be(b, 0);
    let t = match tx_type_from_byte(b[8]) {
        Some(t) => t,
        None => {
            return None;
        },
    };
    let alen32 = read_u32_be(b, 9);
    if alen32 < 1 || alen32 > MAX_ADDRESS_SIZE_BYTES as u32 {
        return None;
    }
    let alen = alen32 as usize;
    if blen - 13 < 4 + alen {
        return None;
    }
    let address = bytes_slice(b, 13, 13 + alen);
    let dlen32 = read_u32_be(b, 13 + alen);
    if dlen32 < 1 || dlen32 > MAX_TX_DATA_SIZE_BYTES as u32 {
        return None;
    }
    let dlen = dlen32 as usize;
    if blen - 17 - alen != dlen {
        return None;
    }
    let data = bytes_slice(b, 17 + alen, 17 + alen + dlen);
    let m = UserMessage { created, address, transaction_type: t, transaction_data: data };
    proof {
        assert(spec_decode_msg(b@) == Some(m@));
    }
    Some(m)
}

} // verus!
