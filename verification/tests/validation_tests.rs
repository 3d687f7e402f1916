//! Validation rejections and the acceptance-window boundary: every rejected
//! submission leaves the stored state untouched.

use msgstore::message::{StoreError, StoreMessageRequest, TransactionType, UserMessage};
use msgstore::store::MessageStore;

const NOW: u64 = 1_700_000_000;
const WINDOW: u64 = 86_400;

fn message_with(created: u64, address: Vec<u8>, payload: Vec<u8>) -> UserMessage {
    UserMessage {
        created,
        address,
        transaction_type: TransactionType::CoinSpend,
        transaction_data: payload,
    }
}

fn request_with(created: u64, address: Vec<u8>, payload: Vec<u8>) -> StoreMessageRequest {
    StoreMessageRequest { user_message: Some(message_with(created, address, payload)) }
}

fn assert_rejected(req: &StoreMessageRequest, expected: StoreError) {
    let mut store = MessageStore::new();
    let r = store.store_message(req, NOW);
    assert_eq!(r, Err(expected));
    // Nothing was persisted.
    if let Some(m) = &req.user_message {
        let msgs = store.get_messages(&m.address).expect("retrieve never fails");
        assert!(msgs.is_empty());
    }
    assert!(store.known_addresses().is_empty());
}

#[test]
fn reject_missing_message() {
    let mut store = MessageStore::new();
    let r = store.store_message(&StoreMessageRequest { user_message: None }, NOW);
    assert_eq!(r, Err(StoreError::MissingMessage));
}

#[test]
fn reject_empty_address() {
    assert_rejected(&request_with(NOW, vec![], vec![1]), StoreError::AddressSize);
}

#[test]
fn reject_oversize_address() {
    assert_rejected(&request_with(NOW, vec![7; 129], vec![1]), StoreError::AddressSize);
}

#[test]
fn reject_reserved_address() {
    assert_rejected(
        &request_with(NOW, b"all_addresses".to_vec(), vec![1]),
        StoreError::ReservedAddress,
    );
}

#[test]
fn reject_empty_payload() {
    assert_rejected(&request_with(NOW, vec![1], vec![]), StoreError::TransactionDataSize);
}

#[test]
fn reject_oversize_payload() {
    assert_rejected(&request_with(NOW, vec![1], vec![2; 2049]), StoreError::TransactionDataSize);
}

#[test]
fn reject_created_too_old() {
    assert_rejected(
        &request_with(NOW - WINDOW - 1, vec![1], vec![1]),
        StoreError::CreatedOutOfWindow,
    );
}

#[test]
fn reject_created_too_new() {
    assert_rejected(
        &request_with(NOW + WINDOW + 1, vec![1], vec![1]),
        StoreError::CreatedOutOfWindow,
    );
}

#[test]
fn accept_created_at_lower_boundary() {
    let mut store = MessageStore::new();
    let r = store.store_message(&request_with(NOW - WINDOW, vec![1], vec![1]), NOW);
    assert_eq!(r, Ok(()));
}

#[test]
fn accept_created_at_upper_boundary() {
    let mut store = MessageStore::new();
    let r = store.store_message(&request_with(NOW + WINDOW, vec![1], vec![1]), NOW);
    assert_eq!(r, Ok(()));
}

#[test]
fn accept_boundary_sizes() {
    let mut store = MessageStore::new();
    let r = store.store_message(&request_with(NOW, vec![7; 128], vec![9; 2048]), NOW);
    assert_eq!(r, Ok(()));
    let r = store.store_message(&request_with(NOW, vec![8], vec![9]), NOW);
    assert_eq!(r, Ok(()));
}

#[test]
fn validation_order_reports_address_before_payload() {
    // An address failure is reported even when the payload is bad too.
    assert_rejected(&request_with(NOW, vec![], vec![]), StoreError::AddressSize);
}
