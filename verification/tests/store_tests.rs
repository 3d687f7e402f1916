//! Submission and retrieval behaviour of the message store.

use msgstore::message::{StoreMessageRequest, TransactionType, UserMessage};
use msgstore::store::MessageStore;

const NOW: u64 = 1_700_000_000;

fn message(created: u64, address: &[u8], payload: &[u8]) -> UserMessage {
    UserMessage {
        created,
        address: address.to_vec(),
        transaction_type: TransactionType::VaultWithdraw,
        transaction_data: payload.to_vec(),
    }
}

fn submit(store: &mut MessageStore, m: &UserMessage, now: u64) {
    let req = StoreMessageRequest { user_message: Some(m.clone()) };
    store.store_message(&req, now).expect("a valid submission must succeed");
}

#[test]
fn submit_then_retrieve_appends() {
    let mut store = MessageStore::new();
    let m = message(NOW, b"vault-1", &[1, 2, 3]);
    submit(&mut store, &m, NOW);
    let msgs = store.get_messages(&b"vault-1".to_vec()).expect("retrieve never fails");
    assert_eq!(msgs, vec![m]);
}

#[test]
fn submission_order_preserved() {
    let mut store = MessageStore::new();
    let m1 = message(NOW, b"vault-1", &[1]);
    let m2 = message(NOW + 1, b"vault-1", &[2]);
    submit(&mut store, &m1, NOW);
    submit(&mut store, &m2, NOW);
    let msgs = store.get_messages(&b"vault-1".to_vec()).expect("retrieve never fails");
    assert_eq!(msgs, vec![m1, m2]);
}

#[test]
fn addresses_independent() {
    let mut store = MessageStore::new();
    let ma = message(NOW, b"vault-a", &[1]);
    let mb = message(NOW, b"vault-b", &[2]);
    submit(&mut store, &ma, NOW);
    assert!(store.get_messages(&b"vault-b".to_vec()).unwrap().is_empty());
    submit(&mut store, &mb, NOW);
    assert_eq!(store.get_messages(&b"vault-a".to_vec()).unwrap(), vec![ma]);
    assert_eq!(store.get_messages(&b"vault-b".to_vec()).unwrap(), vec![mb]);
}

#[test]
fn retrieve_unknown_address_is_empty() {
    let store = MessageStore::new();
    let msgs = store.get_messages(&b"nobody".to_vec()).expect("retrieve never fails");
    assert!(msgs.is_empty());
}

#[test]
fn retrieve_reserved_key_is_empty() {
    let mut store = MessageStore::new();
    submit(&mut store, &message(NOW, b"vault-1", &[1]), NOW);
    // The reserved index key never reads back as a message list.
    let msgs = store.get_messages(&b"all_addresses".to_vec()).expect("retrieve never fails");
    assert!(msgs.is_empty());
}

#[test]
fn index_records_addresses_once() {
    let mut store = MessageStore::new();
    submit(&mut store, &message(NOW, b"vault-1", &[1]), NOW);
    submit(&mut store, &message(NOW, b"vault-1", &[2]), NOW);
    submit(&mut store, &message(NOW, b"vault-2", &[3]), NOW);
    let addrs = store.known_addresses();
    assert_eq!(addrs, vec![b"vault-1".to_vec(), b"vault-2".to_vec()]);
}

#[test]
fn default_retention_is_configurable() {
    let mut store = MessageStore::new();
    assert_eq!(store.retention_seconds(), 1_814_400);
    store.set_retention(10);
    assert_eq!(store.retention_seconds(), 10);
}

#[test]
fn concrete_scenario() {
    // Submit A (t0, address X, 1024-byte payload); retrieve X -> [A].
    let t0: u64 = NOW;
    let mut store = MessageStore::new();
    let a = message(t0, b"X", &[0xAA; 1024]);
    submit(&mut store, &a, t0);
    let x = b"X".to_vec();
    assert_eq!(store.get_messages(&x).unwrap(), vec![a.clone()]);

    // Submit B (t0 + 1, address X); retrieve X -> [A, B].
    let b = message(t0 + 1, b"X", &[0xBB]);
    submit(&mut store, &b, t0 + 1);
    assert_eq!(store.get_messages(&x).unwrap(), vec![a, b]);

    // Retention 10 s: an immediate sweep keeps both, a sweep eleven
    // seconds later prunes both.
    store.set_retention(10);
    store.delete_old_messages(t0 + 1).expect("the sweep never fails");
    assert_eq!(store.get_messages(&x).unwrap().len(), 2);
    store.delete_old_messages(t0 + 12).expect("the sweep never fails");
    assert!(store.get_messages(&x).unwrap().is_empty());
}

#[test]
fn wall_clock_entry_points() {
    let mut store = MessageStore::new();
    let now = chrono::Utc::now().timestamp() as u64;
    let m = message(now, b"vault-now", &[1, 2]);
    let req = StoreMessageRequest { user_message: Some(m.clone()) };
    store.store_message_now(&req).expect("a fresh message must be accepted");
    assert_eq!(store.get_messages(&b"vault-now".to_vec()).unwrap(), vec![m.clone()]);
    // The default retention is weeks; a sweep right now keeps the message.
    store.delete_old_messages_now().expect("the sweep never fails");
    assert_eq!(store.get_messages(&b"vault-now".to_vec()).unwrap(), vec![m]);
}
