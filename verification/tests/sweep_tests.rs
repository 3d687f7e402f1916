//! Retention-sweep behaviour: the cutoff boundary, index maintenance, and
//! idempotence.

use msgstore::message::{StoreMessageRequest, TransactionType, UserMessage};
use msgstore::store::MessageStore;

const NOW: u64 = 1_700_000_000;

fn message(created: u64, address: &[u8], payload: &[u8]) -> UserMessage {
    UserMessage {
        created,
        address: address.to_vec(),
        transaction_type: TransactionType::VaultChangeDailySpendAmount,
        transaction_data: payload.to_vec(),
    }
}

fn submit(store: &mut MessageStore, m: &UserMessage, now: u64) {
    let req = StoreMessageRequest { user_message: Some(m.clone()) };
    store.store_message(&req, now).expect("a valid submission must succeed");
}

#[test]
fn sweep_on_empty_store_succeeds() {
    let mut store = MessageStore::new();
    store.delete_old_messages(NOW).expect("a sweep with no index must succeed");
    assert!(store.known_addresses().is_empty());
}

#[test]
fn retention_boundary() {
    // Retention 100: a message one second past the cutoff is pruned, one
    // exactly at the cutoff is kept.
    let mut store = MessageStore::new();
    store.set_retention(100);
    let old = message(NOW - 101, b"vault-1", &[1]);
    let young = message(NOW - 100, b"vault-1", &[2]);
    submit(&mut store, &old, NOW);
    submit(&mut store, &young, NOW);
    store.delete_old_messages(NOW).expect("the sweep never fails");
    let msgs = store.get_messages(&b"vault-1".to_vec()).unwrap();
    assert_eq!(msgs, vec![young]);
}

#[test]
fn sweep_empties_address_and_index() {
    let mut store = MessageStore::new();
    store.set_retention(100);
    submit(&mut store, &message(NOW - 500, b"stale", &[1]), NOW);
    submit(&mut store, &message(NOW, b"fresh", &[2]), NOW);
    assert_eq!(store.known_addresses().len(), 2);

    store.delete_old_messages(NOW).expect("the sweep never fails");

    // The emptied address leaves the index; a retrieve yields an empty
    // sequence, not an error.
    assert_eq!(store.known_addresses(), vec![b"fresh".to_vec()]);
    assert!(store.get_messages(&b"stale".to_vec()).unwrap().is_empty());
    assert_eq!(store.get_messages(&b"fresh".to_vec()).unwrap().len(), 1);
}

#[test]
fn sweep_twice_is_idempotent() {
    let mut store = MessageStore::new();
    store.set_retention(100);
    submit(&mut store, &message(NOW - 500, b"stale", &[1]), NOW);
    submit(&mut store, &message(NOW - 150, b"mixed", &[2]), NOW);
    submit(&mut store, &message(NOW - 50, b"mixed", &[3]), NOW);
    submit(&mut store, &message(NOW, b"fresh", &[4]), NOW);

    store.delete_old_messages(NOW).expect("the sweep never fails");
    let addrs_once = store.known_addresses();
    let stale_once = store.get_messages(&b"stale".to_vec()).unwrap();
    let mixed_once = store.get_messages(&b"mixed".to_vec()).unwrap();
    let fresh_once = store.get_messages(&b"fresh".to_vec()).unwrap();

    store.delete_old_messages(NOW).expect("the sweep never fails");
    assert_eq!(store.known_addresses(), addrs_once);
    assert_eq!(store.get_messages(&b"stale".to_vec()).unwrap(), stale_once);
    assert_eq!(store.get_messages(&b"mixed".to_vec()).unwrap(), mixed_once);
    assert_eq!(store.get_messages(&b"fresh".to_vec()).unwrap(), fresh_once);

    // And the once-swept state is what it should be.
    assert_eq!(addrs_once, vec![b"mixed".to_vec(), b"fresh".to_vec()]);
    assert!(stale_once.is_empty());
    assert_eq!(mixed_once.len(), 1);
    assert_eq!(mixed_once[0].transaction_data, vec![3]);
    assert_eq!(fresh_once.len(), 1);
}

#[test]
fn sweep_without_removals_keeps_index() {
    let mut store = MessageStore::new();
    store.set_retention(1_000);
    submit(&mut store, &message(NOW - 10, b"vault-1", &[1]), NOW);
    submit(&mut store, &message(NOW - 20, b"vault-2", &[2]), NOW);
    store.delete_old_messages(NOW).expect("the sweep never fails");
    assert_eq!(store.known_addresses(), vec![b"vault-1".to_vec(), b"vault-2".to_vec()]);
    assert_eq!(store.get_messages(&b"vault-1".to_vec()).unwrap().len(), 1);
    assert_eq!(store.get_messages(&b"vault-2".to_vec()).unwrap().len(), 1);
}

#[test]
fn reconfigured_retention_applies_to_next_sweep() {
    let mut store = MessageStore::new();
    submit(&mut store, &message(NOW - 300, b"vault-1", &[1]), NOW);
    store.set_retention(1_000);
    store.delete_old_messages(NOW).expect("the sweep never fails");
    assert_eq!(store.get_messages(&b"vault-1".to_vec()).unwrap().len(), 1);
    store.set_retention(200);
    store.delete_old_messages(NOW).expect("the sweep never fails");
    assert!(store.get_messages(&b"vault-1".to_vec()).unwrap().is_empty());
}
