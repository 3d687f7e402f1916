//! Round-trip and strictness tests of the binary codecs.

use msgstore::codec::{decode_list, encode_list};
use msgstore::message::{
    decode_message, encode_message, index_key_bytes, tx_type_from_byte, tx_type_to_byte,
    TransactionType, UserMessage,
};

fn sample_message() -> UserMessage {
    UserMessage {
        created: 1_700_000_000,
        address: vec![1, 2, 3, 4],
        transaction_type: TransactionType::VaultWithdraw,
        transaction_data: vec![9, 8, 7],
    }
}

#[test]
fn message_round_trip() {
    let m = sample_message();
    let encoded = encode_message(&m);
    let decoded = decode_message(&encoded).expect("a just-encoded message must decode");
    assert_eq!(decoded, m);
}

#[test]
fn message_round_trip_extreme_sizes() {
    let m = UserMessage {
        created: u64::MAX,
        address: vec![0xAB; 128],
        transaction_type: TransactionType::CoinSpend,
        transaction_data: vec![0xCD; 2048],
    };
    let encoded = encode_message(&m);
    assert_eq!(encoded.len(), 17 + 128 + 2048);
    let decoded = decode_message(&encoded).expect("largest message must decode");
    assert_eq!(decoded, m);
}

#[test]
fn message_decode_rejects_trailing_byte() {
    let mut encoded = encode_message(&sample_message());
    encoded.push(0);
    assert!(decode_message(&encoded).is_none());
}

#[test]
fn message_decode_rejects_truncation() {
    let encoded = encode_message(&sample_message());
    let truncated: Vec<u8> = encoded[..encoded.len() - 1].to_vec();
    assert!(decode_message(&truncated).is_none());
}

#[test]
fn message_decode_rejects_bad_type_tag() {
    let mut encoded = encode_message(&sample_message());
    encoded[8] = 9;
    assert!(decode_message(&encoded).is_none());
}

#[test]
fn message_decode_rejects_short_buffer() {
    assert!(decode_message(&vec![0u8; 12]).is_none());
}

#[test]
fn tx_type_tags_round_trip() {
    let all = [
        TransactionType::VaultWithdraw,
        TransactionType::VaultChangeDailySpendAccount,
        TransactionType::VaultChangeDailySpendAmount,
        TransactionType::CoinSpend,
    ];
    for t in all.iter() {
        let b = tx_type_to_byte(t);
        assert_eq!(tx_type_from_byte(b), Some(*t));
    }
    assert_eq!(tx_type_to_byte(&TransactionType::VaultWithdraw), 0);
    assert_eq!(tx_type_to_byte(&TransactionType::CoinSpend), 3);
    assert_eq!(tx_type_from_byte(4), None);
}

#[test]
fn list_round_trip() {
    let blobs: Vec<Vec<u8>> = vec![vec![1, 2, 3], vec![], vec![0xFF; 300]];
    let encoded = encode_list(&blobs);
    let decoded = decode_list(&encoded).expect("a just-encoded list must decode");
    assert_eq!(decoded, blobs);
}

#[test]
fn empty_list_round_trip() {
    let blobs: Vec<Vec<u8>> = Vec::new();
    let encoded = encode_list(&blobs);
    assert_eq!(encoded, vec![0u8; 8]);
    let decoded = decode_list(&encoded).expect("the empty list must decode");
    assert!(decoded.is_empty());
}

#[test]
fn list_decode_rejects_short_buffer() {
    assert!(decode_list(&vec![0u8; 7]).is_none());
}

#[test]
fn list_decode_rejects_trailing_bytes() {
    let mut encoded = encode_list(&vec![vec![5u8, 6u8]]);
    encoded.push(0);
    assert!(decode_list(&encoded).is_none());
}

#[test]
fn list_decode_rejects_wrong_count() {
    let mut encoded = encode_list(&vec![vec![5u8, 6u8]]);
    // Claim two blobs while only one follows.
    encoded[7] = 2;
    assert!(decode_list(&encoded).is_none());
}

#[test]
fn index_key_spells_all_addresses() {
    assert_eq!(index_key_bytes(), b"all_addresses".to_vec());
}
