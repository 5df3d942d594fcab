use inertia::crypto::keys::KeyPair;
use inertia::transport::poe::{
    encode_block_message, encode_encounter_message, encode_transaction_message, hash_block,
    hash_encounter, radio_entropy_bits, register_encounter, remember_encounter,
    select_block_encounters, take_block_transactions, verify_encounter, EncounterType,
    ReputationCounts, MAX_ENCOUNTER_HISTORY,
};
use std::collections::VecDeque;

#[test]
fn registered_encounter_is_signed_and_verifies() {
    let a = KeyPair::generate();
    let b = KeyPair::generate();
    let e = register_encounter(&a, b.public(), EncounterType::Direct, -45, 500, [42u8; 32], None, None, 1000)
        .unwrap();
    assert_eq!(e.node_a, a.public());
    assert_eq!(e.node_b, b.public());
    assert_eq!(e.id, hash_encounter(&e));
    assert!(verify_encounter(&e));
    let mut forged = e;
    forged.rssi = -44;
    assert!(!verify_encounter(&forged));
}

#[test]
fn confirmation_by_the_other_node_verifies() {
    let a = KeyPair::generate();
    let b = KeyPair::generate();
    let mut e = register_encounter(&a, b.public(), EncounterType::Relay, -40, 300, [1u8; 32], Some([2u8; 32]), None, 7)
        .unwrap();
    let msg = encode_encounter_message(&e);
    e.signature_b = b.sign(&msg);
    assert!(verify_encounter(&e));
    e.signature_b = a.sign(&msg);
    assert!(!verify_encounter(&e));
}

#[test]
fn encounter_message_layout() {
    let a = KeyPair::generate();
    let e = register_encounter(&a, [3u8; 32], EncounterType::Star, -2, 0x01020304, [5u8; 32], Some([6u8; 32]), None, 9)
        .unwrap();
    let m = encode_encounter_message(&e);
    assert_eq!(m.len(), 32 + 32 + 8 + 2 + 4 + 32 + 32);
    assert_eq!(&m[64..72], &9u64.to_le_bytes());
    assert_eq!(&m[72..74], &(-2i16).to_le_bytes());
    assert_eq!(&m[74..78], &[4, 3, 2, 1]);
    assert_eq!(&m[78..110], &[5u8; 32]);
    assert_eq!(&m[110..], &[6u8; 32]);
}

#[test]
fn transaction_and_block_messages() {
    let m = encode_transaction_message(&[1u8; 32], &[2u8; 32], 500, 7);
    assert_eq!(m.len(), 80);
    assert_eq!(&m[64..72], &500u64.to_le_bytes());
    let b = encode_block_message(&[0u8; 32], 11, &[4u8; 32], &vec![[8u8; 32], [9u8; 32]]);
    assert_eq!(b.len(), 32 + 8 + 32 + 64);
    assert_eq!(&b[72..104], &[8u8; 32]);
    let h = hash_block(&[0u8; 32], 11, &[4u8; 32], &vec![[8u8; 32], [9u8; 32]]);
    assert_eq!(h, *blake3::hash(&b).as_bytes());
}

#[test]
fn entropy_counts_set_bits() {
    assert_eq!(radio_entropy_bits(&[0u8; 32]), 0);
    assert_eq!(radio_entropy_bits(&[0xFFu8; 32]), 256);
    assert_eq!(radio_entropy_bits(&[42u8; 32]), 96);
}

#[test]
fn blocks_take_the_first_three_eligible() {
    assert_eq!(select_block_encounters(&[true, false, true, true, true]), Some(vec![0, 2, 3]));
    assert_eq!(select_block_encounters(&[true, false, true]), None);
    assert_eq!(select_block_encounters(&[]), None);
}

#[test]
fn block_takes_at_most_a_hundred_transactions() {
    let mut pending: Vec<u32> = (0..150).collect();
    let taken = take_block_transactions(&mut pending);
    assert_eq!(taken, (0..100).collect::<Vec<u32>>());
    assert_eq!(pending, (100..150).collect::<Vec<u32>>());
    let rest = take_block_transactions(&mut pending);
    assert_eq!(rest, (100..150).collect::<Vec<u32>>());
    assert!(pending.is_empty());
}

#[test]
fn history_keeps_the_newest() {
    let mut h: VecDeque<usize> = (0..MAX_ENCOUNTER_HISTORY).collect();
    remember_encounter(&mut h, 9999);
    assert_eq!(h.len(), MAX_ENCOUNTER_HISTORY);
    assert_eq!(h[0], 9999);
    assert_eq!(h[MAX_ENCOUNTER_HISTORY - 1], MAX_ENCOUNTER_HISTORY - 2);
}

#[test]
fn poor_nodes_are_quarantined() {
    let mut r = ReputationCounts::new();
    for i in 0..10 {
        r.record(i == 0, i);
    }
    assert_eq!(r.total_encounters, 10);
    assert!(!r.is_quarantined);
    r.record(false, 99);
    assert!(r.is_quarantined);
    assert_eq!(r.failed_encounters, 10);
    assert_eq!(r.last_seen, 99);
}

#[test]
fn good_nodes_stay_free() {
    let mut r = ReputationCounts::new();
    for i in 0..20 {
        r.record(i % 4 == 0, i);
    }
    assert_eq!(r.successful_encounters, 5);
    assert!(!r.is_quarantined);
}
