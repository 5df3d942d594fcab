use inertia::transport::wifi_stego::{WifiStego, MAX_SSID_LEN, PAYLOAD_CHUNK_SIZE};

#[test]
fn test_encode_decode() {
    let original = b"Hello, Inertia!";
    let encoded = base32::encode(base32::Alphabet::RFC4648 { padding: false }, original);
    let decoded = base32::decode(base32::Alphabet::RFC4648 { padding: false }, &encoded).unwrap();
    assert_eq!(original.to_vec(), decoded);
}

#[test]
fn wifi_stego_test_fragmentation() {
    let data = vec![0u8; 100];
    let fragments = WifiStego::broadcast_fragmented(&data);
    assert_eq!(fragments.len(), 5);
}

#[test]
fn ssid_is_prefix_and_base32() {
    let ssid = WifiStego::broadcast(b"Hi").unwrap();
    assert_eq!(String::from_utf8(ssid).unwrap(), "IN_JBUQ");
}

#[test]
fn empty_payload_is_refused() {
    assert_eq!(WifiStego::broadcast(&[]), Err("Empty payload".to_string()));
}

#[test]
fn long_ssid_is_cut() {
    let ssid = WifiStego::broadcast(&[0xFFu8; 40]).unwrap();
    assert_eq!(ssid.len(), MAX_SSID_LEN);
    assert_eq!(&ssid[..3], b"IN_");
    assert!(ssid[3..].iter().all(|&c| c == b'7'));
}

#[test]
fn fragments_carry_their_number() {
    let data: Vec<u8> = (0..45u8).collect();
    let fragments = WifiStego::broadcast_fragmented(&data);
    assert_eq!(fragments.len(), 3);
    let last = fragments[2].as_ref().unwrap();
    let expected_text = base32::encode(
        base32::Alphabet::RFC4648 { padding: false },
        &[2u8, 40, 41, 42, 43, 44],
    );
    assert_eq!(String::from_utf8(last.clone()).unwrap(), format!("IN_{}", expected_text));
    assert_eq!(PAYLOAD_CHUNK_SIZE, 20);
}

#[test]
fn ssid_payload_round_trip() {
    let payload = [0u8, 1, 2, 3, 4, 5];
    let ssid = WifiStego::broadcast(&payload).unwrap();
    let text = String::from_utf8(ssid).unwrap();
    assert_eq!(WifiStego::ssid_payload(&text), Some(payload.to_vec()));
}

#[test]
fn foreign_ssid_carries_nothing() {
    assert_eq!(WifiStego::ssid_payload("HomeNetwork"), None);
    assert_eq!(WifiStego::ssid_payload("IN"), None);
    assert_eq!(WifiStego::ssid_payload("IN_!!"), None);
}

#[test]
fn scan_orders_fragments_by_number() {
    let networks = vec![vec![1u8, 30, 31], vec![], vec![0u8, 10, 11], vec![1u8, 32]];
    let out = WifiStego::scan(networks);
    assert_eq!(out, vec![vec![10u8, 11, 30, 31, 32]]);
}

#[test]
fn scan_of_nothing_is_one_empty_payload() {
    assert_eq!(WifiStego::scan(Vec::new()), vec![Vec::<u8>::new()]);
}

#[test]
fn short_payload_survives_the_air() {
    let payload = b"seventeen bytes!!";
    let fragments = WifiStego::broadcast_fragmented(payload);
    let mut heard = Vec::new();
    for f in fragments {
        let text = String::from_utf8(f.unwrap()).unwrap();
        heard.push(WifiStego::ssid_payload(&text).unwrap());
    }
    assert_eq!(WifiStego::scan(heard), vec![payload.to_vec()]);
}
