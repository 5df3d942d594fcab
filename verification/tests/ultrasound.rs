use inertia::transport::ultrasound::{
    bits_to_bytes, bytes_to_bits, xor_all, Modulation, UltrasoundModem, MAX_PAYLOAD_BYTES,
};

#[test]
fn ultrasound_test_payload_size_limit() {
    let small = vec![0u8; 10];
    assert!(small.len() <= MAX_PAYLOAD_BYTES);

    let large = vec![0u8; 100];
    assert!(large.len() > MAX_PAYLOAD_BYTES);
}

#[test]
fn test_checksum_validation() {
    let _modem = UltrasoundModem::default();
    let payload = vec![0x01, 0x02, 0x03];
    let checksum = xor_all(&payload);

    assert_eq!(checksum, 0x01 ^ 0x02 ^ 0x03);
}

#[test]
fn frame_is_length_payload_checksum() {
    let modem = UltrasoundModem::new();
    assert_eq!(modem.broadcast(&[1, 2, 4]).unwrap(), vec![3, 1, 2, 4, 7]);
    assert_eq!(modem.broadcast(&[]), Err("Empty payload".to_string()));
    let long = modem.broadcast(&[1u8; 40]).unwrap();
    assert_eq!(long.len(), 1 + 32 + 1);
    assert_eq!(long[0], 32);
    assert_eq!(long[33], 0);
}

#[test]
fn received_frame_is_kept_when_checksum_matches() {
    let mut modem = UltrasoundModem::with_modulation(Modulation::Fsk);
    assert_eq!(modem.modulation(), Modulation::Fsk);
    let frame = modem.broadcast(b"Test 123").unwrap();
    assert!(modem.receive_decoded(&frame[..1], 8, &frame[1..]));
    assert!(!modem.receive_decoded(&[3], 8, &[1, 2, 3, 9]));
    assert!(!modem.receive_decoded(&[], 8, &[1, 2]));
    assert!(!modem.receive_decoded(&[3], 0, &[1, 2, 4, 7]));
    assert!(!modem.receive_decoded(&[5], 8, &[1, 2]));
    assert!(!modem.receive_decoded(&[0], 8, &[0]));
    assert_eq!(modem.get_received(), vec![b"Test 123".to_vec()]);
    assert!(modem.get_received().is_empty());
}

#[test]
fn bits_are_most_significant_first() {
    let bits = bytes_to_bits(&[0b1010_0001]);
    assert_eq!(bits, vec![true, false, true, false, false, false, false, true]);
    assert_eq!(bits_to_bytes(&bits), vec![0b1010_0001]);
}

#[test]
fn bits_round_trip_and_partial_groups_drop() {
    let data = b"Hello, Inertia!";
    let mut bits = bytes_to_bits(data);
    assert_eq!(bits_to_bytes(&bits), data.to_vec());
    bits.push(true);
    bits.push(false);
    assert_eq!(bits_to_bytes(&bits), data.to_vec());
}

#[test]
fn scanning_flags() {
    let mut modem = UltrasoundModem::new();
    assert_eq!(Modulation::default(), Modulation::Ask);
    assert!(modem.start_scanning().is_ok());
    modem.stop_scanning();
}
