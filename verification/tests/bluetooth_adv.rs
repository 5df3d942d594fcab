use inertia::transport::bluetooth_adv::{BluetoothAdv, MANUFACTURER_ID, MAX_ADV_PAYLOAD, SERVICE_UUID};

#[test]
fn bluetooth_adv_test_payload_size_limit() {
    let small_payload = vec![1u8; 10];
    assert!(small_payload.len() <= MAX_ADV_PAYLOAD);

    let large_payload = vec![1u8; 100];
    assert!(large_payload.len() > MAX_ADV_PAYLOAD);
}

#[test]
fn bluetooth_adv_test_fragmentation() {
    let adv = BluetoothAdv::new();
    let data = vec![0xAA; 100];
    let fragments = adv.broadcast_fragmented(&data);

    assert!(fragments.len() >= 3 && fragments.len() <= 5);
}

#[test]
fn test_assemble_fragments() {
    let fragments = vec![
        vec![0x00, 0x01, 0x02],
        vec![0x01, 0x03, 0x04],
        vec![0x02, 0x05, 0x06],
    ];

    let assembled = BluetoothAdv::assemble_fragments(fragments);
    assert!(!assembled.is_empty());
    assert_eq!(assembled[0], vec![0x01, 0x02, 0x03, 0x04, 0x05, 0x06]);
}

#[test]
fn advertisement_holds_id_length_and_payload() {
    let adv = BluetoothAdv::default();
    let data = adv.broadcast(&[7, 8, 9]).unwrap();
    assert_eq!(data, vec![0x4E, 0x09, 3, 7, 8, 9]);
    assert_eq!(MANUFACTURER_ID.to_le_bytes(), [0x4E, 0x09]);
}

#[test]
fn long_advertisement_is_cut() {
    let adv = BluetoothAdv::new();
    let payload: Vec<u8> = (0..40u8).collect();
    let data = adv.broadcast(&payload).unwrap();
    assert_eq!(data.len(), 3 + MAX_ADV_PAYLOAD);
    assert_eq!(data[2], 31);
    assert_eq!(&data[3..], &payload[..31]);
}

#[test]
fn empty_advertisement_is_refused() {
    let adv = BluetoothAdv::new();
    assert_eq!(adv.broadcast(&[]), Err("Empty payload".to_string()));
}

#[test]
fn fragments_are_thirty_bytes_behind_a_number() {
    let adv = BluetoothAdv::new();
    let data = vec![0xAA; 100];
    let fragments = adv.broadcast_fragmented(&data);
    assert_eq!(fragments.len(), 4);
    let last = fragments[3].as_ref().unwrap();
    assert_eq!(last[..4], [0x4E, 0x09, 11, 3]);
    assert_eq!(last.len(), 3 + 11);
}

#[test]
fn manufacturer_data_is_read_back() {
    let entries = vec![
        (0x1234u16, vec![2u8, 1, 2]),
        (MANUFACTURER_ID, vec![5u8, 1, 2]),
        (MANUFACTURER_ID, vec![2u8, 9, 8, 7]),
    ];
    assert_eq!(BluetoothAdv::extract_inertia_data(&entries), Some(vec![9, 8]));
    assert_eq!(BluetoothAdv::extract_inertia_data(&vec![(MANUFACTURER_ID, vec![0u8])]), None);
}

#[test]
fn service_data_is_a_fallback() {
    let m: Vec<(u16, Vec<u8>)> = vec![];
    let s = vec![(SERVICE_UUID, vec![1u8, 42])];
    assert_eq!(BluetoothAdv::extract_inertia_data_from_properties(&m, &s), Some(vec![42]));
    let m2 = vec![(MANUFACTURER_ID, vec![1u8, 7])];
    assert_eq!(BluetoothAdv::extract_inertia_data_from_properties(&m2, &s), Some(vec![7]));
}

#[test]
fn weak_devices_are_ignored() {
    let entries = vec![(MANUFACTURER_ID, vec![1u8, 5])];
    assert_eq!(BluetoothAdv::spore_from_device(Some(-95), &entries), None);
    assert_eq!(BluetoothAdv::spore_from_device(Some(-90), &entries), None);
    assert_eq!(BluetoothAdv::spore_from_device(None, &entries), None);
    assert_eq!(BluetoothAdv::spore_from_device(Some(-60), &entries), Some(vec![5]));
}

#[test]
fn nothing_assembles_to_nothing() {
    assert!(BluetoothAdv::assemble_fragments(Vec::new()).is_empty());
    assert_eq!(BluetoothAdv::assemble_fragments(vec![vec![]]), vec![Vec::<u8>::new()]);
}
