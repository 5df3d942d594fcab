use inertia::transport::lora::{
    BufferedPacket, LoRaHeader, LoRaPacket, LoRaPacketType, LoraTransport, HEADER_LEN,
    MAX_PACKET_SIZE, MESH_HOPS_MAX, ROUTING_TABLE_SIZE,
};

fn sample_packet(dst: [u8; 16], payload: Vec<u8>) -> LoRaPacket {
    LoRaPacket {
        header: LoRaHeader {
            packet_type: LoRaPacketType::Encounter,
            src_id: [7u8; 16],
            dst_id: dst,
            hop_count: 2,
            ttl: 5,
            packet_id: 0x0102_0304,
            timestamp: 0x1122_3344_5566_7788,
            payload_len: payload.len() as u16,
        },
        payload,
    }
}

#[test]
fn packet_encoding_layout() {
    let p = sample_packet([9u8; 16], vec![0xAB, 0xCD]);
    let bytes = LoraTransport::encode_packet_static(&p);
    assert_eq!(bytes.len(), HEADER_LEN + 2);
    assert_eq!(bytes[0], 0x06);
    assert_eq!(&bytes[1..17], &[7u8; 16]);
    assert_eq!(&bytes[17..33], &[9u8; 16]);
    assert_eq!(bytes[33], 2);
    assert_eq!(bytes[34], 5);
    assert_eq!(&bytes[35..39], &[0x04, 0x03, 0x02, 0x01]);
    assert_eq!(&bytes[39..47], &0x1122_3344_5566_7788u64.to_le_bytes());
    assert_eq!(&bytes[47..49], &[2, 0]);
    assert_eq!(&bytes[49..], &[0xAB, 0xCD]);
}

#[test]
fn decode_reads_back_encoding() {
    let p = sample_packet([9u8; 16], vec![1, 2, 3]);
    let bytes = LoraTransport::encode_packet_static(&p);
    assert!(LoraTransport::decode_in_bounds(&bytes));
    let q = LoraTransport::decode_packet(&bytes).unwrap();
    assert_eq!(q.header.packet_type, LoRaPacketType::Encounter);
    assert_eq!(q.header.src_id, p.header.src_id);
    assert_eq!(q.header.dst_id, p.header.dst_id);
    assert_eq!(q.header.hop_count, 2);
    assert_eq!(q.header.ttl, 5);
    assert_eq!(q.header.packet_id, 0x0102_0304);
    assert_eq!(q.header.timestamp, 0x1122_3344_5566_7788);
    assert_eq!(q.payload, vec![1, 2, 3]);
}

#[test]
fn short_or_unknown_frames_are_ignored() {
    assert!(LoraTransport::decode_packet(&[1u8; 39]).is_none());
    let mut bytes = LoraTransport::encode_packet_static(&sample_packet([0u8; 16], vec![]));
    bytes[0] = 0x09;
    assert!(LoraTransport::decode_packet(&bytes).is_none());
}

#[test]
fn truncated_frames_are_flagged() {
    assert!(!LoraTransport::decode_in_bounds(&[1u8; 45]));
    let mut bytes = LoraTransport::encode_packet_static(&sample_packet([0u8; 16], vec![1, 2]));
    bytes.pop();
    assert!(!LoraTransport::decode_in_bounds(&bytes));
    assert!(LoraTransport::decode_in_bounds(&[0u8; 45]));
}

#[test]
fn packet_type_bytes() {
    assert_eq!(LoRaPacketType::Data.to_byte(), 1);
    assert_eq!(LoRaPacketType::Block.to_byte(), 7);
    assert_eq!(LoRaPacketType::from_byte(3), Some(LoRaPacketType::Ack));
    assert_eq!(LoRaPacketType::from_byte(0), None);
}

#[test]
fn send_builds_a_data_packet() {
    let mut t = LoraTransport::new([1u8; 16]);
    let (frame, target) = t.send([2u8; 16], b"hello", 1000).unwrap();
    assert_eq!(target, [2u8; 16]);
    let p = LoraTransport::decode_packet(&frame).unwrap();
    assert_eq!(p.header.packet_type, LoRaPacketType::Data);
    assert_eq!(p.header.src_id, [1u8; 16]);
    assert_eq!(p.header.hop_count, 0);
    assert_eq!(p.header.ttl, MESH_HOPS_MAX);
    assert_eq!(p.header.packet_id, 1);
    assert_eq!(p.header.timestamp, 1000);
    assert_eq!(p.payload, b"hello".to_vec());
    let (frame2, _) = t.broadcast(b"x", 1001).unwrap();
    let p2 = LoraTransport::decode_packet(&frame2).unwrap();
    assert_eq!(p2.header.packet_id, 2);
    assert_eq!(p2.header.dst_id, [0u8; 16]);
}

#[test]
fn oversized_data_is_refused() {
    let mut t = LoraTransport::new([1u8; 16]);
    let big = vec![0u8; MAX_PACKET_SIZE - HEADER_LEN + 1];
    assert_eq!(t.send([2u8; 16], &big, 0), Err("Data too large for LoRa packet".to_string()));
    let (frame, _) = t.send([2u8; 16], &big[1..], 0).unwrap();
    assert_eq!(frame.len(), MAX_PACKET_SIZE);
}

#[test]
fn routes_are_found_and_updated() {
    let mut t = LoraTransport::new([1u8; 16]);
    assert_eq!(t.find_next_hop(&[5u8; 16]), None);
    t.update_routing_table([5u8; 16], [6u8; 16], 2, 10);
    assert_eq!(t.find_next_hop(&[5u8; 16]), Some([6u8; 16]));
    t.update_routing_table([5u8; 16], [8u8; 16], 1, 20);
    assert_eq!(t.find_next_hop(&[5u8; 16]), Some([8u8; 16]));
    let (_, target) = t.send([5u8; 16], b"via", 30).unwrap();
    assert_eq!(target, [8u8; 16]);
}

#[test]
fn full_table_drops_oldest_route() {
    let mut t = LoraTransport::new([1u8; 16]);
    for i in 0..100u8 {
        let mut id = [0u8; 16];
        id[0] = i;
        id[1] = 1;
        t.update_routing_table(id, id, 1, 1000 + i as u64);
    }
    let mut newest = [0u8; 16];
    newest[0] = 200;
    t.update_routing_table(newest, newest, 1, 5000);
    let mut oldest = [0u8; 16];
    oldest[1] = 1;
    assert_eq!(t.find_next_hop(&oldest), None);
    assert_eq!(t.find_next_hop(&newest), Some(newest));
}

#[test]
fn frames_for_this_node_are_kept_others_relayed() {
    let mut t = LoraTransport::new([1u8; 16]);
    let mine = LoraTransport::encode_packet_static(&sample_packet([1u8; 16], vec![1]));
    let other = LoraTransport::encode_packet_static(&sample_packet([3u8; 16], vec![2]));
    t.handle_frame(&mine, 100);
    t.handle_frame(&other, 100);
    t.handle_frame(&[0u8; 10], 100);
    assert_eq!(t.find_next_hop(&[7u8; 16]), Some([7u8; 16]));
    let inbox = t.receive_all();
    assert_eq!(inbox.len(), 1);
    assert_eq!(inbox[0].payload, vec![1]);
    assert!(t.receive_all().is_empty());
    let due = t.take_due_packets(100);
    assert_eq!(due.len(), 1);
    assert_eq!(due[0].packet.payload, vec![2]);
    assert_eq!(due[0].retry_count, 0);
}

#[test]
fn relaying_counts_hops() {
    let mut t = LoraTransport::new([1u8; 16]);
    t.forward_packet(&sample_packet([3u8; 16], vec![4]), 50);
    let due = t.take_due_packets(50);
    assert_eq!(due.len(), 1);
    assert_eq!(due[0].packet.header.hop_count, 3);
    assert_eq!(due[0].packet.header.ttl, 4);
    let mut last_hop = sample_packet([3u8; 16], vec![4]);
    last_hop.header.ttl = 1;
    t.forward_packet(&last_hop, 50);
    t.forward_packet(&sample_packet([1u8; 16], vec![4]), 50);
    assert!(t.take_due_packets(50).is_empty());
}

#[test]
fn failed_writes_back_off_then_give_up() {
    let mut t = LoraTransport::new([1u8; 16]);
    let b = BufferedPacket { packet: sample_packet([3u8; 16], vec![]), retry_count: 0, next_retry: 0 };
    t.reschedule_failed(b, 100);
    assert!(t.take_due_packets(101).is_empty());
    let b = BufferedPacket { packet: sample_packet([3u8; 16], vec![]), retry_count: 2, next_retry: 0 };
    t.reschedule_failed(b, 100);
    let due = t.take_due_packets(108);
    assert_eq!(due.len(), 2);
    assert_eq!(due[0].retry_count, 1);
    assert_eq!(due[0].next_retry, 102);
    assert_eq!(due[1].retry_count, 3);
    assert_eq!(due[1].next_retry, 108);
    let b = BufferedPacket { packet: sample_packet([3u8; 16], vec![]), retry_count: 3, next_retry: 0 };
    t.reschedule_failed(b, 100);
    assert!(t.take_due_packets(u64::MAX).is_empty());
}

#[test]
fn run_state_and_settings() {
    let mut t = LoraTransport::new([4u8; 16]);
    assert!(!t.is_running());
    t.start();
    assert!(t.is_running());
    t.stop();
    assert!(!t.is_running());
    assert_eq!(t.frequency(), 868_000_000);
    assert_eq!(t.spreading_factor(), 9);
    assert_eq!(t.tx_power(), 20);
    assert_eq!(t.node_id(), [4u8; 16]);
}

#[test]
fn full_table_drops_the_first_of_the_oldest_routes() {
    let mut t = LoraTransport::new([1u8; 16]);
    for i in 0..ROUTING_TABLE_SIZE {
        let mut id = [0u8; 16];
        id[0] = i as u8;
        id[1] = 1;
        t.update_routing_table(id, id, 1, 5);
    }
    t.update_routing_table([9u8; 16], [9u8; 16], 1, 10);
    let mut first = [0u8; 16];
    first[1] = 1;
    let mut second = [0u8; 16];
    second[0] = 1;
    second[1] = 1;
    assert_eq!(t.find_next_hop(&first), None);
    assert_eq!(t.find_next_hop(&second), Some(second));
    assert_eq!(t.find_next_hop(&[9u8; 16]), Some([9u8; 16]));
}
