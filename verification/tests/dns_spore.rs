use inertia::encoding::{hex_padded8, parse_hex_usize};
use inertia::transport::dns_spore::{
    DnsQueryType, DnsSpore, DNS_SPORE_PREFIX, DNS_SPORE_SUFFIX, MAX_FULL_DOMAIN, PAYLOAD_CHUNK_SIZE,
};

#[test]
fn test_encode_decode_chunk() {
    let spore = DnsSpore::new();
    let original = b"Hello, Inertia! This is a test message for DNS parasitism.";
    let chunk = &original[..32];

    let timestamp = 12345678u64;
    let chunk_id = format!("{:08x}", timestamp);
    let domain = spore.encode_chunk_to_domain(chunk, 0, 3, chunk_id.as_bytes());
    let domain = String::from_utf8(domain).unwrap();

    assert!(domain.contains(DNS_SPORE_PREFIX));
    assert!(domain.contains(DNS_SPORE_SUFFIX));
    assert!(domain.contains(&chunk_id));
}

#[test]
fn test_chunk_size() {
    let data = vec![0u8; 100];
    let chunks: Vec<_> = data.chunks(PAYLOAD_CHUNK_SIZE).collect();
    assert_eq!(chunks.len(), 4);
}

#[test]
fn test_assemble_messages() {
    let chunks = vec![
        ("abc123-00-02".to_string(), vec![0x01, 0x02, 0x03]),
        ("abc123-01-02".to_string(), vec![0x04, 0x05, 0x06]),
    ];

    let messages = DnsSpore::assemble_messages(&chunks);
    assert_eq!(messages.len(), 1);
    assert_eq!(messages[0], vec![0x01, 0x02, 0x03, 0x04, 0x05, 0x06]);
}

#[test]
fn test_domain_length_limit() {
    let spore = DnsSpore::new();
    let large_chunk = vec![0u8; PAYLOAD_CHUNK_SIZE];
    let timestamp = 12345678u64;
    let chunk_id = format!("{:08x}", timestamp);

    let domain = spore.encode_chunk_to_domain(&large_chunk, 0, 1, chunk_id.as_bytes());
    assert!(domain.len() <= MAX_FULL_DOMAIN);
}

#[test]
fn domain_layout_is_labels_id_and_suffix() {
    let spore = DnsSpore::new();
    let domain = spore.encode_chunk_to_domain(b"Hi", 0, 1, b"00bc614e");
    assert_eq!(String::from_utf8(domain).unwrap(), "inertiaJBUQ.00bc614e.spore");
}

#[test]
fn long_text_is_split_into_labels() {
    let spore = DnsSpore::new();
    let chunk = vec![0xFFu8; 40];
    let domain = String::from_utf8(spore.encode_chunk_to_domain(&chunk, 0, 1, b"id")).unwrap();
    let labels: Vec<&str> = domain.split('.').collect();
    assert_eq!(labels.len(), 4);
    assert_eq!(labels[0].len(), 7 + 55);
    assert_eq!(labels[1].len(), 7 + 9);
    assert_eq!(labels[2], "id");
    assert_eq!(labels[3], "spore");
}

#[test]
fn chunk_ids_are_eight_hex_digits() {
    assert_eq!(hex_padded8(12345678), b"00bc614e".to_vec());
    assert_eq!(hex_padded8(0), b"00000000".to_vec());
    assert_eq!(hex_padded8(0x1_0000_0000), b"100000000".to_vec());
    assert_eq!(String::from_utf8(hex_padded8(12345678)).unwrap(), format!("{:08x}", 12345678u64));
}

#[test]
fn hex_numbers_parse_like_from_str_radix() {
    assert_eq!(parse_hex_usize(b"0a"), Some(10));
    assert_eq!(parse_hex_usize(b"+FF"), Some(255));
    assert_eq!(parse_hex_usize(b""), None);
    assert_eq!(parse_hex_usize(b"+"), None);
    assert_eq!(parse_hex_usize(b"zz"), None);
    assert_eq!(parse_hex_usize(b"1ffffffffffffffffffff"), None);
    assert_eq!(parse_hex_usize(b"ff").map(|v| v as u64), usize::from_str_radix("ff", 16).ok().map(|v| v as u64));
}

#[test]
fn spore_domains_cover_every_chunk() {
    let spore = DnsSpore::new();
    let payload = vec![1u8; 70];
    let domains = spore.spore_domains(&payload, 12345678).unwrap();
    assert_eq!(domains.len(), 3);
    for d in &domains {
        assert!(String::from_utf8(d.clone()).unwrap().ends_with(".00bc614e.spore"));
    }
    assert_eq!(spore.spore_domains(&[], 1), Err("Empty payload".to_string()));
}

#[test]
fn broadcast_succeeds_when_any_query_does() {
    let ok: Vec<Result<(), String>> = vec![Err("a".into()), Ok(())];
    assert_eq!(DnsSpore::broadcast_outcome(&ok), Ok(()));
    let bad: Vec<Result<(), String>> = vec![Err("a".into())];
    assert_eq!(DnsSpore::broadcast_outcome(&bad), Err("All DNS queries failed".to_string()));
    assert_eq!(DnsSpore::broadcast_outcome(&Vec::new()), Err("All DNS queries failed".to_string()));
}

#[test]
fn messages_group_by_id_and_order_by_number() {
    let chunks = vec![
        ("b-01-02".to_string(), vec![4]),
        ("a-0a-0b".to_string(), vec![2]),
        ("b-00-02".to_string(), vec![3]),
        ("bad".to_string(), vec![9]),
        ("a-zz-0b".to_string(), vec![1]),
        ("c-00-01".to_string(), vec![]),
    ];
    let messages = DnsSpore::assemble_messages(&chunks);
    assert_eq!(messages, vec![vec![3, 4], vec![1, 2]]);
}

#[test]
fn harvest_keeps_first_chunk_per_name_and_empties() {
    let mut spore = DnsSpore::new();
    spore.store_chunk("x-00-01".to_string(), vec![1]);
    spore.store_chunk("x-00-01".to_string(), vec![2]);
    spore.harvest_round();
    let messages = spore.get_harvested();
    assert_eq!(messages, vec![vec![1]]);
    assert!(spore.get_harvested().is_empty());
    assert!(spore.search_historical(24).is_empty());
}

#[test]
fn settings_are_kept() {
    let spore = DnsSpore::with_query_type(DnsQueryType::TXT);
    assert_eq!(spore.query_type(), DnsQueryType::TXT);
    assert_eq!(spore.resolvers().len(), 8);
    let spore2 = DnsSpore::with_resolvers(vec!["1.1.1.1".to_string()]);
    assert_eq!(spore2.resolvers(), &vec!["1.1.1.1".to_string()]);
    assert_eq!(DnsQueryType::default(), DnsQueryType::A);
    assert_eq!(DnsQueryType::MX.record_name(), "MX");
    let mut s = DnsSpore::new();
    assert!(s.start_harvesting().is_ok());
    assert!(s.is_harvesting());
    s.stop_harvesting();
    assert!(!s.is_harvesting());
}
