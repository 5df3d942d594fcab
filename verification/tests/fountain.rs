use inertia::transport::fountain::{
    calculate_checksum, DegreeDistribution, EncodedSymbol, FountainCodec, FountainDecoder,
    GeneticMemory, DEFAULT_SYMBOL_SIZE,
};
use rand::Rng;

#[test]
fn test_encode_decode_small() {
    let mut codec = FountainCodec::new();
    let data = b"Hello, Inertia!";

    let block = codec.encode(data);
    let mut decoder = FountainCodec::new().create_decoder();

    let mut decoded = None;
    for _ in 0..block.symbol_count * 2 {
        let symbol = codec.generate_symbol(&block, 1);
        if let Some(result) = decoder.add_symbol(symbol) {
            decoded = Some(result);
            break;
        }
    }

    assert!(decoded.is_some());
    if let Some(result) = decoded {
        assert_eq!(&result[..data.len()], data.as_slice());
    }
}

/// Spore degrees for storing `len` bytes, drawn at random between one and the
/// number of source symbols.
fn random_degrees(len: usize) -> Vec<usize> {
    let k = GeneticMemory::symbol_count_for(len);
    let mut rng = rand::thread_rng();
    (0..GeneticMemory::spore_count_for(len)).map(|_| rng.gen_range(1..=k)).collect()
}

#[test]
fn test_genetic_memory() {
    let mut memory = GeneticMemory::new();

    let data1 = b"First message for genetic memory";
    let data2 = b"Second message that will be recovered from spores";

    let d1 = random_degrees(data1.len());
    let d2 = random_degrees(data2.len());
    memory.store(data1, &d1);
    memory.store(data2, &d2);

    let spores = memory.get_spores_to_broadcast(50);

    let mut new_memory = GeneticMemory::new();
    let integrated = new_memory.integrate_spores(spores);
    assert!(integrated > 0);

    let recovered = new_memory.recover();
    assert!(!recovered.is_empty());
}

#[test]
fn test_spore_integration() {
    let mut memory1 = GeneticMemory::new();
    let mut memory2 = GeneticMemory::new();

    let data = b"Shared secret between nodes";
    let degrees = random_degrees(data.len());
    memory1.store(data, &degrees);

    let spores = memory1.get_spores_to_broadcast(20);
    let integrated = memory2.integrate_spores(spores);

    assert!(integrated > 0);

    let recovered = memory2.recover();
    assert!(!recovered.is_empty());
}

#[test]
fn test_recovery_from_fragments() {
    let mut codec = FountainCodec::new();
    let data = vec![0x42; 5000];
    let block = codec.encode(&data);

    let mut decoder = FountainCodec::new().create_decoder();

    // Only 80% of the symbols a block needs.
    let target = (block.symbol_count as f64 * 0.8) as usize;
    let mut rng = rand::thread_rng();
    let mut symbols = Vec::new();
    for _ in 0..target {
        let degree = rng.gen_range(1..=block.symbol_count.min(4));
        symbols.push(codec.generate_symbol(&block, degree));
    }

    let mut decoded = None;
    for symbol in symbols {
        if let Some(result) = decoder.add_symbol(symbol) {
            decoded = Some(result);
            break;
        }
    }
    let _ = decoded;

    let progress = match decoder.decoding_progress([0u8; 32]) {
        Some((done, total)) => done as f64 / total as f64,
        None => 0.0,
    };
    assert!(progress >= 0.0);
    assert!(progress <= 1.0);
}

#[test]
fn decoder_peels_spores_arriving_out_of_order() {
    let mut d = FountainDecoder::new(16);
    let s2 = EncodedSymbol { index: 1, degree: 2, neighbors: vec![0, 1], data: vec![2, 6], checksum: 8 };
    let s1 = EncodedSymbol { index: 0, degree: 1, neighbors: vec![0], data: vec![1, 2], checksum: 3 };
    assert_eq!(d.add_symbol(s2), None);
    assert_eq!(d.decoding_progress([0u8; 32]), Some((0, 2)));
    assert_eq!(d.add_symbol(s1), Some(vec![1u8, 2, 3, 4]));
    assert_eq!(d.decoding_progress([0u8; 32]), Some((2, 2)));
}

#[test]
fn decoder_strips_padding_of_short_spores() {
    let mut d = FountainDecoder::new(4);
    let s = EncodedSymbol { index: 0, degree: 1, neighbors: vec![0], data: vec![7, 0, 0], checksum: 7 };
    assert_eq!(d.add_symbol(s), Some(vec![7u8]));
}

#[test]
fn decoder_keeps_answering_once_complete() {
    let mut d = FountainDecoder::new(2);
    let s = EncodedSymbol { index: 0, degree: 1, neighbors: vec![0], data: vec![5, 6], checksum: 11 };
    assert_eq!(d.add_symbol(s), Some(vec![5u8, 6]));
    let other = EncodedSymbol { index: 1, degree: 1, neighbors: vec![0], data: vec![9, 9], checksum: 18 };
    assert_eq!(d.add_symbol(other), Some(vec![5u8, 6]));
}

#[test]
fn encode_splits_into_padded_symbols() {
    let mut codec = FountainCodec::with_symbol_size(4);
    let block = codec.encode(&[1, 2, 3, 4, 5, 6]);
    assert_eq!(block.symbol_count, 2);
    assert_eq!(block.total_size, 6);
    assert_eq!(block.symbols[0], vec![1, 2, 3, 4]);
    assert_eq!(block.symbols[1], vec![5, 6, 0, 0]);
    assert_eq!(block.id, *blake3::hash(&[1, 2, 3, 4, 5, 6]).as_bytes());
}

#[test]
fn spore_of_all_symbols_is_their_xor() {
    let mut codec = FountainCodec::with_symbol_size(2);
    let block = codec.encode(&[0x0F, 0xF0, 0x33, 0x01]);
    let s = codec.generate_symbol(&block, 2);
    assert_eq!(s.index, 0);
    assert_eq!(s.degree, 2);
    assert_eq!(s.neighbors, vec![0, 1]);
    assert_eq!(s.data, vec![0x0F ^ 0x33, 0xF0 ^ 0x01]);
    assert_eq!(s.checksum, calculate_checksum(&s.data));
    let t = codec.generate_symbol(&block, 1);
    assert_eq!(t.index, 1);
}

#[test]
fn checksum_is_wrapping_byte_sum() {
    assert_eq!(calculate_checksum(&[]), 0);
    assert_eq!(calculate_checksum(&[1, 2, 3]), 6);
    assert_eq!(calculate_checksum(&[255, 255]), 510);
}

#[test]
fn decoder_peels_and_reassembles() {
    let mut codec = FountainCodec::with_symbol_size(2);
    let data = [7u8, 8, 9, 10];
    let block = codec.encode(&data);
    let mut decoder = FountainDecoder::new(2);
    let both = codec.generate_symbol(&block, 2);
    assert!(decoder.add_symbol(both).is_none());
    assert_eq!(decoder.decoding_progress([0u8; 32]), Some((0, 2)));
    let single = codec.generate_symbol(&block, 1);
    let out = decoder.add_symbol(single).unwrap();
    assert_eq!(out, data.to_vec());
    assert_eq!(decoder.decoding_progress([0u8; 32]), Some((2, 2)));
    assert_eq!(decoder.decoding_progress([1u8; 32]), None);
}

#[test]
fn trailing_zeros_are_stripped() {
    let mut codec = FountainCodec::with_symbol_size(4);
    let block = codec.encode(&[5, 0, 6, 0, 0]);
    let mut decoder = codec.create_decoder();
    assert!(decoder.add_symbol(codec.generate_symbol(&block, 2)).is_none());
    let out = decoder.add_symbol(codec.generate_symbol(&block, 1));
    assert_eq!(out.unwrap(), vec![5, 0, 6]);
}

#[test]
fn genetic_memory_stats_and_pruning() {
    let mut memory = GeneticMemory::new();
    let data = vec![9u8; 3000];
    let n = GeneticMemory::spore_count_for(data.len());
    assert_eq!(GeneticMemory::symbol_count_for(data.len()), 3);
    assert_eq!(n, 4);
    memory.store(&data, &vec![1usize; n]);
    let st = memory.memory_stats();
    assert_eq!(st.total_spores, 4);
    assert_eq!(st.estimated_data_size, 4 * DEFAULT_SYMBOL_SIZE);
    assert_eq!(st.stored_blocks, 1);
    assert_eq!(memory.prune_old_spores(10), 0);
    assert_eq!(memory.prune_old_spores(1), 3);
    assert_eq!(memory.memory_stats().total_spores, 1);
}

#[test]
fn storing_the_same_data_twice_keeps_one_block() {
    let mut memory = GeneticMemory::new();
    let data = b"same";
    let degrees = vec![1usize; GeneticMemory::spore_count_for(data.len())];
    let a = memory.store(data, &degrees);
    let b = memory.store(data, &degrees);
    assert_eq!(a, b);
    assert_eq!(memory.memory_stats().stored_blocks, 1);
}

#[test]
fn integrating_known_spores_adds_nothing() {
    let mut memory = GeneticMemory::new();
    let data = b"spore";
    let degrees = vec![1usize; GeneticMemory::spore_count_for(data.len())];
    memory.store(data, &degrees);
    let spores = memory.get_spores_to_broadcast(5);
    assert_eq!(spores.len(), 1);
    assert_eq!(memory.integrate_spores(spores), 0);
}

#[test]
fn distributions_are_kept() {
    let codec = FountainCodec::with_distribution(DegreeDistribution::Soliton);
    assert_eq!(codec.distribution(), DegreeDistribution::Soliton);
    assert_eq!(codec.symbol_size(), DEFAULT_SYMBOL_SIZE);
    assert_eq!(DegreeDistribution::default(), DegreeDistribution::RobustSoliton);
}

#[test]
fn integrated_spores_give_the_message_back() {
    let mut m1 = GeneticMemory::new();
    let mut m2 = GeneticMemory::new();
    let data = b"Shared secret between nodes";
    m1.store(data, &random_degrees(data.len()));
    assert!(m2.integrate_spores(m1.get_spores_to_broadcast(20)) > 0);
    let recovered = m2.recover();
    assert!(!recovered.is_empty());
    assert_eq!(recovered[0], data.to_vec());
}
