use syncr::weak_checksum::{WeakCheckSum, WeakCheckSumBuilder, WeakCheckSumRollingIterator, WeakChecksumNonOverlappingIterator, rolling_checksum};
use syncr::strong_checksum::StrongCheckSumIterator;
use syncr::strong_checksum::{hash, StrongCheckSum};
use syncr::{CheckSum, Checksums};

fn compose(a: u32, b: u32) -> u32 {
    ((a as u64 + (b as u64) * 0x10000) % 0x1_0000_0000) as u32
}

#[test]
fn rolling_checksum_of_buffer() {
    let buffer = [0x00, 0x01, 0x02, 0x03, 0x04, 0x05, 0x06, 0x07, 0x08, 0x09];
    assert_eq!(WeakCheckSum::a_expanded(0x10000, 0, 1, &buffer), 1);
    assert_eq!(WeakCheckSum::a_expanded(0x10000, 0, 2, &buffer), 3);
}

#[test]
fn rolling_checksum_of_empty_buffer_does_not_exist() {
    let buffer: [u8; 0] = [];
    let rolling = WeakCheckSum::new();
    assert_eq!(rolling.checksums(&buffer).len(), 0);
}

#[test]
fn rolling_equals_expanded_at_every_offset() {
    let buffer: Vec<u8> = (0u32..200).map(|i| ((i * 37 + 11) % 256) as u8).collect();
    let weak = WeakCheckSumBuilder::new().block_size(16).build();
    let stream = weak.checksums(&buffer);
    assert_eq!(stream.len(), buffer.len() - 16 + 1);
    for (k, value) in stream.iter().enumerate() {
        let a = WeakCheckSum::a_expanded(0x10000, k, k + 15, &buffer);
        let b = WeakCheckSum::b_expanded(0x10000, k, k + 15, &buffer);
        assert_eq!(*value, compose(a, b), "offset {}", k);
    }
}

#[test]
fn short_buffer_yields_one_rolling_value() {
    let buffer: Vec<u8> = (0u32..900).map(|i| (i % 251) as u8).collect();
    let weak = WeakCheckSum::new();
    let stream = weak.checksums(&buffer);
    assert_eq!(stream.len(), 1);
    let a = WeakCheckSum::a_expanded(0x10000, 0, 899, &buffer);
    let b = WeakCheckSum::b_expanded(0x10000, 0, 899, &buffer);
    assert_eq!(stream[0], compose(a, b));
}

#[test]
fn empty_buffer_yields_no_values_in_any_stream() {
    let buffer: [u8; 0] = [];
    let weak = WeakCheckSum::new();
    assert_eq!(weak.checksums(&buffer).len(), 0);
    assert_eq!(weak.checksums_non_overlapping(&buffer).len(), 0);
    let strong = StrongCheckSum::new();
    assert_eq!(strong.checksums(&buffer).len(), 0);
}

#[test]
fn non_overlapping_counts_include_the_tail() {
    let weak = WeakCheckSumBuilder::new().block_size(4).build();
    let ten: Vec<u8> = (1u8..=10).collect();
    assert_eq!(weak.checksums_non_overlapping(&ten).len(), 3);
    let eight: Vec<u8> = (1u8..=8).collect();
    assert_eq!(weak.checksums_non_overlapping(&eight).len(), 2);
    let three: Vec<u8> = vec![5, 6, 7];
    assert_eq!(weak.checksums_non_overlapping(&three).len(), 1);
}

#[test]
fn non_overlapping_tail_value_covers_the_remainder() {
    let weak = WeakCheckSumBuilder::new().block_size(4).build();
    let ten: Vec<u8> = (1u8..=10).collect();
    let blocks = weak.checksums_non_overlapping(&ten);
    let a = WeakCheckSum::a_expanded(0x10000, 8, 9, &ten);
    let b = WeakCheckSum::b_expanded(0x10000, 8, 9, &ten);
    assert_eq!(blocks[2], compose(a, b));
}

#[test]
fn rolling_checksum_uses_default_configuration() {
    let buffer: Vec<u8> = vec![97; 10];
    let values = rolling_checksum(&buffer);
    assert_eq!(values.len(), 1);
    let a = WeakCheckSum::a_expanded(0x10000, 0, 9, &buffer);
    let b = WeakCheckSum::b_expanded(0x10000, 0, 9, &buffer);
    assert_eq!(values[0], compose(a, b));
}

#[test]
fn test_strong_checksum() {
    let data = b"";
    let checksum = StrongCheckSum::new();
    let checksums: Vec<u128> = checksum.checksums_non_overlapping(data);
    assert_eq!(checksums.len(), 0);
}

#[test]
fn md4_known_vectors() {
    let empty_digest: [u8; 16] = [
        0x31, 0xd6, 0xcf, 0xe0, 0xd1, 0x6a, 0xe9, 0x31, 0xb7, 0x3c, 0x59, 0xd7, 0xe0, 0xc0, 0x89,
        0xc0,
    ];
    assert_eq!(hash(b""), u128::from_le_bytes(empty_digest));
    let abc_digest: [u8; 16] = [
        0xa4, 0x48, 0x01, 0x7a, 0xaf, 0x21, 0xd8, 0x52, 0x5f, 0xc1, 0x0a, 0xe8, 0x7a, 0xa6, 0x72,
        0x9d,
    ];
    assert_eq!(hash(b"abc"), u128::from_le_bytes(abc_digest));
}

#[test]
fn strong_rolling_hashes_full_windows_only() {
    let data: Vec<u8> = (0u32..12).map(|i| i as u8).collect();
    let strong = StrongCheckSum::with_config(&syncr::ChecksumConfig { block_size: 4, modulus: 0x10000 });
    let stream = strong.checksums(&data);
    assert_eq!(stream.len(), 8);
    assert_eq!(stream[0], hash(&data[0..4]));
    assert_eq!(stream[7], hash(&data[7..11]));
    let exact: Vec<u8> = (0u32..4).map(|i| i as u8).collect();
    assert_eq!(strong.checksums(&exact).len(), 0);
}

#[test]
fn composite_streams_pair_weak_and_strong() {
    let data: Vec<u8> = (0u32..10).map(|i| (i * 3) as u8).collect();
    let checksum = CheckSum::with_config(&syncr::ChecksumConfig { block_size: 4, modulus: 0x10000 });
    let rolling = checksum.checksums(&data);
    assert_eq!(rolling.len(), 6);
    let weak_stream = checksum.weak.checksums(&data);
    let strong_stream = checksum.strong.checksums(&data);
    for k in 0..rolling.len() {
        assert_eq!(rolling[k], (weak_stream[k], strong_stream[k]));
    }
    let blocks = checksum.checksums_non_overlapping(&data);
    assert_eq!(blocks.len(), 3);
    assert_eq!(blocks[2].1, hash(&data[8..10]));
}

#[test]
fn builder_fills_in_defaults() {
    let built = WeakCheckSumBuilder::new().modulus(5003).build();
    let reference = WeakCheckSum::new();
    let buffer: Vec<u8> = vec![1, 2, 3];
    assert_eq!(built.checksums(&buffer).len(), reference.checksums(&buffer).len());
}

#[test]
fn iterators_walk_their_windows() {
    let buffer: Vec<u8> = (0u32..10).map(|i| (i * 5 + 1) as u8).collect();
    let mut rolling = WeakCheckSumRollingIterator::new(&buffer, 0x10000, 4);
    let mut count: usize = 0;
    while !rolling.is_ended() {
        assert!(rolling.next().is_some());
        count += 1;
    }
    assert_eq!(count, 7);
    assert_eq!(rolling.next(), None);

    let mut blocks = WeakChecksumNonOverlappingIterator::new(&buffer, 0x10000, 4);
    let mut values: Vec<u32> = Vec::new();
    while let Some(v) = blocks.next() {
        values.push(v);
    }
    let weak = WeakCheckSumBuilder::new().block_size(4).build();
    assert_eq!(values, weak.checksums_non_overlapping(&buffer));

    let mut strong = StrongCheckSumIterator::new(&buffer, 0, 4, 1);
    let first = strong.next();
    assert_eq!(first, Some(syncr::strong_checksum::hash(&buffer[0..4])));
}
