use syncr::multisearch::{build_index, probe, weak_hash, Matcher};

#[test]
fn weak_hash_folds_the_halves() {
    // ((v >> 16) ^ ((v & 0xffff) * 62171)) truncated to 16 bits
    assert_eq!(weak_hash(0x0001_0002), 0xe5b7);
    assert_eq!(weak_hash(0), 0);
    assert_eq!(weak_hash(0x0001_0000), 1);
}

#[test]
fn index_round_trip_returns_each_block() {
    let weaks: Vec<u32> = vec![10, 20, 10];
    let table = build_index(&weaks, 5);
    assert_eq!(probe(&table, 10), vec![0, 10]);
    assert_eq!(probe(&table, 20), vec![5]);
    assert_eq!(probe(&table, 99), Vec::<usize>::new());
}

#[test]
fn matcher_reports_first_confirmed_offset_per_incoming_block() {
    // 1003 'a' bytes and one 'b': every full window is identical, so every
    // incoming block with that window's checksums matches offset 0 first.
    let mut data = vec![b'a'; 1003];
    data.push(b'b');
    let mut matcher = Matcher::new();
    matcher.compile(&data);

    let window_weak: u32 = 3398728424;
    let window_strong: u128 = 184256362550517203141464663675311889247;
    let incoming = vec![
        (window_weak, window_strong),
        (window_weak, window_strong),
        (window_weak, 5u128),
        (1u32, window_strong),
    ];
    let matches = matcher.find_matches(&incoming);
    assert_eq!(matches, vec![(0, 0), (1, 0)]);
}

#[test]
fn matcher_on_empty_data_matches_nothing() {
    let mut matcher = Matcher::new();
    matcher.compile(&[]);
    let matches = matcher.find_matches(&vec![(0u32, 0u128), (1u32, 1u128)]);
    assert_eq!(matches, Vec::<(usize, usize)>::new());
}
