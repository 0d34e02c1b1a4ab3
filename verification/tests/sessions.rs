use syncr::network::{Instruction, Message};
use syncr::session::{apply_instructions, SourceSession, UpdaterSession, UpdaterState};
use syncr::ChecksumConfig;

/// Drives one full exchange between the two state machines, handing each
/// side's outbound messages to the other, and returns what the updater ends
/// up holding: the confirmed matches and the instruction list.
fn run_exchange(
    source_data: &[u8],
    updater_data: &[u8],
    block_size: usize,
) -> (Vec<(usize, usize)>, Vec<Instruction>) {
    let config = ChecksumConfig { block_size, modulus: 0x10000 };
    let mut updater = UpdaterSession::new(&config, String::from("remote.bin"), updater_data.to_vec());
    let mut source = SourceSession::new(&config);

    let opening = updater.start();
    let mut to_updater: Vec<Message> = Vec::new();
    for msg in opening {
        let local = if matches!(msg, Message::WeakChecksums(_)) {
            Some(source_data.to_vec())
        } else {
            None
        };
        to_updater.extend(source.handle_message(msg, local));
    }
    let mut to_source: Vec<Message> = Vec::new();
    for msg in to_updater {
        to_source.extend(updater.handle_message(msg));
    }
    let mut back_to_updater: Vec<Message> = Vec::new();
    for msg in to_source {
        back_to_updater.extend(source.handle_message(msg, None));
    }
    for msg in back_to_updater {
        updater.handle_message(msg);
    }
    assert!(matches!(updater.state, UpdaterState::Done));
    (updater.matches.clone(), updater.instructions.clone())
}

#[test]
fn identical_files_replicate_one_block() {
    let data: Vec<u8> = (0u32..1000).map(|i| (i % 256) as u8).collect();
    let (matches, instructions) = run_exchange(&data, &data, 1000);
    assert_eq!(matches, vec![(0, 0)]);
    assert_eq!(
        instructions,
        vec![Instruction::Replicate { from_offset: 0, length: 1000, new_offset: 0 }]
    );
    assert_eq!(apply_instructions(&instructions, &data), data);
}

#[test]
fn prefix_match_replicates_then_inserts() {
    let mut source: Vec<u8> = vec![b'A'; 500];
    source.extend(vec![b'B'; 500]);
    let updater: Vec<u8> = vec![b'A'; 1000];
    let (matches, instructions) = run_exchange(&source, &updater, 500);
    assert_eq!(matches, vec![(0, 0), (500, 0)]);
    assert_eq!(
        instructions,
        vec![
            Instruction::Replicate { from_offset: 0, length: 500, new_offset: 0 },
            Instruction::NewData { offset: 500, length: 500, bytes: vec![b'B'; 500] },
        ]
    );
    assert_eq!(apply_instructions(&instructions, &updater), source);
}

#[test]
fn single_byte_divergence_at_end() {
    let mut source: Vec<u8> = vec![b'a'; 1003];
    source.push(b'b');
    let updater: Vec<u8> = vec![b'a'; 1004];
    let (matches, instructions) = run_exchange(&source, &updater, 1000);
    assert_eq!(matches, vec![(0, 0), (0, 1), (0, 2), (0, 3)]);
    assert_eq!(
        instructions,
        vec![
            Instruction::Replicate { from_offset: 0, length: 1000, new_offset: 0 },
            Instruction::NewData { offset: 1000, length: 4, bytes: vec![b'a', b'a', b'a', b'b'] },
        ]
    );
    assert_eq!(apply_instructions(&instructions, &updater), source);
}

#[test]
fn no_common_content_sends_everything() {
    let source: Vec<u8> = vec![0x01; 2000];
    let updater: Vec<u8> = vec![0x00; 2000];
    let (matches, instructions) = run_exchange(&source, &updater, 1000);
    assert_eq!(matches, Vec::<(usize, usize)>::new());
    assert_eq!(
        instructions,
        vec![Instruction::NewData { offset: 0, length: 2000, bytes: source.clone() }]
    );
    assert_eq!(apply_instructions(&instructions, &updater), source);
}

fn scrambled_bytes(mut state: u32, count: usize) -> Vec<u8> {
    let mut out = Vec::with_capacity(count);
    for _ in 0..count {
        state ^= state << 13;
        state ^= state >> 17;
        state ^= state << 5;
        out.push((state & 0xff) as u8);
    }
    out
}

#[test]
fn shifted_content_back_references_the_shared_middle() {
    let common: Vec<u8> = scrambled_bytes(0x1234_5678, 2000);
    let mut updater: Vec<u8> = vec![0xAA; 50];
    updater.extend(common.iter().copied());
    let mut source: Vec<u8> = common.clone();
    source.extend(vec![0xBB; 50]);
    let (matches, instructions) = run_exchange(&source, &updater, 1000);
    assert_eq!(matches, vec![(1000, 950)]);
    let mut tail: Vec<u8> = common[1950..2000].to_vec();
    tail.extend(vec![0xBB; 50]);
    assert_eq!(
        instructions,
        vec![
            Instruction::NewData { offset: 0, length: 950, bytes: common[0..950].to_vec() },
            Instruction::Replicate { from_offset: 1000, length: 1000, new_offset: 950 },
            Instruction::NewData { offset: 1950, length: 100, bytes: tail },
        ]
    );
    assert_eq!(apply_instructions(&instructions, &updater), source);
}

#[test]
fn empty_files_terminate_with_no_instructions() {
    let (matches, instructions) = run_exchange(&[], &[], 1000);
    assert_eq!(matches, Vec::<(usize, usize)>::new());
    assert_eq!(instructions, Vec::<Instruction>::new());
}

#[test]
fn updater_clips_out_of_range_strong_requests() {
    let config = ChecksumConfig { block_size: 4, modulus: 0x10000 };
    let data: Vec<u8> = vec![9, 8, 7, 6, 5, 4];
    let mut updater = UpdaterSession::new(&config, String::from("remote.bin"), data.clone());
    updater.start();
    let replies = updater.handle_message(Message::StrongChecksumRequest(vec![0, 4, 100]));
    assert_eq!(replies.len(), 1);
    match &replies[0] {
        Message::StrongChecksums(response) => {
            assert_eq!(response.len(), 3);
            assert_eq!(response[0], (0, syncr::strong_checksum::hash(&data[0..4])));
            assert_eq!(response[1], (4, syncr::strong_checksum::hash(&data[4..6])));
            // an offset past the end is answered with the empty block there
            assert_eq!(response[2], (100, syncr::strong_checksum::hash(&[])));
        }
        other => panic!("unexpected reply {:?}", other),
    }
}

#[test]
fn sessions_ignore_messages_out_of_order() {
    let config = ChecksumConfig { block_size: 4, modulus: 0x10000 };
    let mut source = SourceSession::new(&config);
    // strong checksums before the file name change nothing and answer nothing
    let replies = source.handle_message(Message::StrongChecksums(vec![(0, 7)]), None);
    assert!(replies.is_empty());
    let mut updater = UpdaterSession::new(&config, String::from("remote.bin"), vec![1, 2, 3]);
    let replies = updater.handle_message(Message::Matches(vec![(0, 0)]));
    assert!(replies.is_empty());
    assert!(updater.matches.is_empty());
}
