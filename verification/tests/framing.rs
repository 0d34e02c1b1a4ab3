use syncr::network::{classify_eof, decode_frame, encode_frame, Message};
use syncr::SyncrError;

#[test]
fn frame_round_trip_leaves_trailing_bytes() {
    let payload: Vec<u8> = vec![1, 2, 3];
    let mut framed = encode_frame(&payload);
    assert_eq!(framed, vec![0, 0, 0, 3, 1, 2, 3]);
    framed.push(0xff);
    framed.push(0xee);
    let decoded = decode_frame(&framed);
    assert_eq!(decoded, Some((vec![1, 2, 3], 7)));
}

#[test]
fn decode_waits_for_a_whole_frame() {
    assert_eq!(decode_frame(&vec![]), None);
    assert_eq!(decode_frame(&vec![0, 0, 0]), None);
    assert_eq!(decode_frame(&vec![0, 0, 0, 5, 1, 2]), None);
    assert_eq!(decode_frame(&vec![0, 0, 0, 0]), Some((vec![], 4)));
}

#[test]
fn eof_with_leftover_bytes_is_a_reset() {
    assert_eq!(classify_eof(0), Ok(()));
    assert_eq!(classify_eof(17), Err(SyncrError::ConnectionResetByPeer));
}

#[test]
fn message_kinds_name_their_variants() {
    assert_eq!(Message::FileName(String::new()).kind(), "FileName");
    assert_eq!(Message::WeakChecksums(vec![]).kind(), "WeakChecksums");
    assert_eq!(Message::StrongChecksumRequest(vec![]).kind(), "StrongChecksumRequest");
    assert_eq!(Message::StrongChecksums(vec![]).kind(), "StrongChecksums");
    assert_eq!(Message::Matches(vec![]).kind(), "Matches");
    assert_eq!(Message::Instructions(vec![]).kind(), "Instructions");
}
