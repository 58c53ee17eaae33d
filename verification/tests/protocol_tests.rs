use elix::bytes_util::{encode_string_as_bytes, pad_until_len};
use elix::network_utils::{code_ack, CODE_SIZE};
use elix::networking::{
    build_chunk_frame, checksum_reply, keep_accepting, may_start_task, order_fragments,
    parse_chunk_frame, reply_matches, task_finished, task_started, CAP,
};

fn code_frame(code: &str) -> Vec<u8> {
    pad_until_len(encode_string_as_bytes(String::from(code)), CODE_SIZE)
}

#[test]
fn code_ack_accepts_matching_code() {
    // law_handshake: equal codes are acknowledged with 1
    assert_eq!(code_ack(code_frame("aB3xZ"), &String::from("aB3xZ")), 1);
}

#[test]
fn code_ack_refuses_other_code() {
    // law_handshake: any other code gets 0
    assert_eq!(code_ack(code_frame("aB3xZ"), &String::from("aB3xY")), 0);
    assert_eq!(code_ack(code_frame("aB3x"), &String::from("aB3xZ")), 0);
    assert_eq!(code_ack(code_frame(""), &String::from("aB3xZ")), 0);
}

#[test]
fn code_ack_trims_trailing_nul_only() {
    let mut buf = b"code1".to_vec();
    buf.extend_from_slice(&[0u8; 10]);
    assert_eq!(code_ack(buf, &String::from("code1")), 1);
    let mut lead = vec![0u8, 0];
    lead.extend_from_slice(b"code1");
    assert_eq!(code_ack(lead, &String::from("code1")), 0);
}

#[test]
fn chunk_frame_layout() {
    let (frame, checksum) = build_chunk_frame(3, b"hello".to_vec());
    assert_eq!(frame.len(), CAP + 8);
    assert_eq!(&frame[0..4], &[3u8, 0, 0, 0]);
    assert_eq!(&frame[4..8], &[5u8, 0, 0, 0]);
    assert_eq!(&frame[8..13], b"hello");
    assert!(frame[13..].iter().all(|b| *b == 0));
    // CRC-32 of "hello"
    assert_eq!(checksum, 0x3610a686);
}

#[test]
fn chunk_frame_full_chunk_is_not_padded() {
    assert_eq!(CAP, 262144);
    let bytes = vec![0u8; CAP];
    let (frame, checksum) = build_chunk_frame(0, bytes);
    assert_eq!(frame.len(), CAP + 8);
    assert_eq!(&frame[4..8], &[0u8, 0, 4, 0]);
    assert_eq!(checksum, 0xe20eea22);
}

#[test]
fn empty_chunk_frame() {
    let (frame, checksum) = build_chunk_frame(1, Vec::new());
    assert_eq!(frame.len(), 8 + 262144);
    assert_eq!(&frame[..8], &[1u8, 0, 0, 0, 0, 0, 0, 0]);
    assert_eq!(checksum, 0);
    let (id, payload) = parse_chunk_frame(frame);
    assert_eq!(id, 1);
    assert!(payload.is_empty());
}

#[test]
fn chunk_frame_roundtrip() {
    // law_chunk_frame_roundtrip
    let (frame, _) = build_chunk_frame(2252, b"tail of the file".to_vec());
    let (id, payload) = parse_chunk_frame(frame);
    assert_eq!(id, 2252);
    assert_eq!(payload, b"tail of the file".to_vec());
}

#[test]
fn parse_chunk_frame_reads_announced_length() {
    let frame = vec![7u8, 0, 0, 0, 3, 0, 0, 0, 10, 20, 30, 40, 50];
    let (id, payload) = parse_chunk_frame(frame);
    assert_eq!(id, 7);
    assert_eq!(payload, vec![10u8, 20, 30]);
}

#[test]
fn parse_chunk_frame_empty_payload() {
    let (id, payload) = parse_chunk_frame(vec![1u8, 1, 0, 0, 0, 0, 0, 0]);
    assert_eq!(id, 257);
    assert!(payload.is_empty());
}

#[test]
fn checksum_reply_is_little_endian_crc() {
    assert_eq!(checksum_reply(&b"abc".to_vec()), vec![0xC2u8, 0x41, 0x24, 0x35]);
    assert_eq!(checksum_reply(&Vec::new()), vec![0u8; 4]);
}

#[test]
fn reply_matches_compares_checksum() {
    assert!(reply_matches(0x352441c2, vec![0xC2u8, 0x41, 0x24, 0x35]));
    assert!(!reply_matches(0x352441c3, vec![0xC2u8, 0x41, 0x24, 0x35]));
}

#[test]
fn intact_chunk_confirmed() {
    // law_intact_chunk_confirmed
    let (frame, checksum) = build_chunk_frame(9, b"some bytes".to_vec());
    assert_eq!(checksum, 0x9f597f55);
    let (_, payload) = parse_chunk_frame(frame);
    assert!(reply_matches(checksum, checksum_reply(&payload)));
}

#[test]
fn corrupted_chunk_not_confirmed() {
    let (frame, checksum) = build_chunk_frame(9, b"some bytes".to_vec());
    let (_, mut payload) = parse_chunk_frame(frame);
    payload[0] ^= 1;
    assert!(!reply_matches(checksum, checksum_reply(&payload)));
}

#[test]
fn order_fragments_sorts_by_id() {
    let input = vec![
        (2usize, vec![2u8]),
        (0usize, vec![0u8]),
        (3usize, vec![3u8]),
        (1usize, vec![1u8]),
    ];
    let out = order_fragments(input);
    let ids: Vec<usize> = out.iter().map(|f| f.0).collect();
    assert_eq!(ids, vec![0, 1, 2, 3]);
    let data: Vec<u8> = out.iter().flat_map(|f| f.1.clone()).collect();
    assert_eq!(data, vec![0u8, 1, 2, 3]);
}

#[test]
fn order_fragments_is_stable() {
    let input = vec![
        (1usize, vec![10u8]),
        (0usize, vec![0u8]),
        (1usize, vec![11u8]),
        (0usize, vec![1u8]),
    ];
    let out = order_fragments(input);
    assert_eq!(
        out,
        vec![
            (0usize, vec![0u8]),
            (0usize, vec![1u8]),
            (1usize, vec![10u8]),
            (1usize, vec![11u8]),
        ]
    );
}

#[test]
fn order_fragments_empty() {
    assert!(order_fragments(Vec::new()).is_empty());
}

#[test]
fn generated_code_accepted_by_its_sender() {
    // law_generated_code_accepted
    let code = elix::bytes_util::generate_code();
    let frame = pad_until_len(encode_string_as_bytes(code.clone()), CODE_SIZE);
    assert_eq!(code_ack(frame, &code), 1);
}

#[test]
fn fragments_at_their_index() {
    // law_fragments_at_their_index on fragments that arrived out of order
    let input: Vec<(usize, Vec<u8>)> = (0..8usize).rev().map(|i| (i, vec![i as u8; 3])).collect();
    let out = order_fragments(input);
    for (i, (id, data)) in out.iter().enumerate() {
        assert_eq!(*id, i);
        assert_eq!(*data, vec![i as u8; 3]);
    }
}

#[test]
fn keep_accepting_stops_at_announced_count() {
    assert!(keep_accepting(0, 3));
    assert!(keep_accepting(2, 3));
    assert!(!keep_accepting(3, 3));
    assert!(!keep_accepting(0, 0));
}

#[test]
fn file_reassembled() {
    // law_file_reassembled: a file of two and a half chunks, frames arriving out of order
    let file: Vec<u8> = (0..(2 * CAP + CAP / 2)).map(|i| (i % 251) as u8).collect();
    let mut frames: Vec<Vec<u8>> = file
        .chunks(CAP)
        .enumerate()
        .map(|(i, c)| build_chunk_frame(i, c.to_vec()).0)
        .collect();
    frames.reverse();
    frames.swap(0, 1);
    let received: Vec<(usize, Vec<u8>)> = frames.into_iter().map(parse_chunk_frame).collect();
    let ordered = order_fragments(received);
    let written: Vec<u8> = ordered.into_iter().flat_map(|f| f.1).collect();
    assert_eq!(written, file);
}

#[test]
fn task_throttle() {
    // law_tasks_within_limit
    assert!(may_start_task(0, 500));
    assert!(may_start_task(499, 500));
    assert!(!may_start_task(500, 500));
    assert!(!may_start_task(0, 0));
    assert_eq!(task_started(499), 500);
    assert_eq!(task_finished(500), 499);
}
