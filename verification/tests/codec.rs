use chunkstore::codec::{assemble_chunks, encode_payload, split_chunks, split_payload};
use chunkstore::errors::Error;

#[test]
fn encode_prefixes_name_and_newline() {
    let data = vec![104u8, 105];
    let payload = encode_payload("hello.txt", &data);
    assert_eq!(payload, b"hello.txt\nhi".to_vec());
}

#[test]
fn encode_empty_name_and_data() {
    let payload = encode_payload("", &Vec::new());
    assert_eq!(payload, vec![10u8]);
}

#[test]
fn split_recovers_name_and_content() {
    let payload = b"hello.txt\nhi".to_vec();
    let (content, name) = split_payload(payload).unwrap();
    assert_eq!(content, b"hi".to_vec());
    assert_eq!(name, "hello.txt");
}

#[test]
fn split_without_newline_degrades_to_empty_name() {
    let payload = b"no separator here".to_vec();
    let (content, name) = split_payload(payload).unwrap();
    assert_eq!(content, b"no separator here".to_vec());
    assert_eq!(name, "");
}

#[test]
fn split_rejects_non_utf8_name() {
    let payload = vec![0xFFu8, 0x0A, 1, 2];
    let r = split_payload(payload);
    assert!(matches!(r, Err(Error::Decode(_))));
}

#[test]
fn split_non_ascii_name_round_trips() {
    let data = vec![1u8, 2, 3];
    let payload = encode_payload("dat\u{00e9}.bin", &data);
    let (content, name) = split_payload(payload).unwrap();
    assert_eq!(content, data);
    assert_eq!(name, "dat\u{00e9}.bin");
}

#[test]
fn chunks_cover_payload_in_order() {
    let payload = b"abcdefghij".to_vec();
    let chunks = split_chunks(&payload, 4);
    assert_eq!(chunks.len(), 3);
    assert_eq!(chunks[0], b"abcd".to_vec());
    assert_eq!(chunks[1], b"efgh".to_vec());
    assert_eq!(chunks[2], b"ij".to_vec());
}

#[test]
fn empty_payload_still_yields_one_chunk() {
    let chunks = split_chunks(&Vec::new(), 4);
    assert_eq!(chunks.len(), 1);
    assert!(chunks[0].is_empty());
}

#[test]
fn chunk_count_is_ceiling_of_length_over_size() {
    // payload of length L + len(N) + 1 = 2 + 10 + 1 = 13, size 5 -> ceil = 3
    let payload = encode_payload("abcdefghij", &vec![7u8, 8]);
    assert_eq!(payload.len(), 13);
    assert_eq!(split_chunks(&payload, 5).len(), 3);
    assert_eq!(split_chunks(&payload, 13).len(), 1);
    assert_eq!(split_chunks(&payload, 12).len(), 2);
    assert_eq!(split_chunks(&payload, 1).len(), 13);
}

#[test]
fn assembly_is_order_correct() {
    // chunk 1 "finishes" before chunk 0: the reassembled bytes are unaffected
    let in_order = vec![(0usize, b"ab".to_vec()), (1usize, b"cd".to_vec())];
    let out_of_order = vec![(1usize, b"cd".to_vec()), (0usize, b"ab".to_vec())];
    let a = assemble_chunks(&in_order, 2).unwrap();
    let b = assemble_chunks(&out_of_order, 2).unwrap();
    assert_eq!(a, b"abcd".to_vec());
    assert_eq!(b, b"abcd".to_vec());
}

#[test]
fn assembly_rejects_missing_or_repeated_indices() {
    let missing = vec![(0usize, b"ab".to_vec()), (2usize, b"cd".to_vec())];
    assert!(assemble_chunks(&missing, 3).is_none());
    let repeated = vec![(0usize, b"ab".to_vec()), (0usize, b"cd".to_vec())];
    assert!(assemble_chunks(&repeated, 2).is_none());
    let short = vec![(0usize, b"ab".to_vec())];
    assert!(assemble_chunks(&short, 2).is_none());
}
