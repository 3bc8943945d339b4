use network::framing::{decode_reads, encode_frame, encode_frames, FrameDecoder, FrameRead};

fn split_into(bytes: &[u8], sizes: &[usize]) -> Vec<Vec<u8>> {
    let mut reads = Vec::new();
    let mut at = 0;
    let mut k = 0;
    while at < bytes.len() {
        let n = sizes[k % sizes.len()].min(bytes.len() - at);
        reads.push(bytes[at..at + n].to_vec());
        at += n;
        k += 1;
    }
    reads
}

#[test]
fn frame_prefix_is_eight_big_endian_bytes() {
    let body = vec![7u8; 300];
    let frame = encode_frame(&body);
    assert_eq!(frame.len(), 308);
    assert_eq!(&frame[..8], &[0, 0, 0, 0, 0, 0, 1, 44]);
    assert_eq!(&frame[8..], &body[..]);
}

#[test]
fn empty_body_frame_is_prefix_only() {
    let frame = encode_frame(&Vec::new());
    assert_eq!(frame, vec![0u8; 8]);
}

#[test]
fn round_trip_with_single_byte_reads() {
    let bodies = vec![vec![1u8, 2, 3], vec![], vec![9u8; 20]];
    let bytes = encode_frames(&bodies);
    let reads = split_into(&bytes, &[1]);
    let (out, decoder) = decode_reads(&reads);
    assert_eq!(out, bodies);
    assert_eq!(decoder.next_len(), None);
}

#[test]
fn round_trip_with_uneven_reads() {
    let bodies = vec![vec![5u8; 11], vec![0u8, 255], vec![42u8; 3], vec![]];
    let bytes = encode_frames(&bodies);
    for sizes in [&[3usize, 7][..], &[9, 1, 4], &[100], &[8], &[2, 13, 5]] {
        let reads = split_into(&bytes, sizes);
        let (out, decoder) = decode_reads(&reads);
        assert_eq!(out, bodies);
        assert_eq!(decoder.next_len(), None);
    }
}

#[test]
fn round_trip_of_no_frames() {
    let bodies: Vec<Vec<u8>> = Vec::new();
    let bytes = encode_frames(&bodies);
    assert!(bytes.is_empty());
    let (out, _) = decode_reads(&vec![bytes]);
    assert!(out.is_empty());
}

#[test]
fn short_prefix_would_block_without_reading_a_length() {
    let mut decoder = FrameDecoder::new();
    decoder.push_bytes(&[0, 0, 0]);
    assert!(matches!(decoder.receive(), FrameRead::WouldBlock));
    assert_eq!(decoder.next_len(), None);
}

#[test]
fn next_len_is_kept_across_partial_reads() {
    let frame = encode_frame(&vec![1u8, 2, 3, 4, 5]);
    let mut decoder = FrameDecoder::new();
    decoder.push_bytes(&frame[..10]);
    assert!(matches!(decoder.receive(), FrameRead::WouldBlock));
    assert_eq!(decoder.next_len(), Some(5));
    assert!(matches!(decoder.receive(), FrameRead::WouldBlock));
    assert_eq!(decoder.next_len(), Some(5));
    decoder.push_bytes(&frame[10..]);
    match decoder.receive() {
        FrameRead::Frame(body) => assert_eq!(body, vec![1u8, 2, 3, 4, 5]),
        FrameRead::WouldBlock => panic!("the frame is complete"),
    }
    assert_eq!(decoder.next_len(), None);
    assert!(matches!(decoder.receive(), FrameRead::WouldBlock));
}

#[test]
fn receive_all_stops_at_incomplete_frame() {
    let mut bytes = encode_frames(&vec![vec![1u8], vec![2u8, 2]]);
    let third = encode_frame(&vec![3u8; 4]);
    bytes.extend_from_slice(&third[..9]);
    let mut decoder = FrameDecoder::new();
    decoder.push_bytes(&bytes);
    let got = decoder.receive_all();
    assert_eq!(got, vec![vec![1u8], vec![2u8, 2]]);
    decoder.push_bytes(&third[9..]);
    assert_eq!(decoder.receive_all(), vec![vec![3u8; 4]]);
}

#[test]
fn draining_leaves_next_len_at_the_pending_frame() {
    let second = encode_frame(&vec![6u8; 3]);
    let mut bytes = encode_frame(&vec![5u8]);
    bytes.extend_from_slice(&second[..5]);
    let mut decoder = FrameDecoder::new();
    decoder.push_bytes(&bytes);
    assert_eq!(decoder.receive_all(), vec![vec![5u8]]);
    assert_eq!(decoder.next_len(), None);
    decoder.push_bytes(&second[5..9]);
    assert!(decoder.receive_all().is_empty());
    assert_eq!(decoder.next_len(), Some(3));
    decoder.push_bytes(&second[9..]);
    assert_eq!(decoder.receive_all(), vec![vec![6u8; 3]]);
    assert_eq!(decoder.next_len(), None);
}
