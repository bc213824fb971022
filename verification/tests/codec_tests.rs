use wzip::codec::{decode, encode, CodecError, RunLengthDecoder, RunLengthEncoder};
use wzip::stream::concat_sources;

#[test]
fn empty_input() {
    assert_eq!(encode(&vec![]), Ok(vec![]));
    assert_eq!(decode(&vec![]), Ok(vec![]));
}

#[test]
fn single_run() {
    let input = vec![b'a'; 6];
    assert_eq!(encode(&input), Ok(vec![0x06, 0x00, 0x00, 0x00, b'a']));
}

#[test]
fn alternating_bytes() {
    let input = b"abab".to_vec();
    let expected = vec![
        0x01, 0, 0, 0, b'a', 0x01, 0, 0, 0, b'b', 0x01, 0, 0, 0, b'a', 0x01, 0, 0, 0, b'b',
    ];
    assert_eq!(encode(&input), Ok(expected));
}

#[test]
fn boundary_spanning_run() {
    let sources = vec![b"aaa".to_vec(), b"aaa".to_vec()];
    let joined = concat_sources(&sources);
    assert_eq!(joined, b"aaaaaa".to_vec());
    assert_eq!(encode(&joined), Ok(vec![0x06, 0, 0, 0, b'a']));
}

#[test]
fn record_count_is_five_per_run() {
    let input = b"aabbbc".to_vec();
    let encoded = encode(&input).unwrap();
    assert_eq!(encoded.len(), 5 * 3);
}

#[test]
fn round_trip_samples() {
    let samples: Vec<Vec<u8>> = vec![
        vec![],
        b"a".to_vec(),
        b"aaabbbcccd".to_vec(),
        b"abcabcabc".to_vec(),
        vec![0u8; 300],
        (0..=255u8).collect(),
        b"hello world\nhello\n".to_vec(),
    ];
    for input in samples {
        let encoded = encode(&input).unwrap();
        assert_eq!(decode(&encoded), Ok(input));
    }
}

#[test]
fn decode_two_records() {
    let stream = vec![3, 0, 0, 0, b'a', 1, 0, 0, 0, b'b'];
    assert_eq!(decode(&stream), Ok(b"aaab".to_vec()));
}

#[test]
fn malformed_trailing_bytes() {
    for len in [1usize, 2, 3, 4, 6, 7, 8, 9, 11] {
        let stream = vec![b'x'; len];
        assert_eq!(decode(&stream), Err(CodecError::MalformedRecord));
    }
}

#[test]
fn zero_count_record_is_malformed() {
    let stream = vec![0, 0, 0, 0, b'a'];
    assert_eq!(decode(&stream), Err(CodecError::MalformedRecord));
}

#[test]
fn negative_count_record_is_malformed() {
    let minus_one = vec![0xFF, 0xFF, 0xFF, 0xFF, b'a'];
    assert_eq!(decode(&minus_one), Err(CodecError::MalformedRecord));
    let most_negative = vec![0x00, 0x00, 0x00, 0x80, b'a'];
    assert_eq!(decode(&most_negative), Err(CodecError::MalformedRecord));
}

#[test]
fn multi_byte_count_decodes() {
    let stream = vec![0x02, 0x01, 0x00, 0x00, b'z'];
    let out = decode(&stream).unwrap();
    assert_eq!(out.len(), 258);
    assert!(out.iter().all(|&b| b == b'z'));
}

#[test]
fn multi_byte_count_round_trips() {
    let input = vec![b'q'; 70000];
    let encoded = encode(&input).unwrap();
    assert_eq!(encoded, vec![0x70, 0x11, 0x01, 0x00, b'q']);
    assert_eq!(decode(&encoded), Ok(input));
}

#[test]
fn concat_of_empty_sources() {
    let sources: Vec<Vec<u8>> = vec![];
    assert_eq!(concat_sources(&sources), Vec::<u8>::new());
    let empties = vec![vec![], vec![], vec![]];
    assert_eq!(concat_sources(&empties), Vec::<u8>::new());
}


fn stream_encode(parts: &[&[u8]]) -> Vec<u8> {
    let mut encoder = RunLengthEncoder::new();
    let mut out = Vec::new();
    for part in parts {
        for &b in *part {
            out.extend(encoder.push_byte(b).unwrap());
        }
    }
    out.extend(encoder.finish());
    out
}

#[test]
fn streaming_encoder_matches_whole_buffer_encode() {
    let input = b"aaabbbcccd".to_vec();
    assert_eq!(stream_encode(&[&input]), encode(&input).unwrap());
}

#[test]
fn streaming_encoder_of_nothing_emits_nothing() {
    assert_eq!(stream_encode(&[]), Vec::<u8>::new());
}

#[test]
fn streaming_encoder_spans_source_boundaries() {
    let out = stream_encode(&[b"aaa", b"aaa"]);
    assert_eq!(out, vec![0x06, 0, 0, 0, b'a']);
}

#[test]
fn streaming_decoder_matches_whole_buffer_decode() {
    let stream = vec![3, 0, 0, 0, b'a', 2, 0, 0, 0, b'b'];
    let mut decoder = RunLengthDecoder::new();
    let mut out = Vec::new();
    for &b in &stream {
        out.extend(decoder.feed(b).unwrap());
    }
    assert_eq!(decoder.finish(), Ok(()));
    assert_eq!(out, decode(&stream).unwrap());
    assert_eq!(out, b"aaabb".to_vec());
}

#[test]
fn streaming_decoder_rejects_trailing_fragment() {
    let mut decoder = RunLengthDecoder::new();
    for &b in &[1u8, 0, 0] {
        decoder.feed(b).unwrap();
    }
    assert_eq!(decoder.finish(), Err(CodecError::MalformedRecord));
}

#[test]
fn streaming_decoder_rejects_zero_count() {
    let mut decoder = RunLengthDecoder::new();
    for &b in &[0u8, 0, 0, 0] {
        decoder.feed(b).unwrap();
    }
    assert_eq!(decoder.feed(b'a'), Err(CodecError::MalformedRecord));
}
