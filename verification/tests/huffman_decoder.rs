use std::collections::HashMap;

use jpeg_encoder::bit_stream::BitStream;
use jpeg_encoder::huffman::encode;
use jpeg_encoder::huffman_decoder::{
    create_canonical_table, create_code_vec_from_map, decode, get_max_len_from_code,
    pad_code_with_ones, sort_code_vector_by_length_and_code,
};

#[test]
fn test_encode_and_decode() {
    let mut plain_text = BitStream::open();
    plain_text.append_byte(1);
    plain_text.append_byte(2);
    plain_text.append_byte(255);
    plain_text.append_byte(2);
    plain_text.append_byte(1);
    plain_text.append_byte(2);
    plain_text.append_byte(2);
    plain_text.append_byte(1);
    plain_text.append_byte(255);

    let (mut encoded_text, map) = encode(&mut plain_text).unwrap();
    let decoded_stream = decode(&mut encoded_text, map).unwrap();
    assert_eq!(vec![1, 2, 255, 2, 1, 2, 2, 1, 255], *decoded_stream.data());
}

#[test]
fn test_create_canonical_table() {
    let mut code = HashMap::new();
    code.insert(1, (2, 16));
    code.insert(2, (3, 32));
    code.insert(3, (4, 64));
    code.insert(4, (5, 128));

    let (canonical_table, max_len) = create_canonical_table(code);

    assert_eq!(canonical_table, vec![(135, 1, 2), (131, 2, 3), (129, 3, 4), (128, 4, 5)]);
    assert_eq!(max_len, 5);
}

#[test]
fn test_get_max_len_from_code() {
    let mut code = HashMap::new();
    code.insert(1, (5, 100));
    code.insert(2, (7, 200));
    code.insert(3, (6, 300));

    assert_eq!(get_max_len_from_code(&code), 7);
}

#[test]
fn test_create_code_vec_from_map() {
    let mut code = HashMap::new();
    code.insert(1, (5, 100));
    code.insert(2, (7, 200));
    code.insert(3, (6, 300));

    let mut result = create_code_vec_from_map(&code);
    result.sort();

    assert_eq!(result, vec![(100, 1, 5), (200, 2, 7), (300, 3, 6)]);
}

#[test]
fn test_sort_code_vector_by_length_and_code() {
    let mut all_codes = vec![(1, 2, 3), (4, 5, 6), (7, 8, 2), (9, 10, 2)];
    sort_code_vector_by_length_and_code(&mut all_codes);

    assert_eq!(all_codes, vec![(7, 8, 2), (9, 10, 2), (1, 2, 3), (4, 5, 6)]);
}

#[test]
fn test_pad_code_with_ones() {
    let mut all_codes = vec![(1, 2, 3), (4, 5, 6)];
    let max_len = 8;
    let result = pad_code_with_ones(&mut all_codes, max_len);

    assert_eq!(result, vec![(63, 2, 3), (19, 5, 6)]);
}

#[test]
fn decode_of_empty_stream_is_empty() {
    let mut code = HashMap::new();
    code.insert(7u8, (1u8, 0u16));
    let mut stream = BitStream::open();
    let out = decode(&mut stream, code).unwrap();
    assert!(out.data().is_empty());
    assert_eq!(out.bits_in_last_byte(), 0);
}

#[test]
fn decode_reads_every_symbol_of_a_long_stream() {
    let mut code = HashMap::new();
    code.insert(7u8, (1u8, 0u16));
    code.insert(8u8, (1u8, 1u16));
    let mut stream = BitStream::open();
    for i in 0..300 {
        stream.append_bit(i % 3 == 0);
    }
    let out = decode(&mut stream, code).unwrap();
    let expected: Vec<u8> = (0..300).map(|i| if i % 3 == 0 { 8 } else { 7 }).collect();
    assert_eq!(*out.data(), expected);
    assert!(stream.is_empty());
}

#[test]
fn decode_of_many_equal_symbols() {
    let mut code = HashMap::new();
    code.insert(7u8, (1u8, 0u16));
    code.insert(8u8, (1u8, 1u16));
    let mut stream = BitStream::open();
    for _ in 0..120 {
        stream.append_bit(false);
    }
    let out = decode(&mut stream, code).unwrap();
    assert_eq!(*out.data(), vec![7u8; 120]);
    assert_eq!(out.bits_in_last_byte(), 8);
}

#[test]
fn encode_and_decode_of_many_bytes() {
    let mut plain_text = BitStream::open();
    let bytes: Vec<u8> = (0..500u32).map(|i| ((i * 7) % 13) as u8 * 11).collect();
    for b in &bytes {
        plain_text.append_byte(*b);
    }
    let (mut encoded_text, map) = encode(&mut plain_text).unwrap();
    let decoded_stream = decode(&mut encoded_text, map).unwrap();
    assert_eq!(*decoded_stream.data(), bytes);
    assert!(encoded_text.is_empty());
}

#[test]
fn decode_stops_where_no_code_matches() {
    let mut code = HashMap::new();
    code.insert(7u8, (2u8, 0u16));
    let mut stream = BitStream::open();
    stream.append_bit(true);
    stream.append_bit(true);
    assert!(decode(&mut stream, code).is_none());
}

#[test]
fn canonical_table_of_a_tree_code() {
    let mut code = HashMap::new();
    code.insert(10u8, (1u8, 0u16));
    code.insert(20u8, (2u8, 2u16));
    code.insert(30u8, (2u8, 3u16));
    let (table, max_len) = create_canonical_table(code);
    assert_eq!(max_len, 2);
    assert_eq!(table, vec![(1, 10, 1), (2, 20, 2), (3, 30, 2)]);
}

#[test]
fn decode_of_a_stream_from_bytes_stops_once_it_reports_itself_empty() {
    let mut code = HashMap::new();
    code.insert(7u8, (1u8, 0u16));
    code.insert(8u8, (1u8, 1u16));
    let mut stream = BitStream::from_bytes(vec![0b1010_0000, 0xFF]);
    let out = decode(&mut stream, code).unwrap();
    assert_eq!(*out.data(), vec![8, 7, 8, 7, 7, 7, 7, 7]);
    assert!(stream.data().is_empty());
    assert!(stream.is_empty());
}
