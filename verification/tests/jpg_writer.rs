use jpeg_encoder::bit_stream::BitStream;
use jpeg_encoder::huffman::encode;
use jpeg_encoder::image::{create_image, Image};
use jpeg_encoder::jpg_writer::{
    write_app0_segment, write_dht_segment, write_dqt_segment, write_marker_for_segment,
    write_segment_to_stream, write_sof0_segment, write_sof0_segment_component, write_sos_segment,
    SegmentType,
};

/// The 4x4 test picture with maximal value 15, each sample scaled to 16 bits.
fn read_test_image() -> Image {
    let c1 = vec![
        vec![0, 0, 0, 65535],
        vec![0, 0, 0, 0],
        vec![0, 0, 0, 0],
        vec![65535, 0, 0, 0],
    ];
    let c2 = vec![
        vec![0, 0, 0, 0],
        vec![0, 65535, 0, 0],
        vec![0, 0, 65535, 0],
        vec![0, 0, 0, 0],
    ];
    let c3 = vec![
        vec![0, 0, 0, 65535],
        vec![0, 30583, 0, 0],
        vec![0, 0, 30583, 0],
        vec![65535, 0, 0, 0],
    ];
    create_image(4, 4, c1, c2, c3)
}

#[test]
fn test_write_soi_marker_successful() {
    let mut stream = BitStream::open();
    write_marker_for_segment(&mut stream, &SegmentType::SOI);
    let data = vec![0xff, 0xd8];
    assert_eq!(data, *stream.data());
    assert_eq!(8, stream.bits_in_last_byte());
}

#[test]
fn test_write_eoi_marker_successful() {
    let mut stream = BitStream::open();
    write_marker_for_segment(&mut stream, &SegmentType::EOI);
    let data = vec![0xff, 0xd9];
    assert_eq!(data, *stream.data());
    assert_eq!(8, stream.bits_in_last_byte());
}

#[test]
fn test_write_app0_segment_successful() {
    let mut stream = BitStream::open();
    let image = read_test_image();
    write_app0_segment(&mut stream, &image);
    let data: Vec<u8> = vec![
        0, 16, 0x4a, 0x46, 0x49, 0x46, 0x00, 0x01, 0x01, 0, 0, 1, 0, 1, 0, 0,
    ];
    assert_eq!(data, *stream.data());
    assert_eq!(8, stream.bits_in_last_byte());
}

#[test]
fn test_write_sof0_segment_component_downsampled_vertically_true_factor2() {
    let mut stream = BitStream::open();
    write_sof0_segment_component(&mut stream, 1, 2, true, 0, 2);
    let data: Vec<u8> = vec![1, 0x11, 0];
    assert_eq!(data, *stream.data());
    assert_eq!(8, stream.bits_in_last_byte());
}

#[test]
fn test_write_sof0_segment_component_downsampled_vertically_false_factor2() {
    let mut stream = BitStream::open();
    write_sof0_segment_component(&mut stream, 1, 2, false, 0, 2);
    let data: Vec<u8> = vec![1, 0x12, 0];
    assert_eq!(data, *stream.data());
    assert_eq!(8, stream.bits_in_last_byte());
}

#[test]
fn test_write_sof0_segment_component_downsampled_vertically_true_factor2_max4() {
    let mut stream = BitStream::open();
    write_sof0_segment_component(&mut stream, 1, 2, true, 0, 4);
    let data: Vec<u8> = vec![1, 0x22, 0];
    assert_eq!(data, *stream.data());
    assert_eq!(8, stream.bits_in_last_byte());
}

#[test]
fn test_write_sof0_segment_component_downsampled_vertically_false_factor2_max4() {
    let mut stream = BitStream::open();
    write_sof0_segment_component(&mut stream, 1, 2, false, 0, 4);
    let data: Vec<u8> = vec![1, 0x24, 0];
    assert_eq!(data, *stream.data());
    assert_eq!(8, stream.bits_in_last_byte());
}

#[test]
fn test_write_sof0_segment_no_downsampling() {
    let mut stream = BitStream::open();
    let image = read_test_image();
    write_sof0_segment(&mut stream, &image);
    let data: Vec<u8> = vec![0, 17, 8, 0, 4, 0, 4, 3, 1, 0x11, 0, 2, 0x11, 1, 3, 0x11, 1];
    assert_eq!(data, *stream.data());
    assert_eq!(8, stream.bits_in_last_byte());
}

#[test]
fn test_write_sof0_segment_downsampling_4_2_0() {
    let mut stream = BitStream::open();
    let mut image = read_test_image();
    image.downsample(4, 2, 0);
    write_sof0_segment(&mut stream, &image);
    let data: Vec<u8> = vec![0, 17, 8, 0, 4, 0, 4, 3, 1, 0x22, 0, 2, 0x11, 1, 3, 0x11, 1];
    assert_eq!(data, *stream.data());
    assert_eq!(8, stream.bits_in_last_byte());
}

#[test]
fn test_write_sos_segment() {
    let mut stream = BitStream::open();
    write_sos_segment(&mut stream);
    let expected_data: Vec<u8> = vec![0x00, 0x0c, 0x03, 0x01, 0x00, 0x02, 0b0001_0001, 0x03, 0b0001_0001, 0x00, 0x3f, 0x00];
    assert_eq!(&expected_data, stream.data());
}

#[test]
fn test_write_whole_image_with_downsampling() {
    let mut stream = BitStream::open();
    let mut image = read_test_image();
    image.downsample(4, 2, 0);
    write_segment_to_stream(&mut stream, &image, SegmentType::SOI);
    write_segment_to_stream(&mut stream, &image, SegmentType::APP0);
    write_segment_to_stream(&mut stream, &image, SegmentType::SOF0);
    write_segment_to_stream(&mut stream, &image, SegmentType::EOI);
    let data: Vec<u8> = vec![
        0xff, 0xd8, 0xff, 0xe0, 0, 16, 0x4a, 0x46, 0x49, 0x46, 0x00, 0x01, 0x01, 0, 0, 1, 0, 1,
        0, 0, 0xff, 0xc0, 0, 17, 8, 0, 4, 0, 4, 3, 1, 0x22, 0, 2, 0x11, 1, 3, 0x11, 1, 0xff,
        0xd9,
    ];
    assert_eq!(data, *stream.data());
    assert_eq!(8, stream.bits_in_last_byte());
}

#[test]
fn test_write_whole_image_without_downsampling() {
    let mut stream = BitStream::open();
    let image = read_test_image();
    write_segment_to_stream(&mut stream, &image, SegmentType::SOI);
    write_segment_to_stream(&mut stream, &image, SegmentType::APP0);
    write_segment_to_stream(&mut stream, &image, SegmentType::SOF0);
    write_segment_to_stream(&mut stream, &image, SegmentType::EOI);
    let data: Vec<u8> = vec![
        0xff, 0xd8, 0xff, 0xe0, 0, 16, 0x4a, 0x46, 0x49, 0x46, 0x00, 0x01, 0x01, 0, 0, 1, 0, 1,
        0, 0, 0xff, 0xc0, 0, 17, 8, 0, 4, 0, 4, 3, 1, 0x11, 0, 2, 0x11, 1, 3, 0x11, 1, 0xff,
        0xd9,
    ];
    assert_eq!(data, *stream.data());
    assert_eq!(8, stream.bits_in_last_byte());
}

#[test]
fn test_write_dht_segment() {
    let mut symbol_stream = BitStream::open();
    for _ in 0..2 {
        symbol_stream.append_byte(1);
        symbol_stream.append_byte(2);
    }
    for _ in 0..3 {
        symbol_stream.append_byte(3);
        symbol_stream.append_byte(4);
    }
    for _ in 0..4 {
        symbol_stream.append_byte(5);
    }
    for _ in 0..5 {
        symbol_stream.append_byte(6);
    }

    for _ in 0..6 {
        symbol_stream.append_byte(7);
    }

    for _ in 0..7 {
        symbol_stream.append_byte(8);
    }
    for _ in 0..7 {
        symbol_stream.append_byte(9);
    }
    for _ in 0..7 {
        symbol_stream.append_byte(10);
    }
    for _ in 0..7 {
        symbol_stream.append_byte(11);
    }
    for _ in 0..7 {
        symbol_stream.append_byte(12);
    }
    for _ in 0..7 {
        symbol_stream.append_byte(13);
    }

    for _ in 0..7 {
        symbol_stream.append_byte(14);
    }
    for _ in 0..17 {
        symbol_stream.append_byte(15);
    }
    for _ in 0..71 {
        symbol_stream.append_byte(16);
    }
    for _ in 0..74 {
        symbol_stream.append_byte(17);
    }
    for _ in 0..17 {
        symbol_stream.append_byte(18);
    }
    for _ in 0..71 {
        symbol_stream.append_byte(19);
    }
    for _ in 0..74 {
        symbol_stream.append_byte(20);
    }
    for _ in 0..7 {
        symbol_stream.append_byte(21);
    }
    for _ in 0..7 {
        symbol_stream.append_byte(22);
    }
    for _ in 0..7 {
        symbol_stream.append_byte(23);
    }

    for _ in 0..7 {
        symbol_stream.append_byte(24);
    }
    for _ in 0..17 {
        symbol_stream.append_byte(25);
    }
    for _ in 0..71 {
        symbol_stream.append_byte(26);
    }
    for _ in 0..74 {
        symbol_stream.append_byte(27);
    }

    let (_, code_map) = encode(&mut symbol_stream).unwrap();
    let mut stream = BitStream::open();
    write_dht_segment(&mut stream, 0, &code_map, false);
    let data: Vec<u8> = vec![
        0xff, 0xc4, // marker
        0, 46, // length
        0,  // HT information
        0,  // 1 bit codes
        0,  // 2 bit codes
        6,  // 3 bit codes
        0,  // 4 bit codes
        3,  // 5 bit codes
        4,  // 6 bit codes
        10, // 7 bit codes
        3,  // 8 bit codes
        1,  // 9 bit codes
        0, 0, 0, 0, 0, 0, 0, // remaining empty codes
        // symbols in order
        27, 20, 17, 26, 19, 16, 25, 18, 15, 24, 23, 22, 21, 14, 13, 12, 11, 10, 9, 8, 7, 6, 5,
        4, 3, 2, 1,
    ];
    assert_eq!(data, *stream.data());
    assert_eq!(8, stream.bits_in_last_byte());
}

#[test]
fn test_write_dqt_segment() {
    let mut stream = BitStream::open();
    let q_table = [2u8; 64];
    write_dqt_segment(&mut stream, &q_table, 1);

    let mut expected = BitStream::open();
    expected.append(0xffdb_u16);
    expected.append(67u16);
    expected.append(1u8);
    for _ in 0..64 {
        expected.append(2u8);
    }
    assert_eq!(expected, stream);
}
