use jpeg_encoder::bit_stream::BitStream;

#[test]
fn test_is_empty_empty_stream() {
    let stream = BitStream::open();
    assert!(stream.is_empty());
}

#[test]
fn test_is_empty_non_empty_stream() {
    let mut stream = BitStream::open();
    stream.append(244u8);
    assert!(!stream.is_empty());
}

#[test]
fn test_append_u8() {
    let mut stream = BitStream::open();
    stream.append(244u8);
    assert_eq!(*stream.data(), vec![244]);
}

#[test]
fn test_append_u16() {
    let mut stream = BitStream::open();
    stream.append(244u16);
    assert_eq!(*stream.data(), vec![0, 244]);
}

#[test]
fn test_flush_n_bits_less_than_byte() {
    let mut stream = BitStream::open();
    stream.append(244u8);
    stream.flush_n_bits(3);
    assert_eq!(*stream.data(), vec![244]);
    assert_eq!(stream.bits_read_from_first_byte(), 3);
}

#[test]
fn test_flush_n_bits_multiple_bytes() {
    let mut stream = BitStream::open();
    stream.append(244u8);
    stream.append(255u8);
    stream.flush_n_bits(13);
    assert_eq!(*stream.data(), vec![255]);
    assert_eq!(stream.bits_read_from_first_byte(), 5);
}

#[test]
fn test_flush_n_bits_empty_stream() {
    let mut stream = BitStream::open();
    stream.flush_n_bits(5);
    assert_eq!(*stream.data(), Vec::<u8>::new());
    assert_eq!(stream.bits_read_from_first_byte(), 5);
}

#[test]
fn test_read_n_bits_padded_empty_stream_pad_true() {
    let stream = BitStream::open();
    let result = stream.read_n_bits_padded(8, true);
    assert_eq!(result, 0b1111_1111);
}

#[test]
fn test_read_n_bits_padded_empty_stream_pad_false() {
    let stream = BitStream::open();
    let result = stream.read_n_bits_padded(8, false);
    assert_eq!(result, u16::MIN);
}

#[test]
fn test_read_n_bits_padded_sufficient_data_no_padding() {
    let mut stream = BitStream::open();
    stream.append_byte(0b1100_0011);
    let result = stream.read_n_bits_padded(8, false);
    assert_eq!(result, 0b1100_0011);
}

#[test]
fn test_read_n_bits_padded_sufficient_data_with_padding() {
    let mut stream = BitStream::open();
    stream.append_byte(0b1100_0011);
    let result = stream.read_n_bits_padded(10, true);
    assert_eq!(result, 0b0011_0000_1111);
}

#[test]
fn read_n_bits_padded_pads_only_past_the_written_bits() {
    let mut stream = BitStream::open();
    stream.append_byte(0b1100_0011);
    stream.append_bit(true);
    assert_eq!(stream.read_n_bits_padded(10, true), 0b11_0000_1111);
    assert_eq!(stream.read_n_bits_padded(10, false), 0b11_0000_1110);
    assert_eq!(stream.read_n_bits_padded(9, false), 0b1_1000_0111);
}

#[test]
fn read_n_bits_padded_after_a_flush_spans_bytes() {
    let mut stream = BitStream::open();
    stream.append_byte(0xAB);
    stream.append_byte(0xCD);
    stream.flush_n_bits(3);
    assert_eq!(stream.read_n_bits_padded(16, false), 0x5E68);
    assert_eq!(stream.read_n_bits_padded(4, false), 0b0101);
    assert_eq!(stream.read_n_bits_padded(16, false), 0x5E68);
}

#[test]
fn test_append_bits() {
    let mut stream = BitStream::open();
    stream.append_bit(true);
    stream.append_bit(false);
    stream.append_bit(true);
    stream.append_bit(true);
    assert_eq!(vec![0b10110000], *stream.data());
    assert_eq!(4, stream.bits_in_last_byte());
}

#[test]
fn test_append_bytes() {
    let mut stream = BitStream::open();
    stream.append_byte(44);
    stream.append_byte(231);
    assert_eq!(vec![44, 231], *stream.data());
    assert_eq!(8, stream.bits_in_last_byte());
}

#[test]
fn test_append_bits_and_bytes() {
    let mut stream = BitStream::open();
    stream.append_byte(44);
    stream.append_bit(false);
    stream.append_bit(true);
    stream.append_byte(255);
    assert_eq!(vec![44, 0b01111111, 0b11000000], *stream.data());
    assert_eq!(2, stream.bits_in_last_byte());
}

#[test]
fn test_generic_append_bits_only() {
    let mut stream = BitStream::open();
    stream.append(true);
    stream.append(false);
    stream.append(true);
    assert_eq!(vec![0b1010_0000], *stream.data());
    assert_eq!(3, stream.bits_in_last_byte());
}

#[test]
fn test_generic_append_bit_vec() {
    let mut stream = BitStream::open();
    let bits = vec![true, false, true];
    stream.append(bits);
    assert_eq!(vec![0b1010_0000], *stream.data());
    assert_eq!(3, stream.bits_in_last_byte());
}

#[test]
fn test_generic_append_byte_vec() {
    let mut stream = BitStream::open();
    let bytes: Vec<u8> = vec![127, 4, 255];
    stream.append(bytes);
    assert_eq!(vec![127, 4, 255], *stream.data());
    assert_eq!(8, stream.bits_in_last_byte());
}

#[test]
fn test_generic_append_bytes_only() {
    let mut stream = BitStream::open();
    stream.append::<u8>(44);
    stream.append::<u8>(231);
    assert_eq!(vec![44, 231], *stream.data());
    assert_eq!(8, stream.bits_in_last_byte());
}

#[test]
fn test_generic_append_first_bytes_then_bits() {
    let mut stream = BitStream::open();
    stream.append::<u8>(44);
    stream.append(false);
    stream.append(true);
    stream.append::<u8>(255);
    assert_eq!(vec![44, 0b0111_1111, 0b1100_0000], *stream.data());
    assert_eq!(2, stream.bits_in_last_byte());
}

#[test]
fn test_generic_append_first_bits_then_bytes() {
    let mut stream = BitStream::open();
    stream.append(true);
    stream.append(false);
    stream.append(true);
    stream.append::<u8>(255);
    stream.append(false);
    stream.append_byte(9);
    assert_eq!(vec![0b1011_1111, 0b1110_0000, 0b1001_0000], *stream.data());
    assert_eq!(4, stream.bits_in_last_byte());
}

#[test]
fn test_generic_append_u16_vec() {
    let mut stream = BitStream::open();
    let bytes: Vec<u16> = vec![0x1412, 0xffff, 0xfafe];
    stream.append(bytes);
    assert_eq!(vec![0x14, 0x12, 0xff, 0xff, 0xfa, 0xfe], *stream.data());
    assert_eq!(8, stream.bits_in_last_byte());
}

#[test]
fn test_generic_append_u16_only() {
    let mut stream = BitStream::open();
    stream.append::<u16>(0x1234);
    stream.append::<u16>(0xfef0);
    assert_eq!(vec![0x12, 0x34, 0xfe, 0xf0], *stream.data());
    assert_eq!(8, stream.bits_in_last_byte());
}

#[test]
fn test_append_n_bits_u8() {
    let mut stream = BitStream::open();
    stream.append_n_bits(0b1011_1111u8, 7);
    assert_eq!(vec![0b0111_1110], *stream.data());
    assert_eq!(7, stream.bits_in_last_byte());
}

#[test]
fn test_append_n_bits_u16() {
    let mut stream = BitStream::open();
    stream.append_n_bits::<u16>(0b1011_1100_1010_1011, 13);
    assert_eq!(vec![0b1110_0101, 0b0101_1000], *stream.data());
    assert_eq!(5, stream.bits_in_last_byte());
}

#[test]
fn test_append_n_bits_vec8() {
    let mut stream = BitStream::open();
    stream.append_n_bits::<Vec<u8>>(vec![0b1010_1010, 0b1010_1010, 0b1010_1010], 19);
    assert_eq!(vec![0b1010_1010, 0b1010_1010, 0b1010_0000], *stream.data());
    assert_eq!(3, stream.bits_in_last_byte());
}

#[test]
fn test_pad_last_byte_true() {
    let mut stream = BitStream::open();
    stream.append_bit(true);
    stream.append_bit(false);
    stream.append_bit(true);
    stream.pad_last_byte(true);

    assert_eq!(vec![0b101_1_1111], *stream.data());
    assert_eq!(8, stream.bits_in_last_byte());
}

#[test]
fn test_pad_last_byte_false() {
    let mut stream = BitStream::open();
    stream.append_bit(true);
    stream.append_bit(false);
    stream.append_bit(true);
    stream.pad_last_byte(false);

    assert_eq!(vec![0b101_0_0000], *stream.data());
    assert_eq!(8, stream.bits_in_last_byte());
}

#[test]
fn test_append_n_bits_vec16() {
    let mut stream = BitStream::open();
    stream.append_n_bits::<Vec<u16>>(
        vec![
            0b1010_1010_1010_1010,
            0b1010_1010_1010_1010,
            0b1010_1010_1010_1010,
        ],
        35,
    );
    assert_eq!(
        vec![
            0b1010_1010,
            0b1010_1010,
            0b1010_1010,
            0b1010_1010,
            0b1010_0000,
        ],
        *stream.data()
    );
    assert_eq!(3, stream.bits_in_last_byte());
}

#[test]
fn default_stream_is_empty() {
    let stream = BitStream::default();
    assert!(stream.is_empty());
    assert!(stream.data().is_empty());
    assert_eq!(stream, BitStream::open());
}

#[test]
fn append_n_bits_of_a_long_byte_vector() {
    let mut stream = BitStream::open();
    stream.append_n_bits(vec![0xABu8; 32], 8);
    assert_eq!(*stream.data(), vec![0xAB]);
    assert_eq!(stream.bits_in_last_byte(), 8);
}

#[test]
fn append_n_bits_of_a_long_word_vector() {
    let mut stream = BitStream::open();
    stream.append_n_bits(vec![0xABCDu16; 20], 12);
    assert_eq!(*stream.data(), vec![0xAB, 0xC0]);
    assert_eq!(stream.bits_in_last_byte(), 4);
}

#[test]
fn read_n_bits_padded_of_a_stream_from_bytes() {
    let stream = BitStream::from_bytes(vec![0xAB, 0xCD]);
    assert_eq!(stream.read_n_bits_padded(16, false), 0xABCD);
    assert_eq!(stream.read_n_bits_padded(12, true), 0xABC);
}
