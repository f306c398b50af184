use jpeg_encoder::bit_stream::BitStream;
use jpeg_encoder::byte_stuffing_writer::ByteStuffingWriter;

#[test]
fn test_write_u16_ones_to_stream() {
    let mut stream = BitStream::open();
    let mut writer = ByteStuffingWriter::new();
    writer.write_n_bits_to_stream(&mut stream, 0xFFFF, 5);
    writer.write_n_bits_to_stream(&mut stream, 0xFFFF, 7);
    writer.write_n_bits_to_stream(&mut stream, 0xFFFF, 12);

    let expected: Vec<u8> = vec![0xFF, 0, 0xFF, 0, 0xFF, 0];
    assert_eq!(&expected, stream.data());
}

#[test]
fn test_write_u16_alternating_to_stream() {
    let mut stream = BitStream::open();
    let mut writer = ByteStuffingWriter::new();
    writer.write_n_bits_to_stream(&mut stream, 0x00F0, 8);
    writer.write_n_bits_to_stream(&mut stream, 0x000F, 8);
    writer.write_n_bits_to_stream(&mut stream, 0x000F, 8);
    writer.write_n_bits_to_stream(&mut stream, 0x00F0, 8);
    writer.write_n_bits_to_stream(&mut stream, 0x0000, 16);

    let expected: Vec<u8> = vec![0xF0, 0x0F, 0x0F, 0xF0, 0x00, 0x00, 0x00];
    assert_eq!(&expected, stream.data());
}

#[test]
fn default_writer_stuffs_like_a_new_one() {
    let mut a = BitStream::open();
    let mut b = BitStream::open();
    let mut wa = ByteStuffingWriter::default();
    let mut wb = ByteStuffingWriter::new();
    wa.write_n_bits_to_stream(&mut a, 0xffff, 16);
    wb.write_n_bits_to_stream(&mut b, 0xffff, 16);
    assert_eq!(a, b);
}

#[test]
fn writing_in_pieces_stuffs_like_one_write() {
    let mut a = BitStream::open();
    let mut b = BitStream::open();
    let mut wa = ByteStuffingWriter::new();
    let mut wb = ByteStuffingWriter::new();
    wa.write_n_bits_to_stream(&mut a, 0b1111, 4);
    wa.write_n_bits_to_stream(&mut a, 0b111, 3);
    wa.write_n_bits_to_stream(&mut a, 0b1_0110, 5);
    wb.write_n_bits_to_stream(&mut b, 0b1111_1111_0110, 12);
    assert_eq!(a, b);
    assert_eq!(*a.data(), vec![0xFF, 0x00, 0x60]);
}

#[test]
fn every_ff_byte_is_followed_by_a_zero_byte() {
    let mut stream = BitStream::open();
    let mut writer = ByteStuffingWriter::new();
    writer.write_n_bits_to_stream(&mut stream, 0b0111, 4);
    writer.write_n_bits_to_stream(&mut stream, 0xFFFF, 16);
    writer.write_n_bits_to_stream(&mut stream, 0b1111, 4);
    assert_eq!(*stream.data(), vec![0x7F, 0x80, 0x7F, 0x80, 0x7F]);

    let mut aligned = BitStream::open();
    let mut writer = ByteStuffingWriter::new();
    writer.write_n_bits_to_stream(&mut aligned, 0x00FF, 16);
    writer.write_n_bits_to_stream(&mut aligned, 0xFF, 8);
    let data = aligned.data();
    assert_eq!(*data, vec![0x00, 0xFF, 0x00, 0xFF, 0x00]);
    for k in 0..data.len() {
        if data[k] == 0xFF {
            assert_eq!(data[k + 1], 0x00);
        }
    }
}
