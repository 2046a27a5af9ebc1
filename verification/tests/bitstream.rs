use zip_rs::miniz::bitstream::{BitReader, BitWriter};

#[test]
fn test_read_bits() {
    let data = vec![0b10110010, 0b01101001];
    let mut reader = BitReader::new(data);

    assert_eq!(reader.read_bits(4), Some(0b0010));
    assert_eq!(reader.read_bits(4), Some(0b1011));
    assert_eq!(reader.read_bits(8), Some(0b01101001));
    assert_eq!(reader.read_bits(1), None);
}

#[test]
fn test_read_bit() {
    let data = vec![0b10110010];
    let mut reader = BitReader::new(data);

    assert_eq!(reader.read_bit(), Some(false));
    assert_eq!(reader.read_bit(), Some(true));
    assert_eq!(reader.read_bit(), Some(false));
    assert_eq!(reader.read_bit(), Some(false));
    assert_eq!(reader.read_bit(), Some(true));
    assert_eq!(reader.read_bit(), Some(true));
    assert_eq!(reader.read_bit(), Some(false));
    assert_eq!(reader.read_bit(), Some(true));
}

#[test]
fn test_peek_bits() {
    let data = vec![0b11110000, 0b00001111];
    let mut reader = BitReader::new(data);

    assert_eq!(reader.peek_bits(4), Some(0b0000));
    assert_eq!(reader.peek_bits(4), Some(0b0000));

    assert_eq!(reader.read_bits(4), Some(0b0000));
    assert_eq!(reader.peek_bits(4), Some(0b1111));
}

#[test]
fn test_skip_bits() {
    let data = vec![0b11110000, 0b10101010];
    let mut reader = BitReader::new(data);

    reader.skip_bits(4);
    assert_eq!(reader.read_bits(4), Some(0b1111));

    reader.skip_bits(8);
    assert_eq!(reader.read_bits(8), None);
}

#[test]
fn test_align_to_byte() {
    let data = vec![0b11110000, 0b10101010];
    let mut reader = BitReader::new(data);

    reader.read_bits(3).unwrap();
    reader.align_to_byte();

    assert_eq!(reader.read_bits(8), Some(0b10101010));
}

#[test]
fn reader_refuses_more_than_32_bits() {
    let mut reader = BitReader::new(vec![0xFF; 8]);
    assert_eq!(reader.read_bits(33), None);
    assert_eq!(reader.peek_bits(33), None);
    assert_eq!(reader.read_bits(0), Some(0));
    assert_eq!(reader.read_bits(32), Some(0xFFFF_FFFF));
    assert_eq!(reader.read_bits_checked(32), Ok(0xFFFF_FFFF));
    assert_eq!(reader.read_bits_checked(1), Err(()));
}

#[test]
fn reader_skips_to_the_end_when_too_few_bits_remain() {
    let mut reader = BitReader::from_slice(&[1, 2, 3]);
    reader.skip_bits(200);
    assert!(!reader.has_more());
    assert_eq!(reader.read_bit(), None);
    assert_eq!(reader.remaining(), 0);
}

#[test]
fn reader_positions() {
    let mut reader = BitReader::from_slice(&[0xAB, 0xCD, 0xEF, 0x01]);
    assert_eq!(reader.position(), 0);
    assert_eq!(reader.remaining(), 4);
    assert!(reader.has_more_bits(32));
    assert!(!reader.has_more_bits(33));
    assert_eq!(reader.read_bits(4), Some(0xB));
    assert_eq!(reader.position(), 1);
    assert_eq!(reader.remaining(), 3);
    assert!(reader.has_more_bits(28));
    assert!(!reader.has_more_bits(29));
    assert_eq!(reader.read_byte(), Some(0xCD));
    let mut buf = Vec::new();
    assert_eq!(reader.read_bytes(&mut buf, 3), Err(()));
    assert!(buf.is_empty());
    assert_eq!(reader.read_bytes(&mut buf, 2), Ok(()));
    assert_eq!(buf, vec![0xEF, 0x01]);
    assert!(!reader.has_more());
    reader.set_pos(1);
    assert_eq!(reader.read_bits(8), Some(0xCD));
    reader.set_pos(100);
    assert!(!reader.has_more());
    assert_eq!(reader.as_bytes(), &[0xAB, 0xCD, 0xEF, 0x01]);
}

#[test]
fn writer_packs_bits_least_significant_first() {
    let mut writer = BitWriter::new();
    writer.write_bits(0b1010, 4);
    writer.write_bits(0b11001100, 8);
    writer.write_bit(true);
    writer.write_bit(false);
    assert_eq!(writer.len(), 1);
    assert_eq!(writer.buffered_bits(), 6);
    writer.align_to_byte();
    assert_eq!(writer.buffered_bits(), 0);
    let bytes = writer.into_bytes();
    assert_eq!(bytes, vec![0b1100_1010, 0b0001_1100]);

    let mut reader = BitReader::from_slice(&bytes);
    assert_eq!(reader.read_bits(4).unwrap(), 0b1010);
    assert_eq!(reader.read_bits(8).unwrap(), 0b11001100);
    assert_eq!(reader.read_bit().unwrap(), true);
    assert_eq!(reader.read_bit().unwrap(), false);
}

#[test]
fn writer_takes_only_the_low_bits() {
    let mut writer = BitWriter::new();
    writer.write_bits(0xFFFF_FFFF, 3);
    writer.write_bits(0, 5);
    assert_eq!(writer.as_bytes(), &[0b0000_0111]);
    writer.write_bits(0xDEAD_BEEF, 32);
    assert_eq!(writer.into_bytes(), vec![0x07, 0xEF, 0xBE, 0xAD, 0xDE]);
}

#[test]
fn writer_bytes_and_clear() {
    let mut writer = BitWriter::from_bytes(&[1, 2]);
    writer.write_byte(3);
    writer.write_bytes(&[4, 5]);
    assert_eq!(writer.buffered_bytes(), 5);
    assert_eq!(writer.as_bytes(), &[1, 2, 3, 4, 5]);
    writer.clear();
    assert_eq!(writer.len(), 0);
    assert!(writer.into_bytes().is_empty());
}

#[test]
fn byte_position_follows_the_loaded_bytes() {
    let mut reader = BitReader::new(vec![0x11, 0x22, 0x33]);
    assert_eq!(reader.get_pos(), 0);
    assert!(reader.has_more_bytes(3));
    assert!(!reader.has_more_bytes(4));
    // Four bits load one byte.
    assert_eq!(reader.read_bits(4), Some(0x1));
    assert_eq!(reader.get_pos(), 1);
    assert!(reader.has_more_bytes(2));
    assert!(!reader.has_more_bytes(3));
    // Twelve more need the next one.
    assert_eq!(reader.read_bits(12), Some(0x221));
    assert_eq!(reader.get_pos(), 2);
    assert_eq!(reader.read_bits(8), Some(0x33));
    assert_eq!(reader.get_pos(), 3);
    assert!(reader.has_more_bytes(0));
    assert!(!reader.has_more_bytes(1));
}

#[test]
fn whole_bytes_move_the_byte_position() {
    let data = vec![1u8, 2, 3, 4, 5];
    let mut reader = BitReader::new(data.clone());
    let mut buf = Vec::new();
    assert_eq!(reader.read_bytes(&mut buf, 2), Ok(()));
    assert_eq!(buf, vec![1, 2]);
    assert_eq!(reader.get_pos(), 2);
    // Too many: nothing is read and the position stays.
    assert_eq!(reader.read_bytes(&mut buf, 4), Err(()));
    assert_eq!(buf, vec![1, 2]);
    assert_eq!(reader.get_pos(), 2);
    assert_eq!(reader.read_bytes(&mut buf, 3), Ok(()));
    assert_eq!(buf, data);
    assert_eq!(reader.get_pos(), 5);
    assert_eq!(reader.read_bytes(&mut buf, 0), Ok(()));
    assert_eq!(reader.get_pos(), 5);

    // Bytes that are buffered already are taken from the buffer: no byte
    // is loaded for them.
    let mut reader = BitReader::new(data.clone());
    assert_eq!(reader.peek_bits(24), Some(0x030201));
    assert_eq!(reader.get_pos(), 3);
    let mut buf = Vec::new();
    assert_eq!(reader.read_bytes(&mut buf, 2), Ok(()));
    assert_eq!(buf, vec![1, 2]);
    assert_eq!(reader.get_pos(), 3);
    assert_eq!(reader.read_bytes(&mut buf, 2), Ok(()));
    assert_eq!(buf, vec![1, 2, 3, 4]);
    assert_eq!(reader.get_pos(), 4);
    // After some bits the rest of their byte is skipped.
    let mut reader = BitReader::new(data);
    assert_eq!(reader.read_bits(3), Some(1));
    assert_eq!(reader.get_pos(), 1);
    let mut buf = Vec::new();
    assert_eq!(reader.read_bytes(&mut buf, 1), Ok(()));
    assert_eq!(buf, vec![2]);
    assert_eq!(reader.get_pos(), 2);
    reader.skip_bits(9);
    assert_eq!(reader.get_pos(), 4);
    reader.set_pos(1);
    assert_eq!(reader.get_pos(), 2);
    reader.set_pos(9);
    assert_eq!(reader.get_pos(), 5);
}
