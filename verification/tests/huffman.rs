use zip_rs::miniz::huffman::{
    fixed_distance_table, fixed_litlen_table, reverse_bits, HuffmanError, HuffmanTable, DIST_BASE,
    DIST_EXTRA, FIXED_DISTANCE_CODE_LENGTHS, FIXED_LITLEN_CODE_LENGTHS, LENGTH_BASE,
    LENGTH_DEZIGZAG, LENGTH_EXTRA,
};

#[test]
fn test_fixed_table_build() {
    let table = HuffmanTable::build(&FIXED_LITLEN_CODE_LENGTHS, 288).unwrap();
    let (_sym, len) = table.decode(0);
    assert!(len <= 15);
}

#[test]
fn test_length_base() {
    assert_eq!(LENGTH_BASE[0], 3);
    assert_eq!(LENGTH_BASE[25], 163);
    assert_eq!(LENGTH_BASE[28], 258);
    assert_eq!(LENGTH_EXTRA[0], 0);
    assert_eq!(LENGTH_EXTRA[8], 1);
}

#[test]
fn test_dist_base() {
    assert_eq!(DIST_BASE[0], 1);
    assert_eq!(DIST_BASE[29], 24577);
    assert_eq!(DIST_EXTRA[0], 0);
    assert_eq!(DIST_EXTRA[4], 1);
}

#[test]
fn fixed_table_decodes_literal_zero_with_eight_bits() {
    let table = HuffmanTable::build(&FIXED_LITLEN_CODE_LENGTHS, 288).unwrap();
    // Literal 0 has the code 00110000; its first bit is bit 0 of the buffer.
    assert_eq!(table.decode(0b0000_1100), (0, 8));
    assert_eq!(table.encode(0), (0b0011_0000, 8));
}

#[test]
fn fixed_table_codes() {
    let table = fixed_litlen_table();
    assert_eq!(table.encode(143), (0b1011_1111, 8));
    assert_eq!(table.encode(144), (0b1_1001_0000, 9));
    assert_eq!(table.encode(255), (0b1_1111_1111, 9));
    assert_eq!(table.encode(256), (0, 7));
    assert_eq!(table.encode(279), (0b001_0111, 7));
    assert_eq!(table.encode(280), (0b1100_0000, 8));
    assert_eq!(table.encode(287), (0b1100_0111, 8));
    // End of block: seven zero bits.
    assert_eq!(table.decode(0), (256, 7));
    // Symbol 255: nine one bits.
    assert_eq!(table.decode(0x1FF), (255, 9));
    for symbol in 0..288usize {
        let (code, len) = table.encode(symbol);
        let bits = reverse_bits(code as u32, len);
        assert_eq!(table.decode(bits), (symbol as u16, len));
        // Bits after the code do not matter.
        assert_eq!(table.decode(bits | (0x7FFF << len)), (symbol as u16, len));
    }
}

#[test]
fn fixed_distance_table_codes() {
    let table = fixed_distance_table();
    for symbol in 0..30usize {
        assert_eq!(table.encode(symbol), (symbol as u16, 5));
        assert_eq!(table.decode(reverse_bits(symbol as u32, 5)), (symbol as u16, 5));
    }
    // The codes 30 and 31 stand for nothing.
    assert_eq!(table.decode(reverse_bits(30, 5)), (0, 0));
    assert_eq!(table.decode(reverse_bits(31, 5)), (0, 0));
    let from_lengths = HuffmanTable::build(&FIXED_DISTANCE_CODE_LENGTHS, 30).unwrap();
    assert_eq!(from_lengths.encode(29), (29, 5));
}

#[test]
fn long_codes_decode_through_the_tree() {
    // Lengths 1, 2, ..., 14, 15, 15: a complete code with codes of up to 15 bits.
    let mut lengths: Vec<u8> = (1..=15).collect();
    lengths.push(15);
    let table = HuffmanTable::build(&lengths, 16).unwrap();
    for symbol in 0..16usize {
        let (code, len) = table.encode(symbol);
        assert_eq!(len, lengths[symbol]);
        let expected: u16 = if symbol < 15 { (1 << (symbol + 1)) - 2 } else { 0x7FFF };
        assert_eq!(code, expected);
        let bits = reverse_bits(code as u32, len);
        assert_eq!(table.decode(bits), (symbol as u16, len));
    }
}

#[test]
fn build_rejects_bad_lengths() {
    assert_eq!(HuffmanTable::build(&[16], 1).err(), Some(HuffmanError::InvalidCodeLength));
    assert_eq!(HuffmanTable::build(&[1, 1, 1], 3).err(), Some(HuffmanError::Overflow));
    assert_eq!(HuffmanTable::build(&[2, 2, 2, 2, 2], 5).err(), Some(HuffmanError::Overflow));
    assert_eq!(HuffmanTable::build(&[0u8; 513], 513).err(), Some(HuffmanError::InvalidSymbol));
    // Only the first `num_symbols` lengths count.
    assert!(HuffmanTable::build(&[1, 1, 99], 2).is_ok());
    // An incomplete code is accepted.
    let table = HuffmanTable::build(&[0, 3], 2).unwrap();
    assert_eq!(table.decode(0), (1, 3));
    assert_eq!(table.decode(1), (0, 0));
    assert_eq!(table.encode(0), (0, 0));
}

#[test]
fn empty_table_decodes_nothing() {
    let table = HuffmanTable::new();
    assert_eq!(table.decode(0), (0, 0));
    assert_eq!(table.decode_with_bits(0xFFFF_FFFF_FFFF, 48), (0, 0));
    assert!(table.has_enough_bits(0, 15, 15));
    assert!(!table.has_enough_bits(0, 14, 15));
    let table = HuffmanTable::default();
    assert_eq!(table.decode(5), (0, 0));
}

#[test]
fn static_table_covers_the_given_symbols() {
    let helper = HuffmanTable::new();
    let full = helper.build_static_table(&[0u16; 288]).unwrap();
    assert_eq!(full.encode(0), (0b0011_0000, 8));
    assert_eq!(full.encode(256), (0, 7));
    let partial = helper.build_static_table(&[0u16; 32]).unwrap();
    assert_eq!(partial.encode(0), (0, 8));
    assert_eq!(partial.encode(31), (31, 8));
    assert_eq!(partial.encode(32), (0, 0));
}

#[test]
fn reverse_bits_reverses() {
    assert_eq!(reverse_bits(0b1, 1), 0b1);
    assert_eq!(reverse_bits(0b110, 3), 0b011);
    assert_eq!(reverse_bits(0b0011_0000, 8), 0b0000_1100);
    assert_eq!(reverse_bits(0x0001, 16), 0x8000);
    assert_eq!(reverse_bits(0xFFFF, 0), 0);
}

#[test]
fn code_length_order() {
    assert_eq!(LENGTH_DEZIGZAG[0], 16);
    assert_eq!(LENGTH_DEZIGZAG[3], 0);
    assert_eq!(LENGTH_DEZIGZAG[18], 15);
    assert_eq!(HuffmanError::Overflow.message(), "overflow");
}
