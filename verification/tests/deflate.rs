use zip_rs::miniz::deflate::{
    compress, compress_raw, compress_to_buffer, deflate_compress, compress_zlib, CompressionLevel,
    DeflateEncoder, DeflateError, DeflateOptions, FlushMode, Strategy,
};
use zip_rs::miniz::deflate_fast::{compress_fixed, deflate_compress_fast, encode_fixed_block};
use zip_rs::miniz::inflate::{decompress, decompress_raw};
use zip_rs::miniz::lz77::{LZSymbol, Match};

fn sample(len: usize) -> Vec<u8> {
    let mut state: u32 = 2463534242;
    let mut out = Vec::with_capacity(len);
    while out.len() < len {
        state ^= state << 13;
        state ^= state >> 17;
        state ^= state << 5;
        // Words from a small alphabet, so that matches occur.
        let word = (state % 37) as u8;
        for k in 0..(1 + state as usize % 7) {
            out.push(b'a' + (word + k as u8) % 26);
        }
    }
    out.truncate(len);
    out
}

#[test]
fn test_no_compression() {
    let data = b"Hello, World!";
    let compressed = compress(data, 0, 1, None).unwrap();

    assert!(compressed.output.len() > data.len());
}

#[test]
fn deflate_test_compression_level() {
    let data = b"Hello, World! This is a test string for compression.";

    for level in [1, 2, 6, 7, 9] {
        let compressed = compress(data, level, 1, None).unwrap();
        assert!(!compressed.output.is_empty());
    }
}

#[test]
fn test_raw_compression() {
    let data = b"Hello, World!";
    let compressed = compress_raw(data, 6).unwrap();

    let with_header = compress(data, 6, 1, None).unwrap();
    assert!(compressed.len() < with_header.output.len());
}

#[test]
fn deflate_fast_test_repeat_pattern() {
    let data: Vec<u8> = (0..=255).cycle().take(10240).collect();

    let result = deflate_compress_fast(&data);
    assert!(result.is_ok());

    let compressed = result.unwrap();
    println!("Input: {} bytes, compressed: {} bytes", data.len(), compressed.len());

    assert!(compressed.len() < data.len() / 2, "Should compress repeated pattern");
    assert_eq!(decompress_raw(&compressed).unwrap(), data);
}

#[test]
fn empty_input_gives_the_canonical_stream() {
    for level in [0, 1, 6, 9, 42, -1] {
        let out = compress(b"", level, 1, None).unwrap();
        assert_eq!(out.output, vec![0x78, 0x9C, 0x03, 0x00, 0x00, 0x00, 0x00, 0x01]);
        assert_eq!(out.bytes_read, 0);
        assert_eq!(out.bytes_written, 8);
    }
    assert_eq!(compress_raw(b"", 6).unwrap(), vec![0x03, 0x00]);
    assert!(deflate_compress_fast(b"").unwrap().is_empty());
    let decoded = decompress(&[0x78, 0x9C, 0x03, 0x00, 0x00, 0x00, 0x00, 0x01], 1, None).unwrap();
    assert!(decoded.output.is_empty());
    assert!(decompress_raw(&[0x03, 0x00]).unwrap().is_empty());
}

#[test]
fn level_zero_stores() {
    let out = compress(b"Hello, World!", 0, 1, None).unwrap();
    assert_eq!(
        out.output,
        vec![
            0x78, 0x9C, 0x01, 0x0d, 0x00, 0xf2, 0xff, 0x48, 0x65, 0x6c, 0x6c, 0x6f, 0x2c, 0x20, 0x57,
            0x6f, 0x72, 0x6c, 0x64, 0x21, 0x1f, 0x9e, 0x04, 0x6a,
        ]
    );
    assert_eq!(out.bytes_read, 13);
    assert_eq!(out.bytes_written, 24);
}

#[test]
fn stored_blocks_hold_at_most_65535_bytes() {
    let data = sample(65535 * 2 + 10);
    let body = deflate_compress(&data, 0);
    assert_eq!(body.len(), data.len() + 3 * 5);
    assert_eq!(body[..5], [0x00, 0xFF, 0xFF, 0x00, 0x00]);
    assert_eq!(body[5 + 65535..10 + 65535], [0x00, 0xFF, 0xFF, 0x00, 0x00]);
    assert_eq!(body[10 + 2 * 65535..15 + 2 * 65535], [0x01, 0x0A, 0x00, 0xF5, 0xFF]);
    assert_eq!(decompress_raw(&body).unwrap(), data);
    let exact = sample(65535);
    let body = deflate_compress(&exact, 0);
    assert_eq!(body[..5], [0x01, 0xFF, 0xFF, 0x00, 0x00]);
    assert_eq!(decompress_raw(&body).unwrap(), exact);
}

#[test]
fn fixed_block_of_one_literal() {
    // What zlib emits for "a".
    assert_eq!(compress_fixed(b"a", 1), vec![0x4b, 0x04, 0x00]);
    assert_eq!(encode_fixed_block(&[LZSymbol::Literal(b'a')]), vec![0x4b, 0x04, 0x00]);
    assert_eq!(encode_fixed_block(&[]), vec![0x03, 0x00]);
}

#[test]
fn fixed_block_with_matches() {
    // Three literals and one match of fifteen bytes from three back.
    assert_eq!(
        compress_fixed(b"abcabcabcabcabcabc", 32),
        vec![0x4b, 0x4c, 0x4a, 0x46, 0x43, 0x00]
    );
    assert_eq!(
        encode_fixed_block(&[
            LZSymbol::Literal(b'a'),
            LZSymbol::Literal(b'b'),
            LZSymbol::Literal(b'c'),
            LZSymbol::Match(Match { length: 15, distance: 3 }),
        ]),
        vec![0x4b, 0x4c, 0x4a, 0x46, 0x43, 0x00]
    );
    // What zlib emits for the same text decodes to it.
    assert_eq!(
        decompress_raw(&[0x4b, 0x4c, 0x4a, 0x4e, 0x44, 0x45, 0x00]).unwrap(),
        b"abcabcabcabcabcabc"
    );
    // Length 258 has no extra bits; distance 32768 has thirteen.
    let symbols = [
        LZSymbol::Literal(0),
        LZSymbol::Match(Match { length: 258, distance: 1 }),
        LZSymbol::Match(Match { length: 3, distance: 1 }),
        LZSymbol::Match(Match { length: 257, distance: 1 }),
    ];
    let block = encode_fixed_block(&symbols);
    assert_eq!(decompress_raw(&block).unwrap(), vec![0u8; 1 + 258 + 3 + 257]);
}

#[test]
fn what_does_not_shrink_is_stored() {
    // One byte: the fixed block takes three bytes, so the byte is stored.
    assert_eq!(compress_raw(b"a", 6).unwrap(), vec![0x01, 0x01, 0x00, 0xFE, 0xFF, b'a']);
    let out = compress(b"a", 6, 1, None).unwrap();
    assert_eq!(
        out.output,
        vec![0x78, 0x9C, 0x01, 0x01, 0x00, 0xFE, 0xFF, b'a', 0x00, 0x62, 0x00, 0x62]
    );
    // Text with repetitions shrinks.
    let data = sample(5000);
    let raw = compress_raw(&data, 6).unwrap();
    assert!(raw.len() < data.len());
    assert_eq!(raw[0] & 7, 0b011);
}

#[test]
fn round_trip_at_every_level() {
    let mut inputs: Vec<Vec<u8>> = vec![
        Vec::new(),
        b"a".to_vec(),
        b"Hello world!".to_vec(),
        vec![0u8; 70000],
        (0..=255u8).collect(),
        sample(100_000),
    ];
    let mut noise: Vec<u8> = Vec::new();
    let mut state: u32 = 1;
    for _ in 0..3000 {
        state = state.wrapping_mul(1664525).wrapping_add(1013904223);
        noise.push((state >> 24) as u8);
    }
    inputs.push(noise);
    for data in &inputs {
        for level in 0..=9 {
            let compressed = compress(data, level, 1, None).unwrap();
            let back = decompress(&compressed.output, 1, None).unwrap();
            assert_eq!(&back.output, data);
            assert_eq!(back.bytes_written as usize, data.len());
            assert_eq!(back.bytes_read as usize, compressed.output.len());
            let raw = compress_raw(data, level).unwrap();
            assert_eq!(&decompress_raw(&raw).unwrap(), data);
        }
    }
}

#[test]
fn higher_levels_search_harder() {
    let data = sample(60_000);
    let fast = compress_raw(&data, 1).unwrap();
    let best = compress_raw(&data, 9).unwrap();
    assert!(best.len() <= fast.len());
    assert_eq!(compress_zlib(&data, 9).len(), best.len() + 6);
}

#[test]
fn compress_reads_from_a_position() {
    let data = b"0123456789";
    let out = compress(data, 0, 4, Some(100)).unwrap();
    assert_eq!(out.bytes_read, 7);
    assert_eq!(decompress(&out.output, 1, None).unwrap().output, b"3456789");
    assert_eq!(compress(data, 6, 0, None).err(), Some(DeflateError::BadParam));
    assert_eq!(compress(data, 6, -3, None).err(), Some(DeflateError::BadParam));
    assert_eq!(compress(data, 6, 11, None).err(), Some(DeflateError::BadParam));
    assert!(compress(data, 6, 10, None).is_ok());
    assert_eq!(compress(data, 10, 1, None).err(), Some(DeflateError::InvalidLevel));
    assert_eq!(compress(data, -1, 1, None).err(), Some(DeflateError::InvalidLevel));
    assert_eq!(compress(data, 10, 0, None).err(), Some(DeflateError::BadParam));
    assert_eq!(compress_raw(data, 10).err(), Some(DeflateError::InvalidLevel));
    assert_eq!(compress_to_buffer(data, 77, 5).err(), Some(DeflateError::InvalidLevel));
    let out = compress_to_buffer(data, 3, 5).unwrap();
    assert_eq!(out.bytes_read, 10);
    assert_eq!(out.bytes_written, out.output.len());
    assert_eq!(DeflateError::InvalidLevel.message(), "Invalid compression level");
    assert_eq!(
        DeflateError::CompressionError("x".to_string()).message(),
        "Compression error: x"
    );
}

#[test]
fn encoder_gathers_input() {
    let mut encoder = DeflateEncoder::new(DeflateOptions::default()).unwrap();
    // Six bytes do not shrink: by themselves they are stored, in 11 bytes.
    assert_eq!(encoder.compress(b"Hello ", FlushMode::NoFlush).unwrap(), 11);
    assert_eq!(encoder.compress(b"world!", FlushMode::Finish).unwrap(), 11);
    assert_eq!(encoder.compress(b"", FlushMode::Finish).unwrap(), 0);
    let stream = encoder.get_compressed().unwrap();
    assert_eq!(decompress(&stream, 1, None).unwrap().output, b"Hello world!");
    // Input given at once: the number is the length of the stream between
    // its header and its checksum.
    let text = vec![b'a'; 500];
    let produced = encoder.compress(&text, FlushMode::Finish).unwrap();
    let stream = encoder.get_compressed().unwrap();
    assert_eq!(produced, stream.len() - 6);
    assert!(produced < 20);
    assert_eq!(decompress(&stream, 1, None).unwrap().output, text);
    // The encoder starts afresh.
    assert_eq!(
        encoder.get_compressed().unwrap(),
        vec![0x78, 0x9C, 0x03, 0x00, 0x00, 0x00, 0x00, 0x01]
    );
    let raw_options = DeflateOptions {
        level: CompressionLevel::Max,
        window_bits: 8,
        mem_level: 8,
        strategy: Strategy::Default,
    };
    let mut raw = DeflateEncoder::new(raw_options).unwrap();
    assert_eq!(raw.get_compressed().unwrap(), vec![0x03, 0x00]);
    raw.compress(&vec![9u8; 1000], FlushMode::Finish).unwrap();
    assert_eq!(decompress_raw(&raw.get_compressed().unwrap()).unwrap(), vec![9u8; 1000]);
    let bad = DeflateOptions { window_bits: 16, ..DeflateOptions::default() };
    assert_eq!(DeflateEncoder::new(bad).err(), Some(DeflateError::BadParam));
    let bad = DeflateOptions { window_bits: 7, ..DeflateOptions::default() };
    assert!(DeflateEncoder::new(bad).is_err());
    assert_eq!(CompressionLevel::High.number(), 7);
}
