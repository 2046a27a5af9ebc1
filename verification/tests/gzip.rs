use zip_rs::error::ZipError;
use zip_rs::gzip::{deflate, deflate_with_stats, inflate, inflate_with_stats};

#[test]
fn test_deflate_inflate_roundtrip() {
    let data = b"Hello world!";
    let compressed = deflate_with_stats(data, 6, 1, None).unwrap();
    let inflated = inflate_with_stats(&compressed.output, 1, None).unwrap();
    assert_eq!(inflated.output, data);
}

#[test]
fn test_deflate_inflate_empty() {
    let data = b"";
    let compressed = deflate_with_stats(data, 6, 1, None).unwrap();
    println!("DEBUG: Empty data compressed to: {:?}", compressed.output);
    println!("DEBUG: Compressed length: {}", compressed.output.len());
    let inflated = inflate_with_stats(&compressed.output, 1, None).unwrap();
    assert_eq!(inflated.output, data);
}

#[test]
fn whole_buffers_round_trip() {
    let data: Vec<u8> = b"to be or not to be, that is the question. ".repeat(50);
    let compressed = deflate(&data).unwrap();
    assert!(compressed.len() < data.len());
    assert_eq!(inflate(&compressed).unwrap(), data);
    assert!(inflate(b"").unwrap().is_empty());
    assert_eq!(
        deflate(b"").unwrap(),
        vec![0x78, 0x9C, 0x03, 0x00, 0x00, 0x00, 0x00, 0x01]
    );
}

#[test]
fn stats_and_positions() {
    let data = b"0123456789";
    let out = deflate_with_stats(data, 9, 6, Some(3)).unwrap();
    assert_eq!(out.bytes_read, 5);
    assert_eq!(out.bytes_written, out.output.len());
    let back = inflate_with_stats(&out.output, 1, Some(1)).unwrap();
    assert_eq!(back.output, b"56789");
    assert_eq!(back.bytes_read, out.output.len());
    assert_eq!(back.bytes_written, 5);
    // The position behind the end reads nothing.
    let out = deflate_with_stats(data, 1, 11, None).unwrap();
    assert_eq!(out.output, vec![0x78, 0x9C, 0x03, 0x00, 0x00, 0x00, 0x00, 0x01]);
    let back = inflate_with_stats(data, 11, None).unwrap();
    assert!(back.output.is_empty());
}

#[test]
fn errors_carry_messages() {
    let data = b"0123456789";
    assert_eq!(
        deflate_with_stats(data, 0, 1, None).err(),
        Some(ZipError::Generic("compression level must be 1-9".to_string()))
    );
    assert_eq!(
        deflate_with_stats(data, 10, 1, None).err(),
        Some(ZipError::Generic("compression level must be 1-9".to_string()))
    );
    assert_eq!(
        deflate_with_stats(data, 6, 0, None).err(),
        Some(ZipError::Generic("pos is out of range".to_string()))
    );
    assert_eq!(
        deflate_with_stats(data, 6, 12, None).err(),
        Some(ZipError::Generic("pos is out of range".to_string()))
    );
    assert_eq!(
        inflate_with_stats(data, 12, None).err(),
        Some(ZipError::Generic("pos is out of range".to_string()))
    );
    assert_eq!(
        inflate(data).err(),
        Some(ZipError::Generic("inflate failed: Input data is invalid".to_string()))
    );
    assert_eq!(
        inflate(&[0x78, 0x9C, 0x07]).err(),
        Some(ZipError::Generic("inflate failed: Invalid block type".to_string()))
    );
    assert_eq!(
        inflate(&[0x78, 0x9C]).err(),
        Some(ZipError::Generic("inflate failed: Decompression failed".to_string()))
    );
}

#[test]
fn the_short_calls_compress_and_decompress() {
    let data = b"to be or not to be, to be or not to be".to_vec();
    let packed = zip_rs::gzip_func::compress(&data).unwrap();
    assert_eq!(packed, deflate(&data).unwrap());
    assert_eq!(&packed[..2], &[0x78, 0x9C]);
    assert!(packed.len() < data.len());
    assert_eq!(zip_rs::gzip_func::decompress(&packed).unwrap(), data);
    assert_eq!(zip_rs::gzip_func::decompress(&[]).unwrap(), Vec::<u8>::new());
    assert_eq!(
        zip_rs::gzip_func::compress(&[]).unwrap(),
        vec![0x78, 0x9C, 0x03, 0x00, 0x00, 0x00, 0x00, 0x01]
    );
    assert!(zip_rs::gzip_func::decompress(&packed[..packed.len() - 1]).is_err());
}
