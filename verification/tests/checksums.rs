use zip_rs::miniz::crc32::{crc32, Crc32};
use zip_rs::miniz::{adler32, ADLER32_INIT};

#[test]
fn test_adler32() {
    let data = b"Hello world!";
    let result = adler32(ADLER32_INIT, data);
    assert_eq!(result, 0x1D09045E);
}

#[test]
fn test_adler32_empty() {
    let result = adler32(ADLER32_INIT, &[]);
    assert_eq!(result, ADLER32_INIT);
}

#[test]
fn adler32_keeps_the_running_value_on_empty_input() {
    assert_eq!(adler32(0xFFFF_FFFF, &[]), 0xFFFF_FFFF);
    assert_eq!(adler32(0, &[]), 0);
}

#[test]
fn adler32_composes_across_chunks() {
    let data: Vec<u8> = (0..20000u32).map(|i| (i * 7 + 3) as u8).collect();
    let whole = adler32(ADLER32_INIT, &data);
    let first = adler32(ADLER32_INIT, &data[..5553]);
    assert_eq!(adler32(first, &data[5553..]), whole);
}

#[test]
fn adler32_of_a_long_run_of_high_bytes() {
    let data = vec![0xFFu8; 6000];
    // s1 = (1 + 255 * 6000) % 65521, s2 = (6000 + 255 * 6000 * 6001 / 2) % 65521
    let s1 = (1u64 + 255 * 6000) % 65521;
    let s2 = (6000u64 + 255 * 6000 * 6001 / 2) % 65521;
    assert_eq!(adler32(1, &data) as u64, (s2 << 16) | s1);
}

#[test]
fn crc32_of_nothing_is_zero() {
    assert_eq!(crc32(0, b""), 0);
}

#[test]
fn crc32_of_a_known_text() {
    assert_eq!(crc32(0, b"Hello, World!"), 0xEC4A_C3D0);
    assert_eq!(crc32(0, b"123456789"), 0xCBF4_3926);
}

#[test]
fn crc32_composes_across_chunks() {
    let first = crc32(0, b"Hello, ");
    assert_eq!(crc32(first, b"World!"), 0xEC4A_C3D0);
}

#[test]
fn crc32_table_is_reusable() {
    let table = Crc32::new();
    assert_eq!(table.update(0, b"123456789"), 0xCBF4_3926);
    assert_eq!(table.update(0, b""), 0);
}
