use zip_rs::error::{CompressionLevel, FileType, ZipError};
use zip_rs::miniz::crc32::crc32;
use zip_rs::unzip::archive::{extract_permissions, is_symlink, ZipArchive};
use zip_rs::unzip::extractor::ExtractStep;
use zip_rs::zip::builder::{SourceFile, ZipBuilder};
use zip_rs::zip::dostime::{dos_to_system_time, system_time_to_dos};
use zip_rs::zip::format::{read_le16, read_le32};
use zip_rs::zip::reader::{find_eocd, ZipReader};
use zip_rs::zip::writer::{compute_external_attr, empty_archive, ZipWriter};

const EMPTY: [u8; 22] =
    [0x50, 0x4b, 0x05, 0x06, 0, 0, 0, 0, 0, 0, 0, 0, 0, 0, 0, 0, 0, 0, 0, 0, 0, 0];

fn two_files(level: CompressionLevel) -> Vec<u8> {
    let mut writer = ZipWriter::new("test.zip", level).unwrap();
    writer.add_file("A", b"a", Some(1577836800), 0o644).unwrap();
    writer.add_file("B", b"bb", Some(1577836802), 0o600).unwrap();
    writer.finalize().unwrap();
    writer.into_bytes()
}

fn corrupt(reason: &str) -> ZipError {
    ZipError::CorruptArchive { archive: "x.zip".to_string(), reason: reason.to_string() }
}

#[test]
fn test_eocd_parsing() {
    let reader = ZipReader::open("test.zip", &EMPTY);
    assert!(reader.is_ok());

    let reader = reader.unwrap();
    assert_eq!(reader.entries().len(), 0);
}

#[test]
fn test_system_time_to_dos() {
    let (dos_time, dos_date) = system_time_to_dos(Some(1577836800));

    assert!(dos_time < 100);

    let year = (dos_date >> 9) & 0x7F;
    let month = (dos_date >> 5) & 0x0F;
    let day = dos_date & 0x1F;

    assert_eq!(year, 40);
    assert_eq!(month, 1);
    assert_eq!(day, 1);
}

#[test]
fn dos_words_of_known_times() {
    // 2023-11-14 22:13:20 UTC
    let (time, date) = system_time_to_dos(Some(1_700_000_000));
    assert_eq!(date, (43 << 9) | (11 << 5) | 14);
    assert_eq!(time, (22 << 11) | (13 << 5) | 10);
    assert_eq!(dos_to_system_time(time, date), 1_700_000_000);
    // An odd second is halved.
    let (time, _) = system_time_to_dos(Some(1_700_000_001));
    assert_eq!(time & 0x1F, 10);
    // No time is the start of 1970, which counts as 1980.
    assert_eq!(system_time_to_dos(None), (0, (1 << 5) | 1));
    assert_eq!(system_time_to_dos(Some(0)), (0, (1 << 5) | 1));
    // A time beyond the calendar gives zeros.
    assert_eq!(system_time_to_dos(Some(u64::MAX)), (0, 0));
    assert_eq!(system_time_to_dos(Some(i64::MAX as u64)), (0, 0));
}

#[test]
fn timestamps_of_dos_words() {
    assert_eq!(dos_to_system_time(0, 0), 0);
    // A month or a day of zero.
    assert_eq!(dos_to_system_time(0, (40 << 9) | 1), 0);
    assert_eq!(dos_to_system_time(0, (40 << 9) | (1 << 5)), 0);
    // 1980-01-01
    assert_eq!(dos_to_system_time(0, (1 << 5) | 1), 315532800);
    // A month above twelve counts as January.
    assert_eq!(dos_to_system_time(0, (13 << 5) | 1), 315532800);
    // The thirtieth of February does not exist.
    assert_eq!(dos_to_system_time(0, (40 << 9) | (2 << 5) | 30), 0);
    // Hour 24 does not exist.
    assert_eq!(dos_to_system_time(24 << 11, (1 << 5) | 1), 0);
    // 2107-12-31 23:59:58
    assert_eq!(
        dos_to_system_time((23 << 11) | (59 << 5) | 29, (127 << 9) | (12 << 5) | 31),
        4354819198
    );
}

#[test]
fn empty_archive_is_its_end_record() {
    let mut writer = ZipWriter::new("empty.zip", CompressionLevel::Level6).unwrap();
    assert!(!writer.is_finalized());
    writer.finalize().unwrap();
    assert!(writer.is_finalized());
    assert_eq!(writer.as_bytes(), &EMPTY);
    // A second call does nothing.
    writer.finalize().unwrap();
    assert_eq!(writer.into_bytes(), EMPTY.to_vec());
    assert_eq!(empty_archive(), EMPTY.to_vec());
    let builder = ZipBuilder::new("empty.zip").unwrap();
    assert_eq!(builder.create_empty_zip().unwrap(), EMPTY.to_vec());
    assert_eq!(builder.build(&[], &[]).unwrap(), EMPTY.to_vec());
    assert!(ZipArchive::list("empty.zip", &EMPTY).unwrap().is_empty());
}

#[test]
fn zip_round_trip_of_two_files() {
    for level in [CompressionLevel::NoCompression, CompressionLevel::Level1, CompressionLevel::Level6, CompressionLevel::Level9] {
        let bytes = two_files(level);
        let listing = ZipArchive::list("test.zip", &bytes).unwrap();
        assert_eq!(listing.len(), 2);
        assert_eq!(listing[0].filename, "A");
        assert_eq!(listing[1].filename, "B");
        assert_eq!(listing[0].uncompressed_size, 1);
        assert_eq!(listing[1].uncompressed_size, 2);
        assert_eq!(listing[0].crc32, crc32(0, b"a"));
        assert_eq!(listing[1].crc32, crc32(0, b"bb"));
        assert_eq!(listing[0].offset, 0);
        assert_eq!(listing[0].timestamp, 1577836800);
        assert_eq!(listing[1].timestamp, 1577836802);
        assert_eq!(listing[0].permissions, 0o644);
        assert_eq!(listing[1].permissions, 0o600);
        assert_eq!(listing[0].file_type, FileType::File);
        assert!(!listing[0].is_directory && !listing[0].is_symlink);
        let archive = ZipArchive::open("test.zip", bytes).unwrap();
        assert_eq!(archive.entries().unwrap().len(), 2);
        assert_eq!(archive.locate_file("A").unwrap(), Some(0));
        assert_eq!(archive.locate_file("B").unwrap(), Some(1));
        assert_eq!(archive.locate_file("C").unwrap(), None);
        let a = archive.extract_to(0).unwrap();
        let b = archive.extract_to(1).unwrap();
        assert_eq!(a.data, b"a");
        assert_eq!(b.data, b"bb");
        assert!(!a.is_symlink);
        assert_eq!(crc32(0, &a.data), listing[0].crc32);
        assert_eq!(crc32(0, &b.data), listing[1].crc32);
    }
}

#[test]
fn stored_archive_byte_for_byte() {
    let mut writer = ZipWriter::new("one.zip", CompressionLevel::NoCompression).unwrap();
    writer.add_file("A", b"a", Some(1577836800), 0o644).unwrap();
    writer.finalize().unwrap();
    let crc = crc32(0, b"a").to_le_bytes();
    let mut expected: Vec<u8> = vec![
        0x50, 0x4b, 0x03, 0x04, 20, 0, 0, 0, 0, 0, 0x00, 0x00, 0x21, 0x50,
    ];
    expected.extend_from_slice(&crc);
    expected.extend_from_slice(&[1, 0, 0, 0, 1, 0, 0, 0, 1, 0, 0, 0, b'A', b'a']);
    expected.extend_from_slice(&[
        0x50, 0x4b, 0x01, 0x02, 0x17, 0x03, 20, 0, 0, 0, 0, 0, 0x00, 0x00, 0x21, 0x50,
    ]);
    expected.extend_from_slice(&crc);
    expected.extend_from_slice(&[1, 0, 0, 0, 1, 0, 0, 0, 1, 0, 0, 0, 0, 0, 0, 0, 0, 0]);
    expected.extend_from_slice(&[0, 0, 0xA4, 0x01, 0, 0, 0, 0, b'A']);
    expected.extend_from_slice(&[
        0x50, 0x4b, 0x05, 0x06, 0, 0, 0, 0, 1, 0, 1, 0, 47, 0, 0, 0, 32, 0, 0, 0, 0, 0,
    ]);
    assert_eq!(writer.as_bytes(), &expected[..]);
    assert_eq!(read_le32(&expected, 0), 0x04034b50);
    assert_eq!(read_le16(&expected, 4), 20);
}

#[test]
fn deflated_entries_are_raw_streams() {
    let content = b"hello hello hello hello hello hello".to_vec();
    let mut writer = ZipWriter::new("d.zip", CompressionLevel::Level6).unwrap();
    writer.add_file("h.txt", &content, None, 0o644).unwrap();
    writer.add_file("empty", b"", None, 0o644).unwrap();
    writer.finalize().unwrap();
    let entries: Vec<_> = writer.entries().to_vec();
    assert_eq!(entries[0].compression_method, 8);
    assert!(entries[0].compressed_size < content.len() as u64);
    assert_eq!(entries[1].compression_method, 8);
    assert_eq!(entries[1].compressed_size, 2);
    assert_eq!(entries[1].uncompressed_size, 0);
    let bytes = writer.into_bytes();
    let start = 30 + 5;
    let payload = &bytes[start..start + entries[0].compressed_size as usize];
    assert_eq!(zip_rs::miniz::inflate::decompress_raw(payload).unwrap(), content);
    let archive = ZipArchive::open("d.zip", bytes).unwrap();
    assert_eq!(archive.extract_to(0).unwrap().data, content);
    assert!(archive.extract_to(1).unwrap().data.is_empty());
}

#[test]
fn spurious_end_record_in_entry_data() {
    // The data of the entry looks like an end record.
    let mut content = vec![0x50, 0x4b, 0x05, 0x06];
    content.extend_from_slice(&[0xEE; 40]);
    let mut writer = ZipWriter::new("s.zip", CompressionLevel::NoCompression).unwrap();
    writer.add_file("fake", &content, None, 0o644).unwrap();
    writer.finalize().unwrap();
    let bytes = writer.into_bytes();
    assert_eq!(&bytes[34..38], &[0x50, 0x4b, 0x05, 0x06]);
    assert_eq!(find_eocd(&bytes), Some(bytes.len() - 22));
    let listing = ZipArchive::list("s.zip", &bytes).unwrap();
    assert_eq!(listing.len(), 1);
    assert_eq!(listing[0].filename, "fake");
    let archive = ZipArchive::open("s.zip", bytes).unwrap();
    assert_eq!(archive.extract_to(0).unwrap().data, content);
}

#[test]
fn end_record_search() {
    assert_eq!(find_eocd(&EMPTY), Some(0));
    assert_eq!(find_eocd(&EMPTY[..21]), None);
    assert_eq!(find_eocd(&[]), None);
    // With a comment behind the record.
    let mut commented = EMPTY.to_vec();
    commented[20] = 3;
    commented.extend_from_slice(b"abc");
    assert_eq!(find_eocd(&commented), Some(0));
    assert!(ZipReader::open("c.zip", &commented).is_ok());
    // Of two records the one nearer to the end counts.
    let mut two = EMPTY.to_vec();
    two.extend_from_slice(&EMPTY);
    assert_eq!(find_eocd(&two), Some(22));
    // A signature with fewer than 22 bytes up to the end is no record.
    let mut short = EMPTY.to_vec();
    short.extend_from_slice(&[0x50, 0x4b, 0x05, 0x06, 0, 0]);
    assert_eq!(find_eocd(&short), Some(0));
    // A record further than 69584 bytes from the end is not found.
    let mut far = EMPTY.to_vec();
    far.extend_from_slice(&vec![0u8; 69584 - 22 + 1]);
    assert_eq!(find_eocd(&far), None);
    let mut near = EMPTY.to_vec();
    near.extend_from_slice(&vec![0u8; 69584 - 22]);
    assert_eq!(find_eocd(&near), Some(0));
    // Bytes behind a record and its comment do not matter.
    assert!(ZipReader::open("n.zip", &near).is_ok());
}

#[test]
fn end_record_is_found_and_read() {
    let record = ZipReader::find_and_parse_eocd(&EMPTY, "x.zip").unwrap();
    assert_eq!(record.central_dir_offset, 0);
    assert_eq!(record.central_dir_size, 0);
    assert_eq!(record.total_entries, 0);

    let archive = two_files(CompressionLevel::Level6);
    let record = ZipReader::find_and_parse_eocd(&archive, "x.zip").unwrap();
    let at = archive.len() - 22;
    assert_eq!(record.total_entries, 2);
    assert_eq!(record.central_dir_size, read_le32(&archive, at + 12) as u64);
    assert_eq!(record.central_dir_offset, read_le32(&archive, at + 16) as u64);
    assert_eq!(record.central_dir_offset + record.central_dir_size, at as u64);
    let reader = ZipReader::open("x.zip", &archive).unwrap();
    assert_eq!(reader.get_append_offset(), record.central_dir_offset);
    let entries =
        ZipReader::parse_central_directory(&archive, &record, "x.zip").unwrap();
    assert_eq!(entries.as_slice(), reader.entries());

    let err = |data: &[u8]| ZipReader::find_and_parse_eocd(data, "x.zip").err();
    assert_eq!(err(&EMPTY[..21]), Some(corrupt("File too small to be a ZIP archive")));
    assert_eq!(err(&[0u8; 30]), Some(corrupt("Cannot find end of central directory")));
}

#[test]
fn corrupt_archives_are_rejected() {
    let err = |data: &[u8]| ZipReader::open("x.zip", data).err();
    assert_eq!(err(&[]), Some(corrupt("File too small to be a ZIP archive")));
    assert_eq!(err(&[0u8; 22]), Some(corrupt("Cannot find end of central directory")));
    let mut multi = EMPTY;
    multi[4] = 1;
    assert_eq!(err(&multi), Some(corrupt("Multi-disk ZIP archives not supported")));
    let mut multi = EMPTY;
    multi[6] = 1;
    assert_eq!(err(&multi), Some(corrupt("Multi-disk ZIP archives not supported")));
    let mut beyond = EMPTY;
    beyond[16] = 22;
    assert_eq!(err(&beyond), Some(corrupt("Invalid central directory offset: 22 >= 22")));
    let mut beyond = EMPTY;
    beyond[12] = 23;
    assert_eq!(err(&beyond), Some(corrupt("Central directory extends beyond file")));
    let mut comment = EMPTY;
    comment[20] = 1;
    assert_eq!(err(&comment), Some(corrupt("EOCD comment extends beyond file")));
    // One entry announced, none there.
    let mut missing = EMPTY;
    missing[10] = 1;
    assert_eq!(err(&missing), Some(corrupt("Failed to read central directory header")));
    let mut bytes = two_files(CompressionLevel::NoCompression);
    let directory = read_le32(&bytes, bytes.len() - 6) as usize;
    bytes[directory] = 0;
    assert_eq!(
        ZipReader::open("x.zip", &bytes).err(),
        Some(corrupt("Invalid central directory header signature: got 0x02014b00"))
    );
    let mut bytes = two_files(CompressionLevel::NoCompression);
    bytes[directory + 28] = 0xFF;
    bytes[directory + 29] = 0xFF;
    assert_eq!(ZipReader::open("x.zip", &bytes).err(), Some(corrupt("Failed to read filename")));
    let mut bytes = two_files(CompressionLevel::NoCompression);
    bytes[directory + 30] = 0xFF;
    bytes[directory + 31] = 0xFF;
    assert_eq!(
        ZipReader::open("x.zip", &bytes).err(),
        Some(corrupt("Failed to skip extra/comment"))
    );
    assert_eq!(ZipArchive::list("x.zip", &[]).err(), Some(corrupt("File too small to be a ZIP archive")));
    assert_eq!(
        ZipReader::parse_eocd_at(&[0u8; 22], 0, "x.zip").err(),
        Some(corrupt("Invalid EOCD signature: expected 0x06054b50, got 0x00000000"))
    );
    // An offset of ten digits.
    let mut far = EMPTY;
    far[16..20].copy_from_slice(&4_000_000_123u32.to_le_bytes());
    assert_eq!(err(&far), Some(corrupt("Invalid central directory offset: 4000000123 >= 22")));
}

#[test]
fn numbers_in_messages() {
    assert_eq!(zip_rs::zip::numerals::decimal_string(0), "0");
    assert_eq!(zip_rs::zip::numerals::decimal_string(9), "9");
    assert_eq!(zip_rs::zip::numerals::decimal_string(10), "10");
    assert_eq!(zip_rs::zip::numerals::decimal_string(u64::MAX), "18446744073709551615");
    assert_eq!(zip_rs::zip::numerals::hex8_string(0), "00000000");
    assert_eq!(zip_rs::zip::numerals::hex8_string(0x0123_4567), "01234567");
    assert_eq!(zip_rs::zip::numerals::hex8_string(0x89ab_cdef), "89abcdef");
    assert_eq!(zip_rs::zip::numerals::hex8_string(u32::MAX), "ffffffff");
}

#[test]
fn corrupt_entries_are_rejected() {
    let entry_error = |bytes: Vec<u8>, index: u32| {
        ZipArchive::open("x.zip", bytes).unwrap().extract_to(index).err().unwrap()
    };
    let reason = |e: ZipError| match e {
        ZipError::CorruptEntry { name, archive, reason } => {
            assert_eq!(archive, "x.zip");
            (name, reason)
        }
        other => panic!("{:?}", other),
    };
    let good = two_files(CompressionLevel::NoCompression);
    assert_eq!(
        reason(entry_error(good.clone(), 2)),
        ("index 2".to_string(), "file index out of bounds".to_string())
    );
    // The content is changed: the CRC-32 no longer fits.
    let mut bytes = good.clone();
    bytes[31] = b'x';
    assert_eq!(
        reason(entry_error(bytes, 0)),
        ("A".to_string(), "CRC32 mismatch: expected 0xe8b7be43, got 0x8cdc1683".to_string())
    );
    // The local header is damaged.
    let mut bytes = good.clone();
    bytes[0] = 0;
    assert_eq!(
        reason(entry_error(bytes, 0)),
        ("A".to_string(), "invalid local header signature: 0x04034b00".to_string())
    );
    let directory = read_le32(&good, good.len() - 6) as usize;
    // The central directory names a method that is not supported.
    let mut bytes = good.clone();
    bytes[directory + 10] = 12;
    assert_eq!(
        reason(entry_error(bytes, 0)),
        ("A".to_string(), "unsupported compression method: 12".to_string())
    );
    // The central directory records another size.
    let mut bytes = good.clone();
    bytes[directory + 24] = 5;
    assert_eq!(reason(entry_error(bytes, 0)), ("A".to_string(), "size mismatch".to_string()));
    // The data is said to be longer than the archive.
    let mut bytes = good.clone();
    bytes[directory + 22] = 0xFF;
    assert_eq!(
        reason(entry_error(bytes, 0)),
        ("A".to_string(), "Failed to read compressed data".to_string())
    );
    // The local header is said to stand behind the archive's end.
    let mut bytes = good.clone();
    bytes[directory + 44] = 0xFF;
    assert_eq!(
        reason(entry_error(bytes, 0)),
        ("A".to_string(), "Failed to read local header".to_string())
    );
    // Stored data is taken for deflated.
    let mut bytes = good.clone();
    bytes[directory + 10] = 8;
    let (name, why) = reason(entry_error(bytes, 0));
    assert_eq!(name, "A");
    assert!(why.starts_with("decompression failed: "), "{}", why);
    // The second entry is not touched by damage to the first.
    let mut bytes = good;
    bytes[31] = b'x';
    assert_eq!(ZipArchive::open("x.zip", bytes).unwrap().extract_to(1).unwrap().data, b"bb");
}

#[test]
fn names_are_validated() {
    assert!(ZipWriter::validate_archive_name("a/b.txt").is_ok());
    assert!(ZipWriter::validate_archive_name("").is_ok());
    assert!(ZipWriter::validate_archive_name("中文文件.txt").is_ok());
    assert!(ZipWriter::validate_archive_name("a:b").is_ok());
    assert_eq!(
        ZipWriter::validate_archive_name("/a").err(),
        Some(ZipError::Generic("Invalid filename: cannot start with '/': '/a'".to_string()))
    );
    assert_eq!(
        ZipWriter::validate_archive_name("a\\b").err(),
        Some(ZipError::Generic("Invalid filename: cannot contain backslash: 'a\\b'".to_string()))
    );
    assert_eq!(
        ZipWriter::validate_archive_name("/a\\b").err(),
        Some(ZipError::Generic("Invalid filename: cannot start with '/': '/a\\b'".to_string()))
    );
    let mut writer = ZipWriter::new("n.zip", CompressionLevel::Level6).unwrap();
    assert!(writer.add_file("/x", b"1", None, 0).is_err());
    assert!(writer.add_directory("d\\e", None, 0).is_err());
    let long = "n".repeat(65536);
    assert_eq!(
        writer.add_file(&long, b"1", None, 0).err(),
        Some(ZipError::Generic("Archive name too long".to_string()))
    );
    assert_eq!(
        writer.add_directory(&"n".repeat(65535), None, 0).err(),
        Some(ZipError::Generic("Archive name too long".to_string()))
    );
    // Nothing was written.
    assert!(writer.as_bytes().is_empty());
    assert!(writer.entries().is_empty());
    writer.add_file(&"n".repeat(65535), b"1", None, 0).unwrap();
    writer.finalize().unwrap();
    assert_eq!(
        writer.add_file("late", b"1", None, 0).err(),
        Some(ZipError::Generic("Archive already finalized".to_string()))
    );
    assert_eq!(
        writer.add_directory("late", None, 0).err(),
        Some(ZipError::Generic("Archive already finalized".to_string()))
    );
}

#[test]
fn too_many_entries() {
    let mut writer = ZipWriter::new("many.zip", CompressionLevel::NoCompression).unwrap();
    for i in 0..65535u32 {
        let name = format!("{}", i);
        writer.add_directory(&name, None, 0o755).unwrap();
    }
    assert_eq!(
        writer.add_file("one more", b"", None, 0).err(),
        Some(ZipError::Generic("Too many files in archive".to_string()))
    );
    assert_eq!(
        writer.add_directory("one more", None, 0).err(),
        Some(ZipError::Generic("Too many files in archive".to_string()))
    );
    writer.finalize().unwrap();
    let reader = ZipReader::open("many.zip", writer.as_bytes()).unwrap();
    assert_eq!(reader.entries().len(), 65535);
    assert_eq!(reader.entries()[65534].name, "65534/");
}

#[test]
fn directories_and_attributes() {
    let mut writer = ZipWriter::new("d.zip", CompressionLevel::Level6).unwrap();
    writer.add_directory("dir", Some(1577836800), 0o40755).unwrap();
    writer.add_directory("other/", None, 0o700).unwrap();
    writer.add_file("dir/link", b"../target", None, 0o777).unwrap();
    writer.finalize().unwrap();
    let entries = writer.entries().to_vec();
    assert_eq!(entries[0].name, "dir/");
    assert_eq!(entries[1].name, "other/");
    assert!(entries[0].is_dir);
    assert_eq!(entries[0].external_attr, (0o755 << 16) | 0x10);
    assert_eq!(entries[0].compression_method, 0);
    assert_eq!(entries[2].external_attr, 0o777 << 16);
    assert_eq!(compute_external_attr(0o100644, false), 0o644 << 16);
    assert_eq!(compute_external_attr(0o7777, true), (0o777 << 16) | 0x10);
    let listing = ZipArchive::list("d.zip", writer.as_bytes()).unwrap();
    assert!(listing[0].is_directory);
    assert_eq!(listing[0].file_type, FileType::Directory);
    assert_eq!(listing[0].permissions, 0o755);
    assert_eq!(listing[1].permissions, 0o700);
    assert_eq!(listing[2].file_type, FileType::File);
    // Permissions by the system that made the entry.
    assert_eq!(extract_permissions(0o644 << 16, 0x0317, false), 0o644);
    assert_eq!(extract_permissions(0o100644 << 16, 0x0317, false), 0o644);
    assert_eq!(extract_permissions(0o644 << 16, 0x0017, false), 0o600);
    assert_eq!(extract_permissions(0o644 << 16, 0x0017, true), 0o700);
    assert_eq!(extract_permissions(0x10, 0x0317, true), 0o700);
    assert_eq!(extract_permissions(0, 0x0317, false), 0o600);
    assert!(is_symlink(0o120777 << 16));
    assert!(!is_symlink(0o100777 << 16));
    assert!(!is_symlink(0o120777));
}

#[test]
fn symlinks_are_listed_and_extracted_as_such() {
    // An archive of another tool: the mode in the directory is that of a link.
    let mut bytes = two_files(CompressionLevel::NoCompression);
    let directory = read_le32(&bytes, bytes.len() - 6) as usize;
    let mode: u32 = 0o120777 << 16;
    bytes[directory + 38..directory + 42].copy_from_slice(&mode.to_le_bytes());
    let listing = ZipArchive::list("l.zip", &bytes).unwrap();
    assert!(listing[0].is_symlink);
    assert_eq!(listing[0].file_type, FileType::Symlink);
    assert!(!listing[1].is_symlink);
    let archive = ZipArchive::open("l.zip", bytes).unwrap();
    let link = archive.extract_to(0).unwrap();
    assert!(link.is_symlink);
    assert_eq!(link.data, b"a");
}

#[test]
fn append_overwrites_the_old_directory() {
    let mut first = ZipWriter::new("a.zip", CompressionLevel::Level6).unwrap();
    first.add_file("A", b"a", Some(1577836800), 0o644).unwrap();
    first.finalize().unwrap();
    let old = first.into_bytes();
    let old_directory = read_le32(&old, old.len() - 6) as usize;

    let mut writer = ZipWriter::new_with_append("a.zip", &old, CompressionLevel::Level6).unwrap();
    // The writer stands where the old central directory began.
    assert_eq!(writer.as_bytes(), &old[..old_directory]);
    assert_eq!(writer.entries().len(), 1);
    writer.add_file("B", b"bb", Some(1577836802), 0o644).unwrap();
    writer.finalize().unwrap();
    let new = writer.into_bytes();

    let listing = ZipArchive::list("a.zip", &new).unwrap();
    assert_eq!(listing.len(), 2);
    assert_eq!(listing[0].filename, "A");
    assert_eq!(listing[1].filename, "B");
    assert_eq!(listing[0].timestamp, 1577836800);
    // The local header of B stands where the old central directory stood.
    assert_eq!(listing[1].offset as usize, old_directory);
    assert_eq!(&new[old_directory..old_directory + 4], &[0x50, 0x4b, 0x03, 0x04]);
    let archive = ZipArchive::open("a.zip", new).unwrap();
    assert_eq!(archive.extract_to(0).unwrap().data, b"a");
    assert_eq!(archive.extract_to(1).unwrap().data, b"bb");
    // Appending nothing gives the archive back.
    let mut again = ZipWriter::new_with_append("a.zip", &old, CompressionLevel::Level6).unwrap();
    again.finalize().unwrap();
    assert_eq!(again.into_bytes(), old);
}

#[test]
fn appending_to_what_is_no_archive_fails() {
    assert_eq!(
        ZipWriter::new_with_append("no.zip", b"not a zip", CompressionLevel::Level6).err(),
        Some(ZipError::OpenAppendFailed {
            path: "no.zip".to_string(),
            source: "File too small to be a ZIP archive".to_string(),
        })
    );
    assert_eq!(
        ZipWriter::new_with_append("no.zip", &[7u8; 100], CompressionLevel::Level6).err(),
        Some(ZipError::OpenAppendFailed {
            path: "no.zip".to_string(),
            source: "Cannot find end of central directory".to_string(),
        })
    );
    let builder = ZipBuilder::new("no.zip").unwrap().append(true);
    assert_eq!(
        builder.build(b"nothing", &[]).err(),
        Some(ZipError::OpenAppendFailed {
            path: "no.zip".to_string(),
            source: "File too small to be a ZIP archive".to_string(),
        })
    );
}

#[test]
fn building_fails_with_the_first_source_that_cannot_be_added() {
    let file = |key: &str| SourceFile {
        key: key.to_string(),
        dir: false,
        content: b"x".to_vec(),
        mtime: None,
        mode: 0o644,
    };
    let sources = vec![file("ok.txt"), file("a\\b"), file("/abs")];
    assert_eq!(
        zip_rs::create("f.zip", &sources).err(),
        Some(ZipError::Generic("Invalid filename: cannot contain backslash: 'a\\b'".to_string()))
    );
    let sources = vec![file("/abs"), file("a\\b")];
    assert_eq!(
        ZipBuilder::new("f.zip").unwrap().call_zip_zip(&[], &sources).err(),
        Some(ZipError::Generic("Invalid filename: cannot start with '/': '/abs'".to_string()))
    );
    let long = "n".repeat(65536);
    assert_eq!(
        zip_rs::create("f.zip", &[file(&long)]).err(),
        Some(ZipError::Generic("Archive name too long".to_string()))
    );
    // A directory may take one byte less: the slash is counted.
    let dir = SourceFile {
        key: "d".repeat(65535),
        dir: true,
        content: Vec::new(),
        mtime: None,
        mode: 0o755,
    };
    assert_eq!(
        zip_rs::create("f.zip", &[dir]).err(),
        Some(ZipError::Generic("Archive name too long".to_string()))
    );
    let many: Vec<SourceFile> = (0..65536).map(|i| file(&format!("{}", i))).collect();
    assert_eq!(
        zip_rs::create("f.zip", &many).err(),
        Some(ZipError::Generic("Too many files in archive".to_string()))
    );
    assert!(zip_rs::create("f.zip", &many[..65535]).is_ok());
}

#[test]
fn builder_builds_from_sources() {
    let sources = vec![
        SourceFile { key: "dir".to_string(), dir: true, content: Vec::new(), mtime: None, mode: 0o755 },
        SourceFile {
            key: "dir/a.txt".to_string(),
            dir: false,
            content: b"aaaaaaaaaaaaaaaaaaaaaaaaaaaaaaaaaaaaaaaaaaaaaaaaaaaaaaaa".to_vec(),
            mtime: Some(1_700_000_000),
            mode: 0o640,
        },
    ];
    let builder = ZipBuilder::new("b.zip")
        .unwrap()
        .compression_level(CompressionLevel::Level9)
        .recurse(false)
        .include_directories(true)
        .root("/tmp")
        .mode(zip_rs::error::ZipMode::CherryPick)
        .append(false)
        .files(&["dir".to_string()])
        .unwrap();
    assert_eq!(builder.paths(), &["dir".to_string()]);
    assert_eq!(builder.settings().root, "/tmp");
    assert_eq!(builder.settings().compression_level, CompressionLevel::Level9);
    assert!(!builder.settings().recurse);
    let (bytes, output) = builder
        .build_with_warnings(&[], &sources, vec![zip_rs::zip::data::ZipWarning::ColonPaths])
        .unwrap();
    assert_eq!(output.zipfile, "b.zip");
    assert_eq!(output.warnings, vec![zip_rs::zip::data::ZipWarning::ColonPaths]);
    let listing = ZipArchive::list("b.zip", &bytes).unwrap();
    assert_eq!(listing.len(), 2);
    assert_eq!(listing[0].filename, "dir/");
    assert_eq!(listing[1].filename, "dir/a.txt");
    assert_eq!(listing[1].permissions, 0o640);
    assert_eq!(listing[1].timestamp, 1_700_000_000);
    assert!(listing[1].compressed_size < listing[1].uncompressed_size);
    // Appending one more file.
    let more = vec![SourceFile {
        key: "b.txt".to_string(),
        dir: false,
        content: b"b".to_vec(),
        mtime: None,
        mode: 0o644,
    }];
    let appended = ZipBuilder::new("b.zip").unwrap().append(true).build(&bytes, &more).unwrap();
    let listing = ZipArchive::list("b.zip", &appended).unwrap();
    assert_eq!(listing.len(), 3);
    assert_eq!(listing[2].filename, "b.txt");
    let archive = ZipArchive::open("b.zip", appended).unwrap();
    assert_eq!(archive.extract_to(2).unwrap().data, b"b");
    assert_eq!(archive.extract_to(1).unwrap().data, sources[1].content);
    // A bad name stops the build.
    let bad = vec![SourceFile {
        key: "/abs".to_string(),
        dir: false,
        content: Vec::new(),
        mtime: None,
        mode: 0,
    }];
    assert!(ZipBuilder::new("b.zip").unwrap().build(&[], &bad).is_err());
}

#[test]
fn names_that_are_not_utf8_are_read_with_replacements() {
    let mut bytes = two_files(CompressionLevel::NoCompression);
    let directory = read_le32(&bytes, bytes.len() - 6) as usize;
    bytes[directory + 46] = 0xFF;
    let reader = ZipReader::open("u.zip", &bytes).unwrap();
    assert_eq!(reader.entries()[0].name, "\u{FFFD}");
    assert_eq!(reader.entries()[1].name, "B");
    assert_eq!(reader.get_append_offset() as usize, directory);
    let unicode = "中文文件.txt";
    let mut writer = ZipWriter::new("u.zip", CompressionLevel::Level6).unwrap();
    writer.add_file(unicode, b"x", None, 0o644).unwrap();
    writer.finalize().unwrap();
    assert_eq!(ZipArchive::list("u.zip", writer.as_bytes()).unwrap()[0].filename, unicode);
}

#[test]
fn create_append_list_and_extract() {
    assert_eq!(zip_rs::create("n.zip", &[]).unwrap(), EMPTY.to_vec());
    let sources = vec![
        SourceFile {
            key: "docs".to_string(),
            dir: true,
            content: Vec::new(),
            mtime: Some(1577836800),
            mode: 0o755,
        },
        SourceFile {
            key: "docs/a.txt".to_string(),
            dir: false,
            content: b"alpha alpha alpha alpha alpha alpha".to_vec(),
            mtime: Some(1577836800),
            mode: 0o644,
        },
    ];
    let bytes = zip_rs::create("n.zip", &sources).unwrap();
    let same = ZipBuilder::new("n.zip").unwrap().build(&[], &sources).unwrap();
    assert_eq!(bytes, same);
    let listing = zip_rs::list("n.zip", &bytes).unwrap();
    assert_eq!(listing.len(), 2);
    assert_eq!(listing[0].filename, "docs/");
    assert!(listing[0].is_directory);
    assert_eq!(listing[1].filename, "docs/a.txt");
    assert_eq!(listing[1].uncompressed_size, 35);

    let more = vec![SourceFile {
        key: "b.txt".to_string(),
        dir: false,
        content: b"beta".to_vec(),
        mtime: Some(1577836802),
        mode: 0o600,
    }];
    let longer = zip_rs::zip::append("n.zip", &bytes, &more).unwrap();
    let directory = read_le32(&bytes, bytes.len() - 6) as usize;
    assert_eq!(&longer[..directory], &bytes[..directory]);
    let listing = zip_rs::list("n.zip", &longer).unwrap();
    assert_eq!(listing.len(), 3);
    assert_eq!(listing[2].filename, "b.txt");
    assert_eq!(listing[2].offset as usize, directory);
    assert!(zip_rs::zip::append("n.zip", &[1, 2, 3], &more).is_err());

    let steps = zip_rs::extract("n.zip", &longer, "out").unwrap();
    assert_eq!(
        steps,
        vec![
            ExtractStep::Directory { path: "out/docs/".to_string() },
            ExtractStep::File {
                path: "out/docs/a.txt".to_string(),
                data: sources[1].content.clone(),
                permissions: 0o644,
                timestamp: 1577836800,
            },
            ExtractStep::File {
                path: "out/b.txt".to_string(),
                data: b"beta".to_vec(),
                permissions: 0o600,
                timestamp: 1577836802,
            },
        ]
    );
    assert_eq!(
        zip_rs::extract("x.zip", &[0u8; 4], "out").err(),
        Some(corrupt("File too small to be a ZIP archive"))
    );
    assert_eq!(
        zip_rs::list("x.zip", &[0u8; 4]).err(),
        Some(corrupt("File too small to be a ZIP archive"))
    );
}

#[test]
fn a_record_that_the_archive_cuts_short_is_an_error() {
    let short = corrupt("Failed to read end of central directory");
    assert_eq!(ZipReader::parse_eocd_at(&EMPTY, 1, "x.zip").err(), Some(short.clone()));
    assert_eq!(ZipReader::parse_eocd_at(&EMPTY[..21], 0, "x.zip").err(), Some(short.clone()));
    assert_eq!(ZipReader::parse_eocd_at(&[], 0, "x.zip").err(), Some(short.clone()));
    assert_eq!(ZipReader::parse_eocd_at(&EMPTY, usize::MAX, "x.zip").err(), Some(short));
    assert!(ZipReader::parse_eocd_at(&EMPTY, 0, "x.zip").is_ok());
}

#[test]
fn entries_with_sizes_beyond_32_bits_are_rejected() {
    let bytes = two_files(CompressionLevel::NoCompression);
    let reader = ZipReader::open("x.zip", &bytes).unwrap();
    let good = reader.entries()[0].clone();
    assert_eq!(zip_rs::unzip::archive::extract_entry(&bytes, &good, "x.zip").unwrap().data, b"a");
    let rejected = Some(ZipError::CorruptEntry {
        name: "A".to_string(),
        archive: "x.zip".to_string(),
        reason: "entry sizes out of range".to_string(),
    });
    let mut big = good.clone();
    big.uncompressed_size = 0x1_0000_0000;
    assert_eq!(zip_rs::unzip::archive::extract_entry(&bytes, &big, "x.zip").err(), rejected);
    let mut big = good.clone();
    big.compressed_size = u64::MAX;
    assert_eq!(zip_rs::unzip::archive::extract_entry(&bytes, &big, "x.zip").err(), rejected);
    let mut big = good.clone();
    big.local_header_offset = 0x1_0000_0000;
    assert_eq!(zip_rs::unzip::archive::extract_entry(&bytes, &big, "x.zip").err(), rejected);
    let mut last = good;
    last.local_header_offset = 0xFFFF_FFFF;
    assert_eq!(
        zip_rs::unzip::archive::extract_entry(&bytes, &last, "x.zip").err(),
        Some(ZipError::CorruptEntry {
            name: "A".to_string(),
            archive: "x.zip".to_string(),
            reason: "Failed to read local header".to_string(),
        })
    );
}

fn tree_sources() -> Vec<SourceFile> {
    let file = |key: &str, content: &[u8]| SourceFile {
        key: key.to_string(),
        dir: false,
        content: content.to_vec(),
        mtime: Some(1577836800),
        mode: 0o644,
    };
    vec![
        file("file1", b"file1\n"),
        file("file11", b"file11\n"),
        SourceFile {
            key: "dir".to_string(),
            dir: true,
            content: Vec::new(),
            mtime: Some(1577836800),
            mode: 0o755,
        },
        file("dir/file2", b"file2\n"),
        file("dir/file3", b"file3\n"),
    ]
}

fn step_paths(steps: &[ExtractStep]) -> Vec<String> {
    steps
        .iter()
        .map(|step| match step {
            ExtractStep::Directory { path } => path.clone(),
            ExtractStep::File { path, .. } => path.clone(),
            ExtractStep::Symlink { path, .. } => path.clone(),
        })
        .collect()
}

#[test]
fn test_empty_archive_no_files() {
    let result = ZipBuilder::new("empty.zip").unwrap().root("tmp").files(&[]).unwrap().build(&[], &[]);
    assert!(result.is_ok());
    let bytes = result.unwrap();
    assert_eq!(bytes, EMPTY.to_vec());
    let entries = zip_rs::list("empty.zip", &bytes).unwrap();
    assert_eq!(entries.len(), 0);
    assert_eq!(format!("Entries: {}", entries.len()), "Entries: 0");
}

#[test]
fn test_junkpaths() {
    let bytes = zip_rs::create("test.zip", &tree_sources()).unwrap();
    let steps = zip_rs::extract("test.zip", &bytes, "ex").unwrap();
    let files = step_paths(&steps);
    assert_eq!(
        format!("Extracted files:\n{}", files.join("\n")),
        "Extracted files:\nex/file1\nex/file11\nex/dir/\nex/dir/file2\nex/dir/file3"
    );
    // With the paths junked every file goes to the directory itself.
    let junked = zip_rs::unzip::extractor::Extractor::new("test.zip")
        .unwrap()
        .exdir("ex")
        .junk_paths(true)
        .extract(&bytes, &[])
        .unwrap();
    assert_eq!(step_paths(&junked), vec!["ex/file1", "ex/file11", "ex/dir", "ex/file2", "ex/file3"]);
    match &junked[3] {
        ExtractStep::File { data, .. } => assert_eq!(data, b"file2\n"),
        other => panic!("{:?}", other),
    }
}

#[test]
fn test_extract_overwrite() {
    let bytes = zip_rs::create("test.zip", &tree_sources()).unwrap();
    // The first extraction.
    let first = zip_rs::extract("test.zip", &bytes, "ex").unwrap();
    assert_eq!(first.len(), 5);
    // The second, with everything there: what is there is overwritten.
    let again = zip_rs::unzip::extractor::Extractor::new("test.zip").unwrap().exdir("ex");
    let result = again.extract(&bytes, &[true; 5]);
    match result {
        Err(e) => panic!("{:?}", e),
        Ok(steps) => assert_eq!(steps, first),
    }
    // Unless it is to be kept: then only the directory is made again.
    let keep =
        zip_rs::unzip::extractor::Extractor::new("test.zip").unwrap().exdir("ex").overwrite(false);
    let steps = keep.extract(&bytes, &[true; 5]).unwrap();
    assert_eq!(step_paths(&steps), vec!["ex/dir/"]);
}

#[test]
fn test_symlinks() {
    // An archive with a link, a directory and a file.
    let mut writer = ZipWriter::new("symlink.zip", CompressionLevel::Level6).unwrap();
    writer.add_file("link", b"target", Some(1577836800), 0o777).unwrap();
    writer.add_directory("dir", Some(1577836800), 0o755).unwrap();
    writer.add_file("dir/file", b"content", Some(1577836800), 0o644).unwrap();
    writer.finalize().unwrap();
    let mut bytes = writer.into_bytes();
    let directory = read_le32(&bytes, bytes.len() - 6) as usize;
    let mode: u32 = 0o120777 << 16;
    bytes[directory + 38..directory + 42].copy_from_slice(&mode.to_le_bytes());

    let entries = zip_rs::list("symlink.zip", &bytes).unwrap();
    let types: Vec<String> = entries
        .iter()
        .map(|e| {
            if e.is_symlink {
                format!("{}: symlink", e.filename)
            } else if e.filename.ends_with('/') {
                format!("{}: directory", e.filename)
            } else {
                format!("{}: file", e.filename)
            }
        })
        .collect();
    assert_eq!(types.join("\n"), "link: symlink\ndir/: directory\ndir/file: file");
    assert_eq!(entries[0].file_type, FileType::Symlink);
    assert_eq!(entries[1].file_type, FileType::Directory);
    assert_eq!(entries[2].file_type, FileType::File);
}
