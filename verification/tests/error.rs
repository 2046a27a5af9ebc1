use zip_rs::error::{CompressionLevel, FileType, ZipEntry, ZipError, ZipErrorCode, ZipMode};
use zip_rs::VERSION;

#[test]
fn error_test_compression_level() {
    assert_eq!(CompressionLevel::Level1.as_u8(), 1);
    assert_eq!(CompressionLevel::Level9.as_u8(), 9);
    assert!(CompressionLevel::from_u8(5).is_some());
    assert!(CompressionLevel::from_u8(10).is_none());
}

#[test]
fn test_file_type() {
    assert_eq!(FileType::from_u32(0o100644), FileType::File);
    assert_eq!(FileType::from_u32(0o40755), FileType::Directory);
    assert_eq!(FileType::from_u32(0o120755), FileType::Symlink);
}

#[test]
fn test_version() {
    assert!(!VERSION.is_empty());
}

#[test]
fn every_file_type() {
    assert_eq!(FileType::from_u32(0o010644), FileType::Fifo);
    assert_eq!(FileType::from_u32(0o020644), FileType::CharDevice);
    assert_eq!(FileType::from_u32(0o060644), FileType::BlockDevice);
    assert_eq!(FileType::from_u32(0o140644), FileType::Socket);
    assert_eq!(FileType::from_u32(0o644), FileType::File);
    assert_eq!(FileType::from_u32(0o170000), FileType::File);
    assert_eq!(FileType::File.as_str(), "file");
    assert_eq!(FileType::Directory.as_str(), "directory");
    assert_eq!(FileType::Symlink.as_str(), "symlink");
    assert_eq!(FileType::BlockDevice.as_str(), "block_device");
    assert_eq!(FileType::CharDevice.as_str(), "character_device");
    assert_eq!(FileType::Fifo.as_str(), "FIFO");
    assert_eq!(FileType::Socket.as_str(), "socket");
}

#[test]
fn levels_and_modes() {
    assert_eq!(CompressionLevel::default(), CompressionLevel::Level6);
    assert_eq!(CompressionLevel::NoCompression.as_u8(), 0);
    assert!(CompressionLevel::from_u8(0).is_none());
    for n in 1..=9u8 {
        assert_eq!(CompressionLevel::from_u8(n).unwrap().as_u8(), n);
    }
    assert_eq!(ZipMode::default(), ZipMode::Mirror);
}

#[test]
fn error_codes_round_trip() {
    for n in 0..=18 {
        let code = ZipErrorCode::from_c_code(n).unwrap();
        assert_eq!(code.to_c_code(), n);
        assert_eq!(code.as_i32(), n);
        assert_eq!(ZipError::from_c_code(n).as_c_code(), n);
    }
    assert!(ZipErrorCode::from_c_code(19).is_none());
    assert!(ZipErrorCode::from_c_code(-1).is_none());
    assert_eq!(ZipError::from_c_code(0), ZipError::CError(ZipErrorCode::Success));
    assert_eq!(ZipError::from_c_code(2), ZipError::OutOfMemory);
    assert_eq!(
        ZipError::from_c_code(4),
        ZipError::CorruptArchive { archive: String::new(), reason: "corrupt archive".to_string() }
    );
    assert!(matches!(ZipError::from_c_code(99), ZipError::Generic(_)));
    assert_eq!(ZipError::from_c_code(99).to_c_code(), ZipErrorCode::Create);
}

#[test]
fn error_codes_of_errors() {
    let path = || "p".to_string();
    assert_eq!(ZipError::file_open(path(), path()).to_c_code(), ZipErrorCode::Open);
    assert_eq!(ZipError::file_read(path(), path()).to_c_code(), ZipErrorCode::Open);
    assert_eq!(ZipError::file_write(path(), path()).to_c_code(), ZipErrorCode::OpenWrite);
    assert_eq!(ZipError::corrupt_archive(path(), path()).to_c_code(), ZipErrorCode::Broken);
    assert_eq!(ZipError::generic(path()).to_c_code(), ZipErrorCode::Create);
    assert_eq!(ZipError::Io(path()).as_c_code(), 1);
    assert_eq!(ZipError::Crc32Mismatch { name: path() }.as_c_code(), 5);
    assert_eq!(ZipError::UnsupportedCompression { method: 12 }.as_c_code(), 5);
    assert_eq!(ZipError::InvalidPath { path: path(), reason: path() }.as_c_code(), 16);
    assert_eq!(ZipError::CError(ZipErrorCode::FileSize).as_c_code(), 17);
    assert_eq!(
        ZipError::file_open("a".to_string(), "b".to_string()),
        ZipError::FileOpen { path: "a".to_string(), source: "b".to_string() }
    );
}

#[test]
fn entry_builders() {
    let entry = ZipEntry::new("a.txt".to_string());
    assert_eq!(entry.filename, "a.txt");
    assert_eq!(entry.permissions, 0o644);
    assert_eq!(entry.timestamp, 0);
    assert!(!entry.is_directory);
    let entry = entry.with_size(12).with_timestamp(99).with_permissions(0o100755);
    assert_eq!(entry.uncompressed_size, 12);
    assert_eq!(entry.timestamp, 99);
    assert_eq!(entry.permissions, 0o755);
    assert_eq!(entry.file_type, FileType::File);
    let kept = entry.clone().with_directory(false);
    assert_eq!(kept.permissions, 0o755);
    assert_eq!(kept.file_type, FileType::File);
    let dir = entry.with_permissions(0o700).with_directory(true);
    assert!(dir.is_directory);
    assert_eq!(dir.file_type, FileType::Directory);
    assert_eq!(dir.permissions, 0o755);
}

#[test]
fn exit_status_of_error_numbers() {
    assert_eq!(zip_rs::process::exit_status(0), 1);
    assert_eq!(zip_rs::process::exit_status(4), 4);
    assert_eq!(zip_rs::process::exit_status(-4), 4);
    assert_eq!(zip_rs::process::exit_status(i32::MAX), i32::MAX);
    assert_eq!(zip_rs::process::exit_status(-i32::MAX), i32::MAX);
}

#[test]
fn unknown_codes_are_named_in_the_message() {
    assert_eq!(
        ZipError::from_c_code(99),
        ZipError::Generic("unknown zip error code 99".to_string())
    );
    assert_eq!(
        ZipError::from_c_code(19),
        ZipError::Generic("unknown zip error code 19".to_string())
    );
    assert_eq!(
        ZipError::from_c_code(-1),
        ZipError::Generic("unknown zip error code -1".to_string())
    );
    assert_eq!(
        ZipError::from_c_code(i32::MIN),
        ZipError::Generic("unknown zip error code -2147483648".to_string())
    );
    assert_eq!(
        ZipError::from_c_code(i32::MAX),
        ZipError::Generic("unknown zip error code 2147483647".to_string())
    );
    assert_eq!(ZipError::from_c_code(-7).as_c_code(), 15);
    assert_eq!(zip_rs::zip::numerals::signed_decimal_string(0), "0");
    assert_eq!(zip_rs::zip::numerals::signed_decimal_string(-10), "-10");
    for n in 0..=18 {
        assert_eq!(ZipError::from_c_code(n).as_c_code(), n);
    }
}
