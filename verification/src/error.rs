//! The error type of the archive layer, and the small types that describe
//! an entry.

use vstd::prelude::*;
use vstd::string::StringExecFns;
use crate::zip::numerals::{signed_decimal, signed_decimal_string};

verus! {

/// The numeric error codes of the archive layer.
#[derive(Debug, Clone, Copy, PartialEq, Eq)]
pub enum ZipErrorCode {
    /// No error.
    Success,
    /// A file could not be opened.
    Open,
    /// Out of memory.
    NoMem,
    /// An entry is not in the archive.
    NoEntry,
    /// The archive is corrupt.
    Broken,
    /// An entry is corrupt.
    BrokenEntry,
    /// A file exists and is not to be overwritten.
    Overwrite,
    /// A directory could not be created.
    CreateDir,
    /// Permissions could not be set.
    SetPerm,
    /// A modification time could not be set.
    SetMtime,
    /// A file could not be opened for writing.
    OpenWrite,
    /// An archive could not be opened for appending.
    OpenAppend,
    /// A directory could not be added.
    AddDir,
    /// A file could not be added.
    AddFile,
    /// Permissions could not be recorded in the archive.
    SetZipPerm,
    /// The archive could not be created.
    Create,
    /// An entry could not be extracted.
    OpenX,
    /// The size of a file could not be determined.
    FileSize,
    /// A symbolic link could not be created.
    CreateLink,
}

impl ZipErrorCode {
    /// The number of the code.
    pub open spec fn code(self) -> int {
        match self {
            ZipErrorCode::Success => 0,
            ZipErrorCode::Open => 1,
            ZipErrorCode::NoMem => 2,
            ZipErrorCode::NoEntry => 3,
            ZipErrorCode::Broken => 4,
            ZipErrorCode::BrokenEntry => 5,
            ZipErrorCode::Overwrite => 6,
            ZipErrorCode::CreateDir => 7,
            ZipErrorCode::SetPerm => 8,
            ZipErrorCode::SetMtime => 9,
            ZipErrorCode::OpenWrite => 10,
            ZipErrorCode::OpenAppend => 11,
            ZipErrorCode::AddDir => 12,
            ZipErrorCode::AddFile => 13,
            ZipErrorCode::SetZipPerm => 14,
            ZipErrorCode::Create => 15,
            ZipErrorCode::OpenX => 16,
            ZipErrorCode::FileSize => 17,
            ZipErrorCode::CreateLink => 18,
        }
    }

    /// The code with the given number, if there is one.
    pub fn from_c_code(code: i32) -> (r: Option<Self>)
        ensures
            r.is_some() <==> 0 <= code <= 18,
            r.is_some() ==> r.unwrap().code() == code,
    {
        match code {
            0 => Some(ZipErrorCode::Success),
            1 => Some(ZipErrorCode::Open),
            2 => Some(ZipErrorCode::NoMem),
            3 => Some(ZipErrorCode::NoEntry),
            4 => Some(ZipErrorCode::Broken),
            5 => Some(ZipErrorCode::BrokenEntry),
            6 => Some(ZipErrorCode::Overwrite),
            7 => Some(ZipErrorCode::CreateDir),
            8 => Some(ZipErrorCode::SetPerm),
            9 => Some(ZipErrorCode::SetMtime),
            10 => Some(ZipErrorCode::OpenWrite),
            11 => Some(ZipErrorCode::OpenAppend),
            12 => Some(ZipErrorCode::AddDir),
            13 => Some(ZipErrorCode::AddFile),
            14 => Some(ZipErrorCode::SetZipPerm),
            15 => Some(ZipErrorCode::Create),
            16 => Some(ZipErrorCode::OpenX),
            17 => Some(ZipErrorCode::FileSize),
            18 => Some(ZipErrorCode::CreateLink),
            _ => None,
        }
    }

    /// The number of the code.
    pub fn to_c_code(self) -> (n: i32)
        ensures
            n == self.code(),
    {
        match self {
            ZipErrorCode::Success => 0,
            ZipErrorCode::Open => 1,
            ZipErrorCode::NoMem => 2,
            ZipErrorCode::NoEntry => 3,
            ZipErrorCode::Broken => 4,
            ZipErrorCode::BrokenEntry => 5,
            ZipErrorCode::Overwrite => 6,
            ZipErrorCode::CreateDir => 7,
            ZipErrorCode::SetPerm => 8,
            ZipErrorCode::SetMtime => 9,
            ZipErrorCode::OpenWrite => 10,
            ZipErrorCode::OpenAppend => 11,
            ZipErrorCode::AddDir => 12,
            ZipErrorCode::AddFile => 13,
            ZipErrorCode::SetZipPerm => 14,
            ZipErrorCode::Create => 15,
            ZipErrorCode::OpenX => 16,
            ZipErrorCode::FileSize => 17,
            ZipErrorCode::CreateLink => 18,
        }
    }

    /// The number of the code.
    pub fn as_i32(self) -> (n: i32)
        ensures
            n == self.code(),
    {
        self.to_c_code()
    }
}

/// Codes and numbers correspond one to one.
pub proof fn lemma_code_round_trip(a: ZipErrorCode, b: ZipErrorCode)
    ensures
        0 <= a.code() <= 18,
        a.code() == b.code() ==> a == b,
{
}

/// What went wrong in the archive layer. Paths and the messages of
/// underlying failures are held as text.
#[derive(Debug, Clone, PartialEq, Eq)]
pub enum ZipError {
    /// A bare error code.
    CError(ZipErrorCode),
    /// A file could not be opened.
    FileOpen { path: String, source: String },
    /// A file could not be read.
    FileRead { path: String, source: String },
    /// A file could not be written.
    FileWrite { path: String, source: String },
    /// Out of memory.
    OutOfMemory,
    /// An entry is not in the archive.
    EntryNotFound { name: String, archive: String },
    /// The archive is corrupt.
    CorruptArchive { archive: String, reason: String },
    /// An entry of the archive is corrupt.
    CorruptEntry { name: String, archive: String, reason: String },
    /// A file exists and is not to be overwritten.
    OverwriteConflict { path: String, archive: String },
    /// A directory could not be created.
    CreateDirFailed { path: String, source: String },
    /// Permissions could not be set.
    SetPermFailed { path: String, source: String },
    /// A modification time could not be set.
    SetMtimeFailed { path: String, source: String },
    /// An archive could not be opened for writing.
    OpenWriteFailed { path: String, source: String },
    /// An archive could not be opened for appending.
    OpenAppendFailed { path: String, source: String },
    /// A directory could not be added.
    AddDirFailed { path: String, archive: String },
    /// A file could not be added.
    AddFileFailed { path: String, archive: String },
    /// Permissions could not be recorded in the archive.
    SetZipPermFailed { path: String, archive: String },
    /// The archive could not be created.
    CreateFailed { archive: String },
    /// An entry could not be extracted.
    OpenExtractFailed { path: String },
    /// The size of a file could not be determined.
    FileSizeFailed { path: String },
    /// A compression method other than store and deflate.
    UnsupportedCompression { method: u16 },
    /// The CRC-32 of an entry is not that of its data.
    Crc32Mismatch { name: String },
    /// A path is not acceptable.
    InvalidPath { path: String, reason: String },
    /// A symbolic link could not be created.
    CreateSymlinkFailed { target: String, link: String, source: String },
    /// An input or output failure, with its message.
    Io(String),
    /// Any other failure, with its message.
    Generic(String),
}

impl ZipError {
    /// The error code that stands for the error.
    pub open spec fn spec_code(self) -> ZipErrorCode {
        match self {
            ZipError::CError(code) => code,
            ZipError::FileOpen { .. } => ZipErrorCode::Open,
            ZipError::FileRead { .. } => ZipErrorCode::Open,
            ZipError::FileWrite { .. } => ZipErrorCode::OpenWrite,
            ZipError::OutOfMemory => ZipErrorCode::NoMem,
            ZipError::EntryNotFound { .. } => ZipErrorCode::NoEntry,
            ZipError::CorruptArchive { .. } => ZipErrorCode::Broken,
            ZipError::CorruptEntry { .. } => ZipErrorCode::BrokenEntry,
            ZipError::OverwriteConflict { .. } => ZipErrorCode::Overwrite,
            ZipError::CreateDirFailed { .. } => ZipErrorCode::CreateDir,
            ZipError::SetPermFailed { .. } => ZipErrorCode::SetPerm,
            ZipError::SetMtimeFailed { .. } => ZipErrorCode::SetMtime,
            ZipError::OpenWriteFailed { .. } => ZipErrorCode::OpenWrite,
            ZipError::OpenAppendFailed { .. } => ZipErrorCode::OpenAppend,
            ZipError::AddDirFailed { .. } => ZipErrorCode::AddDir,
            ZipError::AddFileFailed { .. } => ZipErrorCode::AddFile,
            ZipError::SetZipPermFailed { .. } => ZipErrorCode::SetZipPerm,
            ZipError::CreateFailed { .. } => ZipErrorCode::Create,
            ZipError::OpenExtractFailed { .. } => ZipErrorCode::OpenX,
            ZipError::FileSizeFailed { .. } => ZipErrorCode::FileSize,
            ZipError::UnsupportedCompression { .. } => ZipErrorCode::BrokenEntry,
            ZipError::Crc32Mismatch { .. } => ZipErrorCode::BrokenEntry,
            ZipError::InvalidPath { .. } => ZipErrorCode::OpenX,
            ZipError::CreateSymlinkFailed { .. } => ZipErrorCode::CreateLink,
            ZipError::Io(_) => ZipErrorCode::Open,
            ZipError::Generic(_) => ZipErrorCode::Create,
        }
    }

    /// The error is a generic one with the message `msg`.
    pub open spec fn is_generic(self, msg: Seq<char>) -> bool {
        self matches ZipError::Generic(m) && m@ == msg
    }

    /// The error is the one that stands for the error code `code`: for each
    /// code from 0 to 18 the error of its kind, with empty paths and names
    /// and a source or reason that names the kind; for any other number a
    /// generic error whose message ends with the number.
    pub open spec fn stands_for(self, code: int) -> bool {
        match self {
            ZipError::CError(c) => code == 0 && c == ZipErrorCode::Success,
            ZipError::FileOpen { path, source } => code == 1 && path@.len() == 0 && source@
                == "zip open failed"@,
            ZipError::OutOfMemory => code == 2,
            ZipError::EntryNotFound { name, archive } => code == 3 && name@.len() == 0
                && archive@.len() == 0,
            ZipError::CorruptArchive { archive, reason } => code == 4 && archive@.len() == 0
                && reason@ == "corrupt archive"@,
            ZipError::CorruptEntry { name, archive, reason } => code == 5 && name@.len() == 0
                && archive@.len() == 0 && reason@ == "corrupt entry"@,
            ZipError::OverwriteConflict { path, archive } => code == 6 && path@.len() == 0
                && archive@.len() == 0,
            ZipError::CreateDirFailed { path, source } => code == 7 && path@.len() == 0 && source@
                == "create dir failed"@,
            ZipError::SetPermFailed { path, source } => code == 8 && path@.len() == 0 && source@
                == "set permissions failed"@,
            ZipError::SetMtimeFailed { path, source } => code == 9 && path@.len() == 0 && source@
                == "set mtime failed"@,
            ZipError::OpenWriteFailed { path, source } => code == 10 && path@.len() == 0 && source@
                == "open for write failed"@,
            ZipError::OpenAppendFailed { path, source } => code == 11 && path@.len() == 0
                && source@ == "open for append failed"@,
            ZipError::AddDirFailed { path, archive } => code == 12 && path@.len() == 0
                && archive@.len() == 0,
            ZipError::AddFileFailed { path, archive } => code == 13 && path@.len() == 0
                && archive@.len() == 0,
            ZipError::SetZipPermFailed { path, archive } => code == 14 && path@.len() == 0
                && archive@.len() == 0,
            ZipError::CreateFailed { archive } => code == 15 && archive@.len() == 0,
            ZipError::OpenExtractFailed { path } => code == 16 && path@.len() == 0,
            ZipError::FileSizeFailed { path } => code == 17 && path@.len() == 0,
            ZipError::CreateSymlinkFailed { target, link, source } => code == 18 && target@.len()
                == 0 && link@.len() == 0 && source@ == "create symlink failed"@,
            ZipError::Generic(message) => !(0 <= code <= 18) && message@
                == "unknown zip error code "@ + signed_decimal(code),
            _ => false,
        }
    }

    /// The error that stands for an error code.
    pub fn from_c_code(code: i32) -> (r: Self)
        ensures
            r.stands_for(code as int),
            0 <= code <= 18 ==> r.spec_code().code() == code,
    {
        match ZipErrorCode::from_c_code(code) {
            Some(ZipErrorCode::Success) => ZipError::CError(ZipErrorCode::Success),
            Some(ZipErrorCode::Open) => ZipError::FileOpen {
                path: String::new(),
                source: String::from_str("zip open failed"),
            },
            Some(ZipErrorCode::NoMem) => ZipError::OutOfMemory,
            Some(ZipErrorCode::NoEntry) => ZipError::EntryNotFound {
                name: String::new(),
                archive: String::new(),
            },
            Some(ZipErrorCode::Broken) => ZipError::CorruptArchive {
                archive: String::new(),
                reason: String::from_str("corrupt archive"),
            },
            Some(ZipErrorCode::BrokenEntry) => ZipError::CorruptEntry {
                name: String::new(),
                archive: String::new(),
                reason: String::from_str("corrupt entry"),
            },
            Some(ZipErrorCode::Overwrite) => ZipError::OverwriteConflict {
                path: String::new(),
                archive: String::new(),
            },
            Some(ZipErrorCode::CreateDir) => ZipError::CreateDirFailed {
                path: String::new(),
                source: String::from_str("create dir failed"),
            },
            Some(ZipErrorCode::SetPerm) => ZipError::SetPermFailed {
                path: String::new(),
                source: String::from_str("set permissions failed"),
            },
            Some(ZipErrorCode::SetMtime) => ZipError::SetMtimeFailed {
                path: String::new(),
                source: String::from_str("set mtime failed"),
            },
            Some(ZipErrorCode::OpenWrite) => ZipError::OpenWriteFailed {
                path: String::new(),
                source: String::from_str("open for write failed"),
            },
            Some(ZipErrorCode::OpenAppend) => ZipError::OpenAppendFailed {
                path: String::new(),
                source: String::from_str("open for append failed"),
            },
            Some(ZipErrorCode::AddDir) => ZipError::AddDirFailed {
                path: String::new(),
                archive: String::new(),
            },
            Some(ZipErrorCode::AddFile) => ZipError::AddFileFailed {
                path: String::new(),
                archive: String::new(),
            },
            Some(ZipErrorCode::SetZipPerm) => ZipError::SetZipPermFailed {
                path: String::new(),
                archive: String::new(),
            },
            Some(ZipErrorCode::Create) => ZipError::CreateFailed { archive: String::new() },
            Some(ZipErrorCode::OpenX) => ZipError::OpenExtractFailed { path: String::new() },
            Some(ZipErrorCode::FileSize) => ZipError::FileSizeFailed { path: String::new() },
            Some(ZipErrorCode::CreateLink) => ZipError::CreateSymlinkFailed {
                target: String::new(),
                link: String::new(),
                source: String::from_str("create symlink failed"),
            },
            None => ZipError::Generic(
                String::from_str("unknown zip error code ").concat(
                    signed_decimal_string(code).as_str(),
                ),
            ),
        }
    }

    /// The error code that stands for the error.
    pub fn to_c_code(&self) -> (r: ZipErrorCode)
        ensures
            r == self.spec_code(),
    {
        match self {
            ZipError::CError(code) => *code,
            ZipError::FileOpen { .. } => ZipErrorCode::Open,
            ZipError::FileRead { .. } => ZipErrorCode::Open,
            ZipError::FileWrite { .. } => ZipErrorCode::OpenWrite,
            ZipError::OutOfMemory => ZipErrorCode::NoMem,
            ZipError::EntryNotFound { .. } => ZipErrorCode::NoEntry,
            ZipError::CorruptArchive { .. } => ZipErrorCode::Broken,
            ZipError::CorruptEntry { .. } => ZipErrorCode::BrokenEntry,
            ZipError::OverwriteConflict { .. } => ZipErrorCode::Overwrite,
            ZipError::CreateDirFailed { .. } => ZipErrorCode::CreateDir,
            ZipError::SetPermFailed { .. } => ZipErrorCode::SetPerm,
            ZipError::SetMtimeFailed { .. } => ZipErrorCode::SetMtime,
            ZipError::OpenWriteFailed { .. } => ZipErrorCode::OpenWrite,
            ZipError::OpenAppendFailed { .. } => ZipErrorCode::OpenAppend,
            ZipError::AddDirFailed { .. } => ZipErrorCode::AddDir,
            ZipError::AddFileFailed { .. } => ZipErrorCode::AddFile,
            ZipError::SetZipPermFailed { .. } => ZipErrorCode::SetZipPerm,
            ZipError::CreateFailed { .. } => ZipErrorCode::Create,
            ZipError::OpenExtractFailed { .. } => ZipErrorCode::OpenX,
            ZipError::FileSizeFailed { .. } => ZipErrorCode::FileSize,
            ZipError::UnsupportedCompression { .. } => ZipErrorCode::BrokenEntry,
            ZipError::Crc32Mismatch { .. } => ZipErrorCode::BrokenEntry,
            ZipError::InvalidPath { .. } => ZipErrorCode::OpenX,
            ZipError::CreateSymlinkFailed { .. } => ZipErrorCode::CreateLink,
            ZipError::Io(_) => ZipErrorCode::Open,
            ZipError::Generic(_) => ZipErrorCode::Create,
        }
    }

    /// The number of the error code that stands for the error.
    pub fn as_c_code(&self) -> (n: i32)
        ensures
            n == self.spec_code().code(),
    {
        self.to_c_code().as_i32()
    }

    /// The error of a file that could not be opened.
    pub fn file_open(path: String, source: String) -> (e: Self)
        ensures
            e == (ZipError::FileOpen { path, source }),
    {
        ZipError::FileOpen { path, source }
    }

    /// The error of a file that could not be read.
    pub fn file_read(path: String, source: String) -> (e: Self)
        ensures
            e == (ZipError::FileRead { path, source }),
    {
        ZipError::FileRead { path, source }
    }

    /// The error of a file that could not be written.
    pub fn file_write(path: String, source: String) -> (e: Self)
        ensures
            e == (ZipError::FileWrite { path, source }),
    {
        ZipError::FileWrite { path, source }
    }

    /// The error of a corrupt archive.
    pub fn corrupt_archive(archive: String, reason: String) -> (e: Self)
        ensures
            e == (ZipError::CorruptArchive { archive, reason }),
    {
        ZipError::CorruptArchive { archive, reason }
    }

    /// A generic error with a message.
    pub fn generic(msg: String) -> (e: Self)
        ensures
            e == ZipError::Generic(msg),
    {
        ZipError::Generic(msg)
    }
}

/// The level at which an archive's files are compressed.
#[derive(Debug, Clone, Copy, PartialEq, Eq)]
pub enum CompressionLevel {
    NoCompression,
    Level1,
    Level2,
    Level3,
    Level4,
    Level5,
    Level6,
    Level7,
    Level8,
    Level9,
}

impl CompressionLevel {
    /// The number of the level, from 0 to 9.
    pub open spec fn number(self) -> int {
        match self {
            CompressionLevel::NoCompression => 0,
            CompressionLevel::Level1 => 1,
            CompressionLevel::Level2 => 2,
            CompressionLevel::Level3 => 3,
            CompressionLevel::Level4 => 4,
            CompressionLevel::Level5 => 5,
            CompressionLevel::Level6 => 6,
            CompressionLevel::Level7 => 7,
            CompressionLevel::Level8 => 8,
            CompressionLevel::Level9 => 9,
        }
    }

    /// The number of the level.
    pub fn as_u8(self) -> (n: u8)
        ensures
            n == self.number(),
    {
        match self {
            CompressionLevel::NoCompression => 0,
            CompressionLevel::Level1 => 1,
            CompressionLevel::Level2 => 2,
            CompressionLevel::Level3 => 3,
            CompressionLevel::Level4 => 4,
            CompressionLevel::Level5 => 5,
            CompressionLevel::Level6 => 6,
            CompressionLevel::Level7 => 7,
            CompressionLevel::Level8 => 8,
            CompressionLevel::Level9 => 9,
        }
    }

    /// The compressing level with the given number, one from 1 to 9.
    pub fn from_u8(level: u8) -> (r: Option<Self>)
        ensures
            r.is_some() <==> 1 <= level <= 9,
            r.is_some() ==> r.unwrap().number() == level,
    {
        match level {
            1 => Some(CompressionLevel::Level1),
            2 => Some(CompressionLevel::Level2),
            3 => Some(CompressionLevel::Level3),
            4 => Some(CompressionLevel::Level4),
            5 => Some(CompressionLevel::Level5),
            6 => Some(CompressionLevel::Level6),
            7 => Some(CompressionLevel::Level7),
            8 => Some(CompressionLevel::Level8),
            9 => Some(CompressionLevel::Level9),
            _ => None,
        }
    }
}

impl Default for CompressionLevel {
    fn default() -> (l: Self)
        ensures
            l == CompressionLevel::Level6,
    {
        CompressionLevel::Level6
    }
}

/// How the paths of files become the names of entries.
#[derive(Debug, Clone, Copy, PartialEq, Eq)]
pub enum ZipMode {
    /// The directory structure is kept.
    Mirror,
    /// Every file goes to the root of the archive.
    CherryPick,
}

impl Default for ZipMode {
    fn default() -> (m: Self)
        ensures
            m == ZipMode::Mirror,
    {
        ZipMode::Mirror
    }
}

/// The kind of file that an entry stands for.
#[derive(Debug, Clone, Copy, PartialEq, Eq)]
pub enum FileType {
    File,
    Directory,
    Symlink,
    BlockDevice,
    CharDevice,
    Fifo,
    Socket,
}

impl FileType {
    /// The kind of file that the type bits of a Unix mode stand for; a
    /// regular file where they stand for nothing.
    pub open spec fn of_mode(mode: u32) -> FileType {
        let kind = mode & 0o170000;
        if kind == 0o010000 {
            FileType::Fifo
        } else if kind == 0o020000 {
            FileType::CharDevice
        } else if kind == 0o040000 {
            FileType::Directory
        } else if kind == 0o060000 {
            FileType::BlockDevice
        } else if kind == 0o120000 {
            FileType::Symlink
        } else if kind == 0o140000 {
            FileType::Socket
        } else {
            FileType::File
        }
    }

    /// The kind of file that a Unix mode stands for.
    pub fn from_u32(mode: u32) -> (t: Self)
        ensures
            t == Self::of_mode(mode),
    {
        let kind: u32 = mode & 0o170000;
        if kind == 0o010000 {
            FileType::Fifo
        } else if kind == 0o020000 {
            FileType::CharDevice
        } else if kind == 0o040000 {
            FileType::Directory
        } else if kind == 0o060000 {
            FileType::BlockDevice
        } else if kind == 0o120000 {
            FileType::Symlink
        } else if kind == 0o140000 {
            FileType::Socket
        } else {
            FileType::File
        }
    }

    /// The name of the kind.
    pub fn as_str(&self) -> (s: &'static str)
        ensures
            s@ == (match *self {
                FileType::File => "file"@,
                FileType::Directory => "directory"@,
                FileType::Symlink => "symlink"@,
                FileType::BlockDevice => "block_device"@,
                FileType::CharDevice => "character_device"@,
                FileType::Fifo => "FIFO"@,
                FileType::Socket => "socket"@,
            }),
    {
        match self {
            FileType::File => "file",
            FileType::Directory => "directory",
            FileType::Symlink => "symlink",
            FileType::BlockDevice => "block_device",
            FileType::CharDevice => "character_device",
            FileType::Fifo => "FIFO",
            FileType::Socket => "socket",
        }
    }
}

/// What an archive records of one entry.
#[derive(Debug, Clone)]
pub struct ZipEntry {
    /// The name of the entry.
    pub filename: String,
    /// The number of bytes that the entry takes in the archive.
    pub compressed_size: u64,
    /// The number of bytes of the file.
    pub uncompressed_size: u64,
    /// The modification time in seconds since 1970-01-01 00:00:00 UTC.
    pub timestamp: i64,
    /// The Unix permission bits.
    pub permissions: u32,
    /// The CRC-32 of the file.
    pub crc32: u32,
    /// Where the entry's local header stands in the archive.
    pub offset: u64,
    /// Whether the entry is a directory.
    pub is_directory: bool,
    /// The kind of file.
    pub file_type: FileType,
    /// Whether the entry is a symbolic link.
    pub is_symlink: bool,
}

impl ZipEntry {
    /// An entry for a regular file of that name: empty, with permissions 0644
    /// and the time 0.
    pub fn new(filename: String) -> (e: Self)
        ensures
            e.filename == filename,
            e.compressed_size == 0,
            e.uncompressed_size == 0,
            e.timestamp == 0,
            e.permissions == 0o644,
            e.crc32 == 0,
            e.offset == 0,
            !e.is_directory,
            e.file_type == FileType::File,
            !e.is_symlink,
    {
        ZipEntry {
            filename,
            compressed_size: 0,
            uncompressed_size: 0,
            timestamp: 0,
            permissions: 0o644,
            crc32: 0,
            offset: 0,
            is_directory: false,
            file_type: FileType::File,
            is_symlink: false,
        }
    }

    /// Sets whether the entry is a directory; a directory gets the kind of a
    /// directory and the permissions 0755.
    pub fn with_directory(self, is_dir: bool) -> (e: Self)
        ensures
            e == (ZipEntry {
                is_directory: is_dir,
                file_type: if is_dir {
                    FileType::Directory
                } else {
                    self.file_type
                },
                permissions: if is_dir {
                    0o755
                } else {
                    self.permissions
                },
                ..self
            }),
    {
        let mut e = self;
        e.is_directory = is_dir;
        if is_dir {
            e.file_type = FileType::Directory;
            e.permissions = 0o755;
        }
        e
    }

    /// Sets the permissions to the low twelve bits of `perm`.
    pub fn with_permissions(self, perm: u32) -> (e: Self)
        ensures
            e == (ZipEntry { permissions: perm & 0o7777, ..self }),
    {
        let mut e = self;
        e.permissions = perm & 0o7777;
        e
    }

    /// Sets the modification time, in seconds since 1970-01-01 00:00:00 UTC.
    pub fn with_timestamp(self, ts: i64) -> (e: Self)
        ensures
            e == (ZipEntry { timestamp: ts, ..self }),
    {
        let mut e = self;
        e.timestamp = ts;
        e
    }

    /// Sets the size of the file.
    pub fn with_size(self, size: u64) -> (e: Self)
        ensures
            e == (ZipEntry { uncompressed_size: size, ..self }),
    {
        let mut e = self;
        e.uncompressed_size = size;
        e
    }
}

} // verus!
