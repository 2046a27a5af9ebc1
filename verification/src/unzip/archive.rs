//! An archive in memory: its listing, and the content of its entries.

use vstd::prelude::*;
use vstd::string::StringExecFns;
use crate::error::{FileType, ZipEntry, ZipError};
use crate::miniz::crc32::{crc32, crc32_spec};
use crate::miniz::inflate::{decompress_raw, inflate_raw, one_shot};
use crate::zip::dostime::{dos_timestamp, dos_to_system_time};
use crate::zip::format::{le16, le32, read_le16, read_le32};
use crate::zip::numerals::{decimal, decimal_string, hex8, hex8_string};
use crate::zip::reader::{
    archive_index, eocd_position, fields_fit, is_corrupt_archive, models, EntryModel, ZipEntryInfo,
    ZipReader,
};

verus! {

/// The Unix permissions that an entry records: the low nine bits of the
/// mode in the high half of its external attributes, if a Unix system made
/// the entry and recorded a mode; else 0700 for a directory and 0600 for a
/// file.
pub open spec fn permissions_of(external_attr: int, version_made_by: int, is_dir: bool) -> int {
    let unix_attr = external_attr / 65536;
    if version_made_by / 256 != 3 || unix_attr == 0 {
        if is_dir {
            0o700
        } else {
            0o600
        }
    } else {
        unix_attr % 512
    }
}

/// The Unix permissions that an entry records.
pub fn extract_permissions(external_attr: u32, version_made_by: u16, is_dir: bool) -> (p: u32)
    ensures
        p == permissions_of(external_attr as int, version_made_by as int, is_dir),
{
    let unix_attr: u32 = external_attr / 65536;
    let version_by: u16 = version_made_by / 256;
    if version_by != 3 || unix_attr == 0 {
        if is_dir {
            0o700
        } else {
            0o600
        }
    } else {
        unix_attr % 512
    }
}

/// The mode in the high half of the external attributes has the file type
/// of a symbolic link.
pub open spec fn is_symlink_attr(external_attr: int) -> bool {
    ((external_attr / 65536) / 4096) % 16 == 10
}

/// Whether the external attributes are those of a symbolic link.
pub fn is_symlink(external_attr: u32) -> (b: bool)
    ensures
        b == is_symlink_attr(external_attr as int),
{
    ((external_attr / 65536) / 4096) % 16 == 10
}

/// The kind of file that an entry of the central directory stands for.
pub open spec fn kind_of(m: EntryModel) -> FileType {
    if m.is_dir {
        FileType::Directory
    } else if is_symlink_attr(m.external_attr) {
        FileType::Symlink
    } else {
        FileType::File
    }
}

/// `e` lists the entry `m` of the central directory.
pub open spec fn lists(e: ZipEntry, m: EntryModel) -> bool {
    &&& e.filename@ == m.name
    &&& e.compressed_size == m.compressed_size
    &&& e.uncompressed_size == m.uncompressed_size
    &&& e.crc32 == m.crc32
    &&& e.offset == m.local_header_offset
    &&& e.is_directory == m.is_dir
    &&& e.timestamp == dos_timestamp(m.mtime_dos as u16, m.mdate_dos as u16)
    &&& e.permissions == permissions_of(m.external_attr, m.version_made_by, m.is_dir)
    &&& e.file_type == kind_of(m)
    &&& e.is_symlink == (!m.is_dir && is_symlink_attr(m.external_attr))
}

/// `listing` lists the entries `entries` one by one.
pub open spec fn lists_all(listing: Seq<ZipEntry>, entries: Seq<EntryModel>) -> bool {
    &&& listing.len() == entries.len()
    &&& forall|i: int| 0 <= i < listing.len() ==> lists(#[trigger] listing[i], entries[i])
}

/// The error is that of a corrupt entry in this archive for this reason.
pub open spec fn is_corrupt_entry(
    e: ZipError,
    name: Seq<char>,
    archive: Seq<char>,
    reason: Seq<char>,
) -> bool {
    e matches ZipError::CorruptEntry { name: n, archive: a, reason: r } && n@ == name && a@
        == archive && r@ == reason
}

/// The error of a corrupt entry.
fn corrupt_entry(name: &str, archive: &str, reason: &str) -> (e: ZipError)
    ensures
        is_corrupt_entry(e, name@, archive@, reason@),
{
    ZipError::CorruptEntry {
        name: String::from_str(name),
        archive: String::from_str(archive),
        reason: String::from_str(reason),
    }
}

/// Where the data of the entry whose local header stands at `at` begins:
/// behind the header, the name and the extra field.
pub open spec fn data_start(data: Seq<u8>, at: int) -> int {
    at + 30 + le16(data, at + 26) + le16(data, at + 28)
}

/// The data of an entry as the archive holds it, or why it cannot be read:
/// a size or the offset of the entry takes more than 32 bits; the archive
/// ends within the local header; the header's signature is
/// wrong, with the signature found; or the archive ends within the data.
pub open spec fn entry_payload(data: Seq<u8>, m: EntryModel) -> Result<Seq<u8>, Seq<char>> {
    let at = m.local_header_offset;
    if !fields_fit(m) {
        Err("entry sizes out of range"@)
    } else if at + 30 > data.len() {
        Err("Failed to read local header"@)
    } else if le32(data, at) != 0x04034b50 {
        Err("invalid local header signature: 0x"@ + hex8(le32(data, at)))
    } else if data_start(data, at) + m.compressed_size > data.len() {
        Err("Failed to read compressed data"@)
    } else {
        Ok(data.subrange(data_start(data, at), data_start(data, at) + m.compressed_size))
    }
}

/// What the data of an entry decodes to: itself for method 0, what it
/// inflates to for method 8; no other method is supported.
pub open spec fn decoded_payload(payload: Seq<u8>, method: int) -> Result<Seq<u8>, Seq<char>> {
    if method == 8 {
        match one_shot(inflate_raw(payload)) {
            Ok(content) => Ok(content),
            Err(e) => Err("decompression failed: "@ + e.spec_message()),
        }
    } else if method == 0 {
        Ok(payload)
    } else {
        Err("unsupported compression method: "@ + decimal(method))
    }
}

/// The content of an entry, or why it cannot be had: its data cannot be
/// read or decoded, or what it decodes to has not the length or not the
/// CRC-32 that the central directory records.
pub open spec fn entry_content(data: Seq<u8>, m: EntryModel) -> Result<Seq<u8>, Seq<char>> {
    match entry_payload(data, m) {
        Err(reason) => Err(reason),
        Ok(payload) => match decoded_payload(payload, m.compression_method) {
            Err(reason) => Err(reason),
            Ok(content) => if content.len() != m.uncompressed_size {
                Err("size mismatch"@)
            } else if crc32_spec(0, content) != m.crc32 {
                Err(
                    "CRC32 mismatch: expected 0x"@ + hex8(m.crc32) + ", got 0x"@ + hex8(
                        crc32_spec(0, content) as int,
                    ),
                )
            } else {
                Ok(content)
            },
        },
    }
}

/// The content of an extracted entry.
#[derive(Debug, Clone, PartialEq, Eq)]
pub struct ExtractedFile {
    /// The bytes of the file; for a symbolic link the bytes of its target.
    pub data: Vec<u8>,
    /// Whether the entry is a symbolic link.
    pub is_symlink: bool,
}

/// Reads the content of the entry `entry` of the archive `data`.
pub fn extract_entry(data: &[u8], entry: &ZipEntryInfo, archive: &str) -> (r: Result<
    ExtractedFile,
    ZipError,
>)
    ensures
        match entry_content(data@, entry@) {
            Ok(content) => r.is_ok() && r.unwrap().data@ == content && r.unwrap().is_symlink
                == is_symlink_attr(entry@.external_attr),
            Err(reason) => r.is_err() && is_corrupt_entry(
                r.unwrap_err(),
                entry@.name,
                archive@,
                reason,
            ),
        },
{
    let name = entry.name.as_str();
    if entry.uncompressed_size > 0xFFFF_FFFF || entry.compressed_size > 0xFFFF_FFFF
        || entry.local_header_offset > 0xFFFF_FFFF {
        return Err(corrupt_entry(name, archive, "entry sizes out of range"));
    }
    let size: u64 = data.len() as u64;
    if entry.local_header_offset + 30 > size {
        return Err(corrupt_entry(name, archive, "Failed to read local header"));
    }
    let at: usize = entry.local_header_offset as usize;
    let signature: u32 = read_le32(data, at);
    if signature != 0x04034b50 {
        let reason = String::from_str("invalid local header signature: 0x").concat(
            hex8_string(signature).as_str(),
        );
        return Err(corrupt_entry(name, archive, reason.as_str()));
    }
    let name_len: u64 = read_le16(data, at + 26) as u64;
    let extra_len: u64 = read_le16(data, at + 28) as u64;
    let start: u64 = entry.local_header_offset + 30 + name_len + extra_len;
    if start + entry.compressed_size > size {
        return Err(corrupt_entry(name, archive, "Failed to read compressed data"));
    }
    let payload = vstd::slice::slice_subrange(
        data,
        start as usize,
        (start + entry.compressed_size) as usize,
    );
    let content: Vec<u8> = if entry.compression_method == 8 {
        match decompress_raw(payload) {
            Ok(content) => content,
            Err(e) => {
                return Err(
                    ZipError::CorruptEntry {
                        name: String::from_str(name),
                        archive: String::from_str(archive),
                        reason: String::from_str("decompression failed: ").concat(e.message()),
                    },
                );
            },
        }
    } else if entry.compression_method == 0 {
        vstd::slice::slice_to_vec(payload)
    } else {
        let reason = String::from_str("unsupported compression method: ").concat(
            decimal_string(entry.compression_method as u64).as_str(),
        );
        return Err(corrupt_entry(name, archive, reason.as_str()));
    };
    if content.len() as u64 != entry.uncompressed_size {
        return Err(corrupt_entry(name, archive, "size mismatch"));
    }
    let checksum: u32 = crc32(0, content.as_slice());
    if checksum != entry.crc32 {
        let reason = String::from_str("CRC32 mismatch: expected 0x").concat(
            hex8_string(entry.crc32).as_str(),
        ).concat(", got 0x").concat(hex8_string(checksum).as_str());
        return Err(corrupt_entry(name, archive, reason.as_str()));
    }
    Ok(ExtractedFile { data: content, is_symlink: is_symlink(entry.external_attr) })
}

/// An archive in memory.
#[derive(Debug)]
pub struct ZipArchive {
    path: String,
    data: Vec<u8>,
}

impl ZipArchive {
    /// The name of the archive.
    pub closed spec fn path(&self) -> Seq<char> {
        self.path@
    }

    /// The bytes of the archive.
    pub closed spec fn data(&self) -> Seq<u8> {
        self.data@
    }

    /// Takes the bytes of an archive, which `path` names. The bytes are not
    /// looked at before they are listed or extracted.
    pub fn open(path: &str, data: Vec<u8>) -> (r: Result<Self, ZipError>)
        ensures
            r.is_ok(),
            r.unwrap().path() == path@,
            r.unwrap().data() == data@,
    {
        Ok(Self { path: String::from_str(path), data })
    }

    /// Lists the entries of the archive `data` in the order of its central
    /// directory.
    pub fn list(path: &str, data: &[u8]) -> (r: Result<Vec<ZipEntry>, ZipError>)
        ensures
            match archive_index(data@, eocd_position(data@)) {
                Ok((entries, offset)) => r.is_ok() && lists_all(r.unwrap()@, entries),
                Err(reason) => r.is_err() && is_corrupt_archive(r.unwrap_err(), path@, reason),
            },
    {
        let reader = match ZipReader::open(path, data) {
            Ok(reader) => reader,
            Err(e) => {
                return Err(e);
            },
        };
        let found = reader.entries();
        let mut listing: Vec<ZipEntry> = Vec::new();
        let mut i: usize = 0;
        while i < found.len()
            invariant
                i <= found@.len(),
                listing@.len() == i,
                forall|j: int|
                    0 <= j < found@.len() ==> fields_fit(#[trigger] models(found@)[j]),
                forall|j: int| 0 <= j < i ==> lists(#[trigger] listing@[j], models(found@)[j]),
            decreases found@.len() - i,
        {
            let info = &found[i];
            proof {
                assert(fields_fit(models(found@)[i as int]));
            }
            let link: bool = !info.is_dir && is_symlink(info.external_attr);
            listing.push(
                ZipEntry {
                    filename: info.name.clone(),
                    compressed_size: info.compressed_size,
                    uncompressed_size: info.uncompressed_size,
                    timestamp: dos_to_system_time(info.mtime_dos, info.mdate_dos),
                    permissions: extract_permissions(
                        info.external_attr,
                        info.version_made_by,
                        info.is_dir,
                    ),
                    crc32: info.crc32,
                    offset: info.local_header_offset,
                    is_directory: info.is_dir,
                    file_type: if info.is_dir {
                        FileType::Directory
                    } else if link {
                        FileType::Symlink
                    } else {
                        FileType::File
                    },
                    is_symlink: link,
                },
            );
            i = i + 1;
        }
        Ok(listing)
    }

    /// Lists the entries of the archive.
    pub fn entries(&self) -> (r: Result<Vec<ZipEntry>, ZipError>)
        ensures
            match archive_index(self.data(), eocd_position(self.data())) {
                Ok((entries, offset)) => r.is_ok() && lists_all(r.unwrap()@, entries),
                Err(reason) => r.is_err() && is_corrupt_archive(
                    r.unwrap_err(),
                    self.path(),
                    reason,
                ),
            },
    {
        Self::list(self.path.as_str(), self.data.as_slice())
    }

    /// The index of the first entry with the given name, if there is one.
    #[verifier::loop_isolation(false)]
    pub fn locate_file(&self, name: &str) -> (r: Result<Option<u32>, ZipError>)
        ensures
            match archive_index(self.data(), eocd_position(self.data())) {
                Ok((entries, offset)) => r.is_ok() && match r.unwrap() {
                    Some(i) => i < entries.len() && entries[i as int].name == name@ && forall|
                        j: int,
                    |
                        0 <= j < i ==> (#[trigger] entries[j]).name != name@,
                    None => forall|j: int|
                        0 <= j < entries.len() ==> (#[trigger] entries[j]).name != name@,
                },
                Err(reason) => r.is_err() && is_corrupt_archive(
                    r.unwrap_err(),
                    self.path(),
                    reason,
                ),
            },
    {
        let reader = match ZipReader::open(self.path.as_str(), self.data.as_slice()) {
            Ok(reader) => reader,
            Err(e) => {
                return Err(e);
            },
        };
        let found = reader.entries();
        let wanted: String = String::from_str(name);
        let mut i: usize = 0;
        while i < found.len()
            invariant
                i <= found@.len(),
                found@.len() <= 0xFFFF,
                wanted@ == name@,
                forall|j: int| 0 <= j < i ==> (#[trigger] models(found@)[j]).name != name@,
            decreases found@.len() - i,
        {
            if found[i].name == wanted {
                proof {
                    assert(models(found@)[i as int].name == name@);
                }
                return Ok(Some(i as u32));
            }
            proof {
                assert(models(found@)[i as int].name != name@);
            }
            i = i + 1;
        }
        Ok(None)
    }

    /// The content of the entry with the given index in the central
    /// directory: its data read as the local header places it, decoded by
    /// its method, and checked against the length and the CRC-32 that the
    /// central directory records.
    pub fn extract_to(&self, file_index: u32) -> (r: Result<ExtractedFile, ZipError>)
        ensures
            match archive_index(self.data(), eocd_position(self.data())) {
                Ok((entries, offset)) => if file_index >= entries.len() {
                    r.is_err() && is_corrupt_entry(
                        r.unwrap_err(),
                        "index "@ + decimal(file_index as int),
                        self.path(),
                        "file index out of bounds"@,
                    )
                } else {
                    match entry_content(self.data(), entries[file_index as int]) {
                        Ok(content) => r.is_ok() && r.unwrap().data@ == content
                            && r.unwrap().is_symlink == is_symlink_attr(
                            entries[file_index as int].external_attr,
                        ),
                        Err(reason) => r.is_err() && is_corrupt_entry(
                            r.unwrap_err(),
                            entries[file_index as int].name,
                            self.path(),
                            reason,
                        ),
                    }
                },
                Err(reason) => r.is_err() && is_corrupt_archive(
                    r.unwrap_err(),
                    self.path(),
                    reason,
                ),
            },
    {
        let reader = match ZipReader::open(self.path.as_str(), self.data.as_slice()) {
            Ok(reader) => reader,
            Err(e) => {
                return Err(e);
            },
        };
        let found = reader.entries();
        if file_index as usize >= found.len() {
            let name = String::from_str("index ").concat(
                decimal_string(file_index as u64).as_str(),
            );
            return Err(corrupt_entry(name.as_str(), self.path.as_str(), "file index out of bounds"));
        }
        extract_entry(self.data.as_slice(), &found[file_index as usize], self.path.as_str())
    }
}

} // verus!
