//! Writing an archive into memory: each entry at once as local header, name
//! and data; central directory and end record when the archive is
//! finalized.

use vstd::prelude::*;
use vstd::string::StringExecFns;
use vstd::utf8::encode_utf8;
use crate::error::{CompressionLevel, ZipError};
use crate::miniz::crc32::{crc32, crc32_spec};
use crate::miniz::deflate::{compress_raw, raw_stream};
use crate::zip::dostime::{dos_words, system_time_to_dos};
use crate::zip::format::{le16_bytes, le32_bytes, push_le16, push_le32};
use crate::zip::reader::{
    archive_index, eocd_position, fields_fit, models, EntryModel, ZipEntryInfo, ZipReader,
};

verus! {

/// The bytes of a name in an archive: its UTF-8 encoding.
pub open spec fn name_bytes(name: Seq<char>) -> Seq<u8> {
    encode_utf8(name)
}

/// The local file header of an entry, with its name.
#[verifier::opaque]
pub open spec fn local_header_bytes(e: EntryModel) -> Seq<u8> {
    le32_bytes(0x04034b50) + le16_bytes(20) + le16_bytes(0) + le16_bytes(e.compression_method)
        + le16_bytes(e.mtime_dos) + le16_bytes(e.mdate_dos) + le32_bytes(e.crc32) + le32_bytes(
        e.compressed_size,
    ) + le32_bytes(e.uncompressed_size) + le16_bytes(name_bytes(e.name).len() as int) + le16_bytes(
        0,
    ) + name_bytes(e.name)
}

/// The central directory header of an entry, with its name.
#[verifier::opaque]
pub open spec fn central_header_bytes(e: EntryModel) -> Seq<u8> {
    le32_bytes(0x02014b50) + le16_bytes(e.version_made_by) + le16_bytes(20) + le16_bytes(0)
        + le16_bytes(e.compression_method) + le16_bytes(e.mtime_dos) + le16_bytes(e.mdate_dos)
        + le32_bytes(e.crc32) + le32_bytes(e.compressed_size) + le32_bytes(e.uncompressed_size)
        + le16_bytes(name_bytes(e.name).len() as int) + le16_bytes(0) + le16_bytes(0) + le16_bytes(
        0,
    ) + le16_bytes(0) + le32_bytes(e.external_attr) + le32_bytes(e.local_header_offset)
        + name_bytes(e.name)
}

/// The central directory: the headers of the entries in their order.
pub open spec fn directory_bytes(entries: Seq<EntryModel>) -> Seq<u8>
    decreases entries.len(),
{
    if entries.len() == 0 {
        Seq::empty()
    } else {
        directory_bytes(entries.drop_last()) + central_header_bytes(entries.last())
    }
}

/// The end of central directory record of an archive on one disk, without
/// comment.
#[verifier::opaque]
pub open spec fn eocd_bytes(count: int, size: int, offset: int) -> Seq<u8> {
    le32_bytes(0x06054b50) + le16_bytes(0) + le16_bytes(0) + le16_bytes(count) + le16_bytes(count)
        + le32_bytes(size) + le32_bytes(offset) + le16_bytes(0)
}

/// The lengths of the headers and of the end record.
pub proof fn lemma_header_lengths(e: EntryModel)
    ensures
        local_header_bytes(e).len() == 30 + name_bytes(e.name).len(),
        central_header_bytes(e).len() == 46 + name_bytes(e.name).len(),
        forall|count: int, size: int, offset: int|
            (#[trigger] eocd_bytes(count, size, offset)).len() == 22,
{
    reveal(local_header_bytes);
    reveal(central_header_bytes);
    reveal(eocd_bytes);
}

/// The archive without entries.
pub open spec fn empty_archive_bytes() -> Seq<u8> {
    seq![
        0x50u8, 0x4bu8, 0x05u8, 0x06u8, 0u8, 0u8, 0u8, 0u8, 0u8, 0u8, 0u8, 0u8, 0u8, 0u8, 0u8, 0u8,
        0u8, 0u8, 0u8, 0u8, 0u8, 0u8,
    ]
}

/// An archive without entries is its end record and nothing else: 22
/// bytes.
pub proof fn lemma_empty_archive()
    ensures
        directory_bytes(Seq::empty()) + eocd_bytes(0, 0, 0) =~= empty_archive_bytes(),
        empty_archive_bytes().len() == 22,
{
    reveal(eocd_bytes);
}

/// The external attributes that record a Unix mode: its permission bits in
/// the high half, the DOS directory attribute for a directory.
pub open spec fn external_attr_of(mode: u32, is_dir: bool) -> int {
    (mode % 512) * 65536 + (if is_dir { 16int } else { 0int })
}

/// The external attributes that record a Unix mode.
pub fn compute_external_attr(mode: u32, is_dir: bool) -> (attr: u32)
    ensures
        attr == external_attr_of(mode, is_dir),
{
    (mode % 512) * 65536 + (if is_dir { 16 } else { 0 })
}

/// The name begins with a slash.
pub open spec fn leading_slash(name: Seq<char>) -> bool {
    name_bytes(name).len() > 0 && name_bytes(name)[0] == 0x2F
}

/// The name holds a backslash.
pub open spec fn has_backslash(name: Seq<char>) -> bool {
    exists|i: int| 0 <= i < name_bytes(name).len() && #[trigger] name_bytes(name)[i] == 0x5C
}

/// The error is a generic one whose message is `prefix`, the name between
/// quotes.
pub open spec fn is_name_error(e: ZipError, prefix: Seq<char>, name: Seq<char>) -> bool {
    e.is_generic(prefix + name + "'"@)
}

/// An entry of the archive fits the layout: its sizes and its offset in 32
/// bits, the length of its name in 16.
pub open spec fn entry_fits(e: EntryModel) -> bool {
    &&& 0 <= e.uncompressed_size <= 0xFFFF_FFFF
    &&& 0 <= e.compressed_size <= 0xFFFF_FFFF
    &&& 0 <= e.local_header_offset <= 0xFFFF_FFFF
    &&& name_bytes(e.name).len() <= 0xFFFF
}

/// The bytes `b` and the entries `e` fit the layout of an archive: at most
/// 65535 entries, each fitting; and bytes and central directory that 32
/// bits count.
pub open spec fn archive_fits(b: Seq<u8>, e: Seq<EntryModel>) -> bool {
    &&& e.len() <= 0xFFFF
    &&& b.len() <= 0xFFFF_FFFF
    &&& directory_bytes(e).len() <= 0xFFFF_FFFF
    &&& forall|i: int| 0 <= i < e.len() ==> entry_fits(#[trigger] e[i])
}

/// The name of every entry takes at most 65535 bytes.
pub open spec fn names_fit(entries: Seq<EntryModel>) -> bool {
    forall|i: int| 0 <= i < entries.len() ==> name_bytes((#[trigger] entries[i]).name).len() <= 0xFFFF
}

/// The data of a file as the archive holds it: at level 0 the file as it
/// is; at the other levels the raw DEFLATE stream that the encoder makes of
/// it.
pub open spec fn payload_of(data: Seq<u8>, level: int) -> Seq<u8> {
    if level == 0 {
        data
    } else {
        raw_stream(data, level)
    }
}

/// The most bytes that the data of a file of `size` bytes takes in an
/// archive.
pub open spec fn payload_bound(size: int) -> int {
    size + 5 * (size / 65535 + 1)
}

/// What an archive records of a new entry.
pub open spec fn new_entry(
    name: Seq<char>,
    size: int,
    payload_len: int,
    crc: int,
    offset: int,
    is_dir: bool,
    method: int,
    mode: u32,
    mtime: Option<u64>,
) -> EntryModel {
    EntryModel {
        name,
        uncompressed_size: size,
        compressed_size: payload_len,
        crc32: crc,
        local_header_offset: offset,
        is_dir,
        compression_method: method,
        external_attr: external_attr_of(mode, is_dir),
        version_made_by: 0x0317,
        mtime_dos: dos_words(mtime).0 as int,
        mdate_dos: dos_words(mtime).1 as int,
    }
}

/// The name of a directory entry: the name given, with a slash at its end.
pub open spec fn dir_name(name: Seq<char>) -> Seq<char> {
    if name_bytes(name).len() > 0 && name_bytes(name).last() == 0x2F {
        name
    } else {
        name + "/"@
    }
}

/// An archive that is being written into memory.
#[derive(Debug)]
pub struct ZipWriter {
    path: String,
    buffer: Vec<u8>,
    entries: Vec<ZipEntryInfo>,
    finalized: bool,
    compression_level: CompressionLevel,
}

/// Appends the local file header of `entry`, with its name.
fn write_local_file_header(out: &mut Vec<u8>, entry: &ZipEntryInfo)
    requires
        entry_fits(entry@),
    ensures
        final(out)@ == old(out)@ + local_header_bytes(entry@),
{
    let ghost before = out@;
    let name = entry.name.as_str().as_bytes();
    push_le32(out, 0x04034b50);
    push_le16(out, 20);
    push_le16(out, 0);
    push_le16(out, entry.compression_method);
    push_le16(out, entry.mtime_dos);
    push_le16(out, entry.mdate_dos);
    push_le32(out, entry.crc32);
    push_le32(out, entry.compressed_size as u32);
    push_le32(out, entry.uncompressed_size as u32);
    push_le16(out, name.len() as u16);
    push_le16(out, 0);
    out.extend_from_slice(name);
    proof {
        reveal(local_header_bytes);
    }
    assert(out@ =~= before + local_header_bytes(entry@));
}

/// Appends the central directory header of `entry`, with its name.
fn write_central_header(out: &mut Vec<u8>, entry: &ZipEntryInfo)
    requires
        entry_fits(entry@),
    ensures
        final(out)@ == old(out)@ + central_header_bytes(entry@),
{
    let ghost before = out@;
    let name = entry.name.as_str().as_bytes();
    push_le32(out, 0x02014b50);
    push_le16(out, entry.version_made_by);
    push_le16(out, 20);
    push_le16(out, 0);
    push_le16(out, entry.compression_method);
    push_le16(out, entry.mtime_dos);
    push_le16(out, entry.mdate_dos);
    push_le32(out, entry.crc32);
    push_le32(out, entry.compressed_size as u32);
    push_le32(out, entry.uncompressed_size as u32);
    push_le16(out, name.len() as u16);
    push_le16(out, 0);
    push_le16(out, 0);
    push_le16(out, 0);
    push_le16(out, 0);
    push_le32(out, entry.external_attr);
    push_le32(out, entry.local_header_offset as u32);
    out.extend_from_slice(name);
    proof {
        reveal(central_header_bytes);
    }
    assert(out@ =~= before + central_header_bytes(entry@));
}

/// The central directory of `entries`.
fn write_central_directory(entries: &Vec<ZipEntryInfo>) -> (out: Vec<u8>)
    requires
        forall|i: int| 0 <= i < entries@.len() ==> entry_fits(#[trigger] entries@[i]@),
    ensures
        out@ == directory_bytes(models(entries@)),
{
    let mut out: Vec<u8> = Vec::new();
    let mut i: usize = 0;
    assert(models(entries@).take(0) =~= Seq::<EntryModel>::empty());
    while i < entries.len()
        invariant
            i <= entries@.len(),
            forall|j: int| 0 <= j < entries@.len() ==> entry_fits(#[trigger] entries@[j]@),
            out@ == directory_bytes(models(entries@).take(i as int)),
        decreases entries@.len() - i,
    {
        proof {
            let all = models(entries@);
            assert(all.take(i + 1).drop_last() =~= all.take(i as int));
            assert(all.take(i + 1).last() == entries@[i as int]@);
        }
        write_central_header(&mut out, &entries[i]);
        i = i + 1;
    }
    assert(models(entries@).take(i as int) =~= models(entries@));
    out
}

/// Appends the end of central directory record.
fn write_end_of_central_directory(out: &mut Vec<u8>, count: u16, size: u32, offset: u32)
    ensures
        final(out)@ == old(out)@ + eocd_bytes(count as int, size as int, offset as int),
{
    let ghost before = out@;
    push_le32(out, 0x06054b50);
    push_le16(out, 0);
    push_le16(out, 0);
    push_le16(out, count);
    push_le16(out, count);
    push_le32(out, size);
    push_le32(out, offset);
    push_le16(out, 0);
    proof {
        reveal(eocd_bytes);
    }
    assert(out@ =~= before + eocd_bytes(count as int, size as int, offset as int));
}

/// The archive without entries: the 22 bytes of its end record.
pub fn empty_archive() -> (out: Vec<u8>)
    ensures
        out@ == empty_archive_bytes(),
{
    let mut out: Vec<u8> = Vec::new();
    write_end_of_central_directory(&mut out, 0, 0, 0);
    proof {
        lemma_empty_archive();
        assert(out@ =~= empty_archive_bytes());
    }
    out
}

impl ZipWriter {
    /// The name of the archive.
    pub closed spec fn path(&self) -> Seq<char> {
        self.path@
    }

    /// The bytes written so far.
    pub closed spec fn bytes(&self) -> Seq<u8> {
        self.buffer@
    }

    /// The entries added so far, with those that the archive had before.
    pub closed spec fn spec_entries(&self) -> Seq<ZipEntryInfo> {
        self.entries@
    }

    /// Whether the archive was finalized.
    pub closed spec fn finalized(&self) -> bool {
        self.finalized
    }

    /// The level at which files are compressed.
    pub closed spec fn level(&self) -> CompressionLevel {
        self.compression_level
    }

    /// The archive fits the layout: at most 65535 entries, each fitting, and
    /// until it is ended no more bytes than 32 bits count.
    pub closed spec fn wf(&self) -> bool {
        &&& self.entries@.len() <= 0xFFFF
        &&& self.finalized || self.buffer@.len() <= 0xFFFF_FFFF
        &&& forall|i: int| 0 <= i < self.entries@.len() ==> entry_fits(#[trigger] self.entries@[i]@)
    }

    /// What a well-formed archive guarantees of its bytes and entries.
    pub proof fn lemma_wf(&self)
        requires
            self.wf(),
        ensures
            self.spec_entries().len() <= 0xFFFF,
            !self.finalized() ==> self.bytes().len() <= 0xFFFF_FFFF,
            forall|i: int|
                0 <= i < self.spec_entries().len() ==> entry_fits(
                    #[trigger] models(self.spec_entries())[i],
                ),
    {
        assert forall|i: int| 0 <= i < self.spec_entries().len() implies entry_fits(
            #[trigger] models(self.spec_entries())[i],
        ) by {
            assert(entry_fits(self.entries@[i]@));
        }
    }

    /// Why `name` cannot be the name of an entry, if it cannot: it begins
    /// with a slash or holds a backslash.
    pub fn validate_archive_name(name: &str) -> (r: Result<(), ZipError>)
        ensures
            if leading_slash(name@) {
                r.is_err() && is_name_error(
                    r.unwrap_err(),
                    "Invalid filename: cannot start with '/': '"@,
                    name@,
                )
            } else if has_backslash(name@) {
                r.is_err() && is_name_error(
                    r.unwrap_err(),
                    "Invalid filename: cannot contain backslash: '"@,
                    name@,
                )
            } else {
                r.is_ok()
            },
    {
        let bytes = name.as_bytes();
        if bytes.len() > 0 && bytes[0] == 0x2F {
            return Err(
                ZipError::Generic(
                    String::from_str("Invalid filename: cannot start with '/': '").concat(
                        name,
                    ).concat("'"),
                ),
            );
        }
        let mut i: usize = 0;
        while i < bytes.len()
            invariant
                i <= bytes@.len(),
                bytes@ == name_bytes(name@),
                !leading_slash(name@),
                forall|j: int| 0 <= j < i ==> bytes@[j] != 0x5C,
            decreases bytes@.len() - i,
        {
            if bytes[i] == 0x5C {
                proof {
                    assert(name_bytes(name@)[i as int] == 0x5C);
                }
                return Err(
                    ZipError::Generic(
                        String::from_str("Invalid filename: cannot contain backslash: '").concat(
                            name,
                        ).concat("'"),
                    ),
                );
            }
            i = i + 1;
        }
        Ok(())
    }

    /// A new, empty archive.
    pub fn new(path: &str, compression_level: CompressionLevel) -> (r: Result<Self, ZipError>)
        ensures
            r.is_ok(),
            r.unwrap().wf(),
            r.unwrap().path() == path@,
            r.unwrap().bytes().len() == 0,
            r.unwrap().spec_entries().len() == 0,
            !r.unwrap().finalized(),
            r.unwrap().level() == compression_level,
    {
        Ok(
            Self {
                path: String::from_str(path),
                buffer: Vec::new(),
                entries: Vec::new(),
                finalized: false,
                compression_level,
            },
        )
    }

    /// An archive that continues `existing`: it takes over the entries of
    /// `existing` and its bytes up to the central directory, so that what is
    /// added overwrites the old central directory and end record. Fails,
    /// with the reason as the source of the error, when the index of
    /// `existing` cannot be read or the name of an entry takes more than
    /// 65535 bytes.
    #[verifier::loop_isolation(false)]
    pub fn new_with_append(path: &str, existing: &[u8], compression_level: CompressionLevel) -> (r:
        Result<Self, ZipError>)
        ensures
            match archive_index(existing@, eocd_position(existing@)) {
                Ok((entries, offset)) => if names_fit(entries) {
                    r.is_ok() && r.unwrap().wf() && r.unwrap().path() == path@
                        && r.unwrap().bytes() == existing@.take(offset) && models(
                        r.unwrap().spec_entries(),
                    ) == entries && !r.unwrap().finalized() && r.unwrap().level()
                        == compression_level
                } else {
                    r.is_err() && is_append_error(
                        r.unwrap_err(),
                        path@,
                        "Archive name too long"@,
                    )
                },
                Err(reason) => r.is_err() && is_append_error(r.unwrap_err(), path@, reason),
            },
    {
        let reader = match ZipReader::open(path, existing) {
            Ok(reader) => reader,
            Err(e) => {
                let source = match e {
                    ZipError::CorruptArchive { archive, reason } => reason,
                    _ => String::new(),
                };
                return Err(ZipError::OpenAppendFailed { path: String::from_str(path), source });
            },
        };
        let offset: usize = reader.get_append_offset() as usize;
        let found = reader.entries();
        let mut entries: Vec<ZipEntryInfo> = Vec::new();
        let mut i: usize = 0;
        proof {
            assert(models(entries@) =~= models(found@).take(0));
        }
        while i < found.len()
            invariant
                i <= found@.len(),
                found@.len() <= 0xFFFF,
                entries@.len() == i,
                models(entries@) =~= models(found@).take(i as int),
                forall|j: int| 0 <= j < i ==> entry_fits(#[trigger] entries@[j]@),
            decreases found@.len() - i,
        {
            let entry = &found[i];
            if entry.name.as_str().as_bytes().len() > 0xFFFF {
                proof {
                    let all = models(found@);
                    assert(name_bytes(all[i as int].name).len() > 0xFFFF);
                }
                return Err(
                    ZipError::OpenAppendFailed {
                        path: String::from_str(path),
                        source: String::from_str("Archive name too long"),
                    },
                );
            }
            let ghost before = models(entries@);
            let ghost old_entries = entries@;
            entries.push(
                ZipEntryInfo {
                    name: entry.name.clone(),
                    uncompressed_size: entry.uncompressed_size % 0x1_0000_0000,
                    compressed_size: entry.compressed_size % 0x1_0000_0000,
                    crc32: entry.crc32,
                    local_header_offset: entry.local_header_offset % 0x1_0000_0000,
                    is_dir: entry.is_dir,
                    compression_method: entry.compression_method,
                    external_attr: entry.external_attr,
                    version_made_by: entry.version_made_by,
                    mtime_dos: entry.mtime_dos,
                    mdate_dos: entry.mdate_dos,
                },
            );
            proof {
                let all = models(found@);
                assert(fields_fit(all[i as int]));
                assert(entries@[i as int]@ == all[i as int]);
                assert(name_bytes(entry.name@).len() <= 0xFFFF);
                assert(entry_fits(entries@[i as int]@));
                assert forall|j: int| 0 <= j < i + 1 implies entry_fits(
                    #[trigger] entries@[j]@,
                ) by {
                    if j < i {
                        assert(entries@[j] == old_entries[j]);
                    }
                }
                assert(models(entries@) =~= before.push(all[i as int]));
                assert(all.take(i + 1) =~= all.take(i as int).push(all[i as int]));
            }
            i = i + 1;
        }
        let head = vstd::slice::slice_subrange(existing, 0, offset);
        proof {
            assert(models(found@).take(i as int) =~= models(found@));
            assert(head@ =~= existing@.take(offset as int));
            assert forall|j: int| 0 <= j < models(found@).len() implies name_bytes(
                (#[trigger] models(found@)[j]).name,
            ).len() <= 0xFFFF by {
                assert(entry_fits(entries@[j]@));
                assert(models(entries@)[j] == entries@[j]@);
            }
        }
        Ok(
            Self {
                path: String::from_str(path),
                buffer: vstd::slice::slice_to_vec(head),
                entries,
                finalized: false,
                compression_level,
            },
        )
    }

    /// Writes the local header of `entry`, its name and `payload`, and
    /// records the entry.
    fn push_entry(&mut self, entry: ZipEntryInfo, payload: &[u8])
        requires
            old(self).wf(),
            entry_fits(entry@),
            old(self).spec_entries().len() < 0xFFFF,
            old(self).bytes().len() + 30 + name_bytes(entry@.name).len() + payload@.len()
                <= 0xFFFF_FFFF,
        ensures
            final(self).wf(),
            final(self).bytes() == old(self).bytes() + local_header_bytes(entry@) + payload@,
            final(self).spec_entries() == old(self).spec_entries().push(entry),
            final(self).path() == old(self).path(),
            final(self).finalized() == old(self).finalized(),
            final(self).level() == old(self).level(),
    {
        proof {
            lemma_header_lengths(entry@);
        }
        write_local_file_header(&mut self.buffer, &entry);
        self.buffer.extend_from_slice(payload);
        self.entries.push(entry);
    }

    /// The number of the level at which files are compressed.
    fn level_number(&self) -> (n: i32)
        ensures
            n == self.level().number(),
            0 <= n <= 9,
    {
        self.compression_level.as_u8() as i32
    }

    /// Adds a file with the given name, content, modification time in
    /// seconds since 1970 and Unix mode. The content is stored as it is at
    /// level 0 and deflated at the other levels. On failure nothing is
    /// written.
    pub fn add_file(&mut self, name: &str, data: &[u8], mtime: Option<u64>, mode: u32) -> (r: Result<
        (),
        ZipError,
    >)
        requires
            old(self).wf(),
        ensures
            final(self).wf(),
            final(self).path() == old(self).path(),
            final(self).finalized() == old(self).finalized(),
            final(self).level() == old(self).level(),
            r.is_err() ==> final(self).bytes() == old(self).bytes() && final(self).spec_entries()
                == old(self).spec_entries(),
            if old(self).finalized() {
                r.is_err() && r.unwrap_err().is_generic("Archive already finalized"@)
            } else if leading_slash(name@) {
                r.is_err() && is_name_error(
                    r.unwrap_err(),
                    "Invalid filename: cannot start with '/': '"@,
                    name@,
                )
            } else if has_backslash(name@) {
                r.is_err() && is_name_error(
                    r.unwrap_err(),
                    "Invalid filename: cannot contain backslash: '"@,
                    name@,
                )
            } else if name_bytes(name@).len() > 0xFFFF {
                r.is_err() && r.unwrap_err().is_generic("Archive name too long"@)
            } else if old(self).spec_entries().len() >= 0xFFFF {
                r.is_err() && r.unwrap_err().is_generic("Too many files in archive"@)
            } else if old(self).bytes().len() + 30 + name_bytes(name@).len() + payload_bound(
                data@.len() as int,
            ) > 0xFFFF_FFFF {
                r.is_err() && r.unwrap_err().is_generic("Archive too large"@)
            } else {
                let level = old(self).level().number();
                let payload = payload_of(data@, level);
                let entry = new_entry(
                    name@,
                    data@.len() as int,
                    payload.len() as int,
                    crc32_spec(0, data@) as int,
                    old(self).bytes().len() as int,
                    false,
                    if level == 0 { 0 } else { 8 },
                    mode,
                    mtime,
                );
                &&& r.is_ok()
                &&& final(self).bytes() == old(self).bytes() + local_header_bytes(entry) + payload
                &&& models(final(self).spec_entries()) == models(old(self).spec_entries()).push(
                    entry,
                )
            },
    {
        if self.finalized {
            return Err(ZipError::Generic(String::from_str("Archive already finalized")));
        }
        match Self::validate_archive_name(name) {
            Ok(()) => {},
            Err(e) => {
                return Err(e);
            },
        }
        let name_len: usize = name.as_bytes().len();
        if name_len > 0xFFFF {
            return Err(ZipError::Generic(String::from_str("Archive name too long")));
        }
        if self.entries.len() >= 0xFFFF {
            return Err(ZipError::Generic(String::from_str("Too many files in archive")));
        }
        let size: u64 = data.len() as u64;
        if size > 0xFFFF_FFFF || self.buffer.len() as u64 + 30 + name_len as u64 + size + 5 * (size
            / 65535 + 1) > 0xFFFF_FFFF {
            return Err(ZipError::Generic(String::from_str("Archive too large")));
        }
        let level: i32 = self.level_number();
        let crc: u32 = crc32(0, data);
        let words = system_time_to_dos(mtime);
        let payload: Vec<u8> = if level == 0 {
            vstd::slice::slice_to_vec(data)
        } else {
            match compress_raw(data, level) {
                Ok(payload) => payload,
                Err(_) => {
                    return Err(ZipError::Generic(String::from_str("Compression failed")));
                },
            }
        };
        proof {
            lemma_payload_bound(data@, level as int);
        }
        let entry = ZipEntryInfo {
            name: String::from_str(name),
            uncompressed_size: size,
            compressed_size: payload.len() as u64,
            crc32: crc,
            local_header_offset: self.buffer.len() as u64,
            is_dir: false,
            compression_method: if level == 0 { 0 } else { 8 },
            external_attr: compute_external_attr(mode, false),
            version_made_by: 0x0317,
            mtime_dos: words.0,
            mdate_dos: words.1,
        };
        let ghost model = entry@;
        let ghost before = models(self.entries@);
        self.push_entry(entry, payload.as_slice());
        proof {
            assert(models(self.entries@) =~= before.push(model));
        }
        Ok(())
    }

    /// Adds a directory with the given name, modification time in seconds
    /// since 1970 and Unix mode. The name gets a slash at its end if it has
    /// none. On failure nothing is written.
    pub fn add_directory(&mut self, name: &str, mtime: Option<u64>, mode: u32) -> (r: Result<
        (),
        ZipError,
    >)
        requires
            old(self).wf(),
        ensures
            final(self).wf(),
            final(self).path() == old(self).path(),
            final(self).finalized() == old(self).finalized(),
            final(self).level() == old(self).level(),
            r.is_err() ==> final(self).bytes() == old(self).bytes() && final(self).spec_entries()
                == old(self).spec_entries(),
            if old(self).finalized() {
                r.is_err() && r.unwrap_err().is_generic("Archive already finalized"@)
            } else if leading_slash(name@) {
                r.is_err() && is_name_error(
                    r.unwrap_err(),
                    "Invalid filename: cannot start with '/': '"@,
                    name@,
                )
            } else if has_backslash(name@) {
                r.is_err() && is_name_error(
                    r.unwrap_err(),
                    "Invalid filename: cannot contain backslash: '"@,
                    name@,
                )
            } else if name_bytes(dir_name(name@)).len() > 0xFFFF {
                r.is_err() && r.unwrap_err().is_generic("Archive name too long"@)
            } else if old(self).spec_entries().len() >= 0xFFFF {
                r.is_err() && r.unwrap_err().is_generic("Too many files in archive"@)
            } else if old(self).bytes().len() + 30 + name_bytes(dir_name(name@)).len()
                > 0xFFFF_FFFF {
                r.is_err() && r.unwrap_err().is_generic("Archive too large"@)
            } else {
                let entry = new_entry(
                    dir_name(name@),
                    0,
                    0,
                    0,
                    old(self).bytes().len() as int,
                    true,
                    0,
                    mode,
                    mtime,
                );
                &&& r.is_ok()
                &&& final(self).bytes() == old(self).bytes() + local_header_bytes(entry)
                &&& models(final(self).spec_entries()) == models(old(self).spec_entries()).push(
                    entry,
                )
            },
    {
        if self.finalized {
            return Err(ZipError::Generic(String::from_str("Archive already finalized")));
        }
        match Self::validate_archive_name(name) {
            Ok(()) => {},
            Err(e) => {
                return Err(e);
            },
        }
        let bytes = name.as_bytes();
        let full: String = if bytes.len() > 0 && bytes[bytes.len() - 1] == 0x2F {
            String::from_str(name)
        } else {
            String::from_str(name).concat("/")
        };
        let name_len: usize = full.as_str().as_bytes().len();
        if name_len > 0xFFFF {
            return Err(ZipError::Generic(String::from_str("Archive name too long")));
        }
        if self.entries.len() >= 0xFFFF {
            return Err(ZipError::Generic(String::from_str("Too many files in archive")));
        }
        if self.buffer.len() as u64 + 30 + name_len as u64 > 0xFFFF_FFFF {
            return Err(ZipError::Generic(String::from_str("Archive too large")));
        }
        let words = system_time_to_dos(mtime);
        let entry = ZipEntryInfo {
            name: full,
            uncompressed_size: 0,
            compressed_size: 0,
            crc32: 0,
            local_header_offset: self.buffer.len() as u64,
            is_dir: true,
            compression_method: 0,
            external_attr: compute_external_attr(mode, true),
            version_made_by: 0x0317,
            mtime_dos: words.0,
            mdate_dos: words.1,
        };
        let ghost model = entry@;
        let ghost before = models(self.entries@);
        let nothing: Vec<u8> = Vec::new();
        self.push_entry(entry, nothing.as_slice());
        proof {
            assert(models(self.entries@) =~= before.push(model));
            assert(self.buffer@ =~= old(self).buffer@ + local_header_bytes(model));
        }
        Ok(())
    }

    /// Ends the archive: writes the central directory and the end of
    /// central directory record. A second call does nothing. Fails, with
    /// nothing written, when the central directory takes more bytes than 32
    /// bits count.
    pub fn finalize(&mut self) -> (r: Result<(), ZipError>)
        requires
            old(self).wf(),
        ensures
            final(self).wf(),
            final(self).path() == old(self).path(),
            final(self).level() == old(self).level(),
            final(self).spec_entries() == old(self).spec_entries(),
            if old(self).finalized() {
                r.is_ok() && final(self).bytes() == old(self).bytes() && final(self).finalized()
            } else if directory_bytes(models(old(self).spec_entries())).len() > 0xFFFF_FFFF {
                r.is_err()
                    && r.unwrap_err().is_generic("Archive too large"@)
                    && final(self).bytes() == old(self).bytes()
                    && !final(self).finalized()
            } else {
                r.is_ok() && final(self).finalized() && final(self).bytes() == old(self).bytes()
                    + directory_bytes(models(old(self).spec_entries())) + eocd_bytes(
                    old(self).spec_entries().len() as int,
                    directory_bytes(models(old(self).spec_entries())).len() as int,
                    old(self).bytes().len() as int,
                )
            },
    {
        if self.finalized {
            return Ok(());
        }
        let directory = write_central_directory(&self.entries);
        if directory.len() > 0xFFFF_FFFF {
            return Err(ZipError::Generic(String::from_str("Archive too large")));
        }
        let offset: u32 = self.buffer.len() as u32;
        let count: u16 = self.entries.len() as u16;
        self.buffer.extend_from_slice(directory.as_slice());
        write_end_of_central_directory(&mut self.buffer, count, directory.len() as u32, offset);
        self.finalized = true;
        Ok(())
    }

    /// The bytes written so far.
    pub fn as_bytes(&self) -> (out: &[u8])
        ensures
            out@ == self.bytes(),
    {
        self.buffer.as_slice()
    }

    /// Hands out the bytes written.
    pub fn into_bytes(self) -> (out: Vec<u8>)
        ensures
            out@ == self.bytes(),
    {
        self.buffer
    }

    /// The entries added so far, with those that the archive had before.
    pub fn entries(&self) -> (out: &[ZipEntryInfo])
        ensures
            out@ == self.spec_entries(),
    {
        self.entries.as_slice()
    }

    /// Whether the archive was finalized.
    pub fn is_finalized(&self) -> (b: bool)
        ensures
            b == self.finalized(),
    {
        self.finalized
    }
}

/// Stored blocks take five bytes for each block of up to 65535 bytes.
pub proof fn lemma_stored_stream_len(data: Seq<u8>)
    ensures
        crate::miniz::deflate::stored_stream(data).len() <= payload_bound(data.len() as int),
    decreases data.len(),
{
    if data.len() > 65535 {
        lemma_stored_stream_len(data.skip(65535));
    }
}

/// The data of a file takes no more bytes than its bound.
pub proof fn lemma_payload_bound(data: Seq<u8>, level: int)
    ensures
        payload_of(data, level).len() <= payload_bound(data.len() as int),
{
    lemma_stored_stream_len(data);
}

/// The error is that of an archive that cannot be appended to, with this
/// name and source.
pub open spec fn is_append_error(e: ZipError, path: Seq<char>, source: Seq<char>) -> bool {
    e matches ZipError::OpenAppendFailed { path: p, source: s } && p@ == path && s@ == source
}

} // verus!
