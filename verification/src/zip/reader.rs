//! Reading the index of an archive: the end of central directory record and
//! the central directory.

use vstd::prelude::*;
use vstd::string::StringExecFns;
use vstd::utf8::{decode_utf8, valid_utf8};
use crate::error::ZipError;
use crate::zip::format::{le16, le32, read_le16, read_le32};
use crate::zip::numerals::{decimal, decimal_string, hex8, hex8_string};

verus! {

/// The text that a byte string reads as when each invalid UTF-8 sequence in
/// it is replaced by U+FFFD.
pub uninterp spec fn utf8_lossy(bytes: Seq<u8>) -> Seq<char>;

/// Reads bytes as text.
///
/// Calls `String::from_utf8_lossy` of the standard library. The contract
/// claims that the result is determined by the bytes, and that valid UTF-8
/// is read as the text it encodes.
#[verifier::external_body]
pub(crate) fn string_from_utf8_lossy(bytes: &[u8]) -> (s: String)
    ensures
        s@ == utf8_lossy(bytes@),
        valid_utf8(bytes@) ==> s@ == decode_utf8(bytes@),
{
    String::from_utf8_lossy(bytes).into_owned()
}

/// What the central directory records of one entry.
#[derive(Debug, Clone, PartialEq, Eq)]
pub struct ZipEntryInfo {
    /// The name of the entry.
    pub name: String,
    /// The number of bytes of the file.
    pub uncompressed_size: u64,
    /// The number of bytes that the entry's data takes in the archive.
    pub compressed_size: u64,
    /// The CRC-32 of the file.
    pub crc32: u32,
    /// Where the entry's local header stands in the archive.
    pub local_header_offset: u64,
    /// Whether the entry is a directory.
    pub is_dir: bool,
    /// 0 for stored, 8 for deflated.
    pub compression_method: u16,
    /// The external attributes: a Unix mode in the high half, DOS attributes
    /// in the low half.
    pub external_attr: u32,
    /// The system, in the high byte, and version that made the entry.
    pub version_made_by: u16,
    /// The modification time as a DOS time.
    pub mtime_dos: u16,
    /// The modification date as a DOS date.
    pub mdate_dos: u16,
}

/// An entry of the central directory as plain values.
pub struct EntryModel {
    pub name: Seq<char>,
    pub uncompressed_size: int,
    pub compressed_size: int,
    pub crc32: int,
    pub local_header_offset: int,
    pub is_dir: bool,
    pub compression_method: int,
    pub external_attr: int,
    pub version_made_by: int,
    pub mtime_dos: int,
    pub mdate_dos: int,
}

impl View for ZipEntryInfo {
    type V = EntryModel;

    open spec fn view(&self) -> EntryModel {
        EntryModel {
            name: self.name@,
            uncompressed_size: self.uncompressed_size as int,
            compressed_size: self.compressed_size as int,
            crc32: self.crc32 as int,
            local_header_offset: self.local_header_offset as int,
            is_dir: self.is_dir,
            compression_method: self.compression_method as int,
            external_attr: self.external_attr as int,
            version_made_by: self.version_made_by as int,
            mtime_dos: self.mtime_dos as int,
            mdate_dos: self.mdate_dos as int,
        }
    }
}

/// The entries as plain values.
pub open spec fn models(entries: Seq<ZipEntryInfo>) -> Seq<EntryModel> {
    Seq::new(entries.len(), |i: int| entries[i]@)
}

/// What the end of central directory record says of the central directory.
#[derive(Debug, Clone, Copy, PartialEq, Eq)]
pub struct EocdRecord {
    /// Where the central directory starts.
    pub central_dir_offset: u64,
    /// The number of bytes of the central directory.
    pub central_dir_size: u64,
    /// The number of entries.
    pub total_entries: u16,
}

/// The error is that of a corrupt archive with this name and reason.
pub open spec fn is_corrupt_archive(e: ZipError, archive: Seq<char>, reason: Seq<char>) -> bool {
    e matches ZipError::CorruptArchive { archive: a, reason: r } && a@ == archive && r@ == reason
}

/// The error of a corrupt archive.
fn corrupt(archive: &str, reason: &str) -> (e: ZipError)
    ensures
        is_corrupt_archive(e, archive@, reason@),
{
    ZipError::CorruptArchive {
        archive: String::from_str(archive),
        reason: String::from_str(reason),
    }
}

/// At `p` stands the signature of an end of central directory record, and
/// at least the 22 bytes of a record follow up to the end of the archive.
pub open spec fn is_eocd_candidate(data: Seq<u8>, p: int) -> bool {
    &&& 0 <= p
    &&& p + 22 <= data.len()
    &&& data[p] == 0x50
    &&& data[p + 1] == 0x4B
    &&& data[p + 2] == 0x05
    &&& data[p + 3] == 0x06
}

/// How far back from the end of an archive the record is looked for. A
/// record with the longest comment, 65535 bytes, starts 65557 bytes before
/// the end; the search goes back in chunks of 4096 bytes, each three bytes
/// over the one before, until the chunks cover that much: 17 chunks.
pub const EOCD_SEARCH_SPAN: usize = 69584;

/// Where the search for the record begins, seen from the front.
pub open spec fn eocd_search_start(len: int) -> int {
    if len > 69584 {
        len - 69584
    } else {
        0
    }
}

/// The end of central directory record of an archive stands at `p`: the
/// candidate closest to the end of the archive.
pub open spec fn is_last_eocd(data: Seq<u8>, p: int) -> bool {
    &&& is_eocd_candidate(data, p)
    &&& eocd_search_start(data.len() as int) <= p
    &&& forall|q: int| p < q ==> !is_eocd_candidate(data, q)
}

/// Finds the end of central directory record: scanning backward from the
/// end of the archive, the first position at which the signature stands.
pub fn find_eocd(data: &[u8]) -> (r: Option<usize>)
    ensures
        match r {
            Some(p) => is_last_eocd(data@, p as int),
            None => forall|q: int|
                eocd_search_start(data@.len() as int) <= q ==> !is_eocd_candidate(data@, q),
        },
{
    let len: usize = data.len();
    if len < 22 {
        return None;
    }
    let start: usize = if len > EOCD_SEARCH_SPAN { len - EOCD_SEARCH_SPAN } else { 0 };
    let mut p: usize = len - 22;
    loop
        invariant
            len == data@.len(),
            len >= 22,
            start == eocd_search_start(len as int),
            start <= p <= len - 22,
            forall|q: int| p < q ==> !is_eocd_candidate(data@, q),
        decreases p,
    {
        if data[p] == 0x50 && data[p + 1] == 0x4B && data[p + 2] == 0x05 && data[p + 3] == 0x06 {
            return Some(p);
        }
        if p == start {
            return None;
        }
        p = p - 1;
    }
}

/// A look-alike of the record inside the data of an entry does not matter:
/// if a record stands in the last 22 bytes of the archive, that one is
/// found.
pub proof fn lemma_final_eocd_wins(data: Seq<u8>)
    requires
        is_eocd_candidate(data, data.len() - 22),
    ensures
        is_last_eocd(data, data.len() - 22),
        forall|p: int| is_last_eocd(data, p) ==> p == data.len() - 22,
{
}

/// Why the record at `offset` is not acceptable, if it is not: the archive
/// ends within it; a wrong signature, with the signature found; an archive of several disks; a
/// central directory that starts beyond the archive, with its offset and
/// the length of the archive, or ends beyond it; a comment that ends beyond
/// the archive.
pub open spec fn eocd_fault(data: Seq<u8>, offset: int) -> Option<Seq<char>> {
    if offset + 22 > data.len() {
        Some("Failed to read end of central directory"@)
    } else if le32(data, offset) != 0x06054b50 {
        Some("Invalid EOCD signature: expected 0x06054b50, got 0x"@ + hex8(le32(data, offset)))
    } else if le16(data, offset + 4) != 0 || le16(data, offset + 6) != 0 {
        Some("Multi-disk ZIP archives not supported"@)
    } else if le32(data, offset + 16) >= data.len() {
        Some(
            "Invalid central directory offset: "@ + decimal(le32(data, offset + 16)) + " >= "@
                + decimal(data.len() as int),
        )
    } else if le32(data, offset + 16) + le32(data, offset + 12) > data.len() {
        Some("Central directory extends beyond file"@)
    } else if offset + 22 + le16(data, offset + 20) > data.len() {
        Some("EOCD comment extends beyond file"@)
    } else {
        None
    }
}

/// Reads the end of central directory record at `offset`.
fn parse_eocd_at(data: &[u8], offset: usize, archive: &str) -> (r: Result<
    EocdRecord,
    ZipError,
>)
    ensures
        match eocd_fault(data@, offset as int) {
            Some(reason) => r.is_err() && is_corrupt_archive(r.unwrap_err(), archive@, reason),
            None => r.is_ok() && r.unwrap().central_dir_offset == le32(data@, offset + 16)
                && r.unwrap().central_dir_size == le32(data@, offset + 12)
                && r.unwrap().total_entries == le16(data@, offset + 10),
        },
{
    if data.len() < 22 || offset > data.len() - 22 {
        return Err(corrupt(archive, "Failed to read end of central directory"));
    }
    let file_size: u64 = data.len() as u64;
    let signature: u32 = read_le32(data, offset);
    if signature != 0x06054b50 {
        let reason = String::from_str("Invalid EOCD signature: expected 0x06054b50, got 0x").concat(
            hex8_string(signature).as_str(),
        );
        return Err(corrupt(archive, reason.as_str()));
    }
    let disk_num: u16 = read_le16(data, offset + 4);
    let cdir_disk: u16 = read_le16(data, offset + 6);
    let total_entries: u16 = read_le16(data, offset + 10);
    let central_dir_size: u64 = read_le32(data, offset + 12) as u64;
    let central_dir_offset: u64 = read_le32(data, offset + 16) as u64;
    let comment_len: u64 = read_le16(data, offset + 20) as u64;
    if disk_num != 0 || cdir_disk != 0 {
        return Err(corrupt(archive, "Multi-disk ZIP archives not supported"));
    }
    if central_dir_offset >= file_size {
        let reason = String::from_str("Invalid central directory offset: ").concat(
            decimal_string(central_dir_offset).as_str(),
        ).concat(" >= ").concat(decimal_string(file_size).as_str());
        return Err(corrupt(archive, reason.as_str()));
    }
    if central_dir_offset + central_dir_size > file_size {
        return Err(corrupt(archive, "Central directory extends beyond file"));
    }
    if comment_len > file_size - (offset as u64 + 22) {
        return Err(corrupt(archive, "EOCD comment extends beyond file"));
    }
    Ok(EocdRecord { central_dir_offset, central_dir_size, total_entries })
}

/// Why no central directory header can be read at `pos`, if none can: the
/// archive ends within the header, the signature is wrong, the archive ends
/// within the name, or within the extra field and comment.
pub open spec fn header_fault(data: Seq<u8>, pos: int) -> Option<Seq<char>> {
    if pos + 46 > data.len() {
        Some("Failed to read central directory header"@)
    } else if le32(data, pos) != 0x02014b50 {
        Some("Invalid central directory header signature: got 0x"@ + hex8(le32(data, pos)))
    } else if pos + 46 + le16(data, pos + 28) > data.len() {
        Some("Failed to read filename"@)
    } else if pos + header_len(data, pos) > data.len() {
        Some("Failed to skip extra/comment"@)
    } else {
        None
    }
}

/// The length of the central directory header at `pos` with its name, extra
/// field and comment.
pub open spec fn header_len(data: Seq<u8>, pos: int) -> int {
    46 + le16(data, pos + 28) + le16(data, pos + 30) + le16(data, pos + 32)
}

/// The bytes of the name in the central directory header at `pos`.
pub open spec fn header_name(data: Seq<u8>, pos: int) -> Seq<u8> {
    data.subrange(pos + 46, pos + 46 + le16(data, pos + 28))
}

/// The text of a name in an archive: what its bytes encode when they are
/// valid UTF-8, else their reading with replacements.
pub open spec fn name_text(bytes: Seq<u8>) -> Seq<char> {
    if valid_utf8(bytes) {
        decode_utf8(bytes)
    } else {
        utf8_lossy(bytes)
    }
}

/// What the central directory header at `pos` records. An entry is a
/// directory when its DOS directory attribute is set or its name ends in a
/// slash.
pub open spec fn header_entry(data: Seq<u8>, pos: int) -> EntryModel {
    let name = header_name(data, pos);
    EntryModel {
        name: name_text(name),
        uncompressed_size: le32(data, pos + 24),
        compressed_size: le32(data, pos + 20),
        crc32: le32(data, pos + 16),
        local_header_offset: le32(data, pos + 42),
        is_dir: (le32(data, pos + 38) / 16) % 2 == 1 || (name.len() > 0 && name.last() == 0x2F),
        compression_method: le16(data, pos + 10),
        external_attr: le32(data, pos + 38),
        version_made_by: le16(data, pos + 4),
        mtime_dos: le16(data, pos + 12),
        mdate_dos: le16(data, pos + 14),
    }
}

/// `head` before the entries of `tail`, or the failure of `tail`.
pub open spec fn prepend(head: Seq<EntryModel>, tail: Result<Seq<EntryModel>, Seq<char>>) -> Result<
    Seq<EntryModel>,
    Seq<char>,
> {
    match tail {
        Ok(rest) => Ok(head + rest),
        Err(reason) => Err(reason),
    }
}

/// The entries of a result, none for a failure.
pub open spec fn entries_of(r: Result<Seq<EntryModel>, Seq<char>>) -> Seq<EntryModel> {
    match r {
        Ok(entries) => entries,
        Err(_) => Seq::empty(),
    }
}

/// The `n` entries of the central directory that starts at `pos`, or why
/// they cannot be read.
pub open spec fn directory_entries(data: Seq<u8>, pos: int, n: int) -> Result<
    Seq<EntryModel>,
    Seq<char>,
>
    decreases n,
{
    if n <= 0 {
        Ok(Seq::empty())
    } else {
        match header_fault(data, pos) {
            Some(reason) => Err(reason),
            None => prepend(
                seq![header_entry(data, pos)],
                directory_entries(data, pos + header_len(data, pos), n - 1),
            ),
        }
    }
}

/// The numbers of an entry are in the ranges of the fields that hold them
/// in the archive.
pub open spec fn fields_fit(e: EntryModel) -> bool {
    &&& 0 <= e.uncompressed_size <= 0xFFFF_FFFF
    &&& 0 <= e.compressed_size <= 0xFFFF_FFFF
    &&& 0 <= e.crc32 <= 0xFFFF_FFFF
    &&& 0 <= e.local_header_offset <= 0xFFFF_FFFF
    &&& 0 <= e.external_attr <= 0xFFFF_FFFF
    &&& 0 <= e.compression_method <= 0xFFFF
    &&& 0 <= e.version_made_by <= 0xFFFF
    &&& 0 <= e.mtime_dos <= 0xFFFF
    &&& 0 <= e.mdate_dos <= 0xFFFF
}

/// A central directory that can be read has as many entries as were asked
/// for, each with its numbers in range.
pub proof fn lemma_directory_entries_fit(data: Seq<u8>, pos: int, n: int)
    requires
        0 <= n,
        0 <= pos,
    ensures
        directory_entries(data, pos, n).is_ok() ==> entries_of(
            directory_entries(data, pos, n),
        ).len() == n && forall|i: int|
            0 <= i < n ==> fields_fit(#[trigger] entries_of(directory_entries(data, pos, n))[i]),
    decreases n,
{
    if n > 0 && header_fault(data, pos).is_none() {
        lemma_directory_entries_fit(data, pos + header_len(data, pos), n - 1);
        let rest = entries_of(directory_entries(data, pos + header_len(data, pos), n - 1));
        let all = entries_of(directory_entries(data, pos, n));
        if directory_entries(data, pos, n).is_ok() {
            assert(all =~= seq![header_entry(data, pos)] + rest);
            assert forall|i: int| 0 <= i < n implies fields_fit(#[trigger] all[i]) by {
                if i > 0 {
                    assert(all[i] == rest[i - 1]);
                }
            }
        }
    }
}

/// Reads the central directory header at `pos`.
fn parse_header(data: &[u8], pos: usize, archive: &str) -> (r: Result<
    (ZipEntryInfo, usize),
    ZipError,
>)
    requires
        pos <= data@.len(),
    ensures
        match header_fault(data@, pos as int) {
            Some(reason) => r.is_err() && is_corrupt_archive(r.unwrap_err(), archive@, reason),
            None => r.is_ok() && r.unwrap().0@ == header_entry(data@, pos as int) && r.unwrap().1
                == pos + header_len(data@, pos as int),
        },
{
    if data.len() - pos < 46 {
        return Err(corrupt(archive, "Failed to read central directory header"));
    }
    let signature: u32 = read_le32(data, pos);
    if signature != 0x02014b50 {
        let reason = String::from_str("Invalid central directory header signature: got 0x").concat(
            hex8_string(signature).as_str(),
        );
        return Err(corrupt(archive, reason.as_str()));
    }
    let version_made_by: u16 = read_le16(data, pos + 4);
    let compression_method: u16 = read_le16(data, pos + 10);
    let mtime_dos: u16 = read_le16(data, pos + 12);
    let mdate_dos: u16 = read_le16(data, pos + 14);
    let crc32: u32 = read_le32(data, pos + 16);
    let compressed_size: u64 = read_le32(data, pos + 20) as u64;
    let uncompressed_size: u64 = read_le32(data, pos + 24) as u64;
    let name_len: usize = read_le16(data, pos + 28) as usize;
    let extra_len: usize = read_le16(data, pos + 30) as usize;
    let comment_len: usize = read_le16(data, pos + 32) as usize;
    let external_attr: u32 = read_le32(data, pos + 38);
    let local_header_offset: u64 = read_le32(data, pos + 42) as u64;
    let left: usize = data.len() - pos - 46;
    if name_len > left {
        return Err(corrupt(archive, "Failed to read filename"));
    }
    if extra_len + comment_len > left - name_len {
        return Err(corrupt(archive, "Failed to skip extra/comment"));
    }
    let name_bytes = vstd::slice::slice_subrange(data, pos + 46, pos + 46 + name_len);
    let name = string_from_utf8_lossy(name_bytes);
    let is_dir: bool = (external_attr / 16) % 2 == 1 || (name_len > 0 && name_bytes[name_len - 1]
        == 0x2F);
    Ok(
        (
            ZipEntryInfo {
                name,
                uncompressed_size,
                compressed_size,
                crc32,
                local_header_offset,
                is_dir,
                compression_method,
                external_attr,
                version_made_by,
                mtime_dos,
                mdate_dos,
            },
            pos + 46 + name_len + extra_len + comment_len,
        ),
    )
}

/// Reads the entries of the central directory that the record describes.
fn parse_central_directory(data: &[u8], eocd: &EocdRecord, archive: &str) -> (r: Result<
    Vec<ZipEntryInfo>,
    ZipError,
>)
    ensures
        match directory_entries(
            data@,
            eocd.central_dir_offset as int,
            eocd.total_entries as int,
        ) {
            Ok(entries) => r.is_ok() && models(r.unwrap()@) == entries,
            Err(reason) => r.is_err() && is_corrupt_archive(r.unwrap_err(), archive@, reason),
        },
{
    let ghost goal = directory_entries(
        data@,
        eocd.central_dir_offset as int,
        eocd.total_entries as int,
    );
    let mut entries: Vec<ZipEntryInfo> = Vec::new();
    if eocd.total_entries == 0 {
        proof {
            assert(models(entries@) =~= Seq::<EntryModel>::empty());
        }
        return Ok(entries);
    }
    if eocd.central_dir_offset > data.len() as u64 {
        return Err(corrupt(archive, "Failed to read central directory header"));
    }
    let mut pos: usize = eocd.central_dir_offset as usize;
    let mut i: u16 = 0;
    proof {
        assert(models(entries@) =~= Seq::<EntryModel>::empty());
        assert(Seq::<EntryModel>::empty() + entries_of(goal) =~= entries_of(goal));
    }
    while i < eocd.total_entries
        invariant
            i <= eocd.total_entries,
            pos <= data@.len(),
            entries@.len() == i,
            goal == directory_entries(
                data@,
                eocd.central_dir_offset as int,
                eocd.total_entries as int,
            ),
            goal == prepend(
                models(entries@),
                directory_entries(data@, pos as int, eocd.total_entries - i),
            ),
        decreases eocd.total_entries - i,
    {
        let ghost before = models(entries@);
        let ghost here = pos as int;
        match parse_header(data, pos, archive) {
            Ok(parsed) => {
                entries.push(parsed.0);
                pos = parsed.1;
                proof {
                    let rest = directory_entries(data@, pos as int, eocd.total_entries - i - 1);
                    assert(models(entries@) =~= before + seq![header_entry(data@, here)]);
                    assert(before + (seq![header_entry(data@, here)] + entries_of(rest))
                        =~= models(entries@) + entries_of(rest));
                }
            },
            Err(e) => {
                return Err(e);
            },
        }
        i = i + 1;
    }
    proof {
        assert(models(entries@) + Seq::<EntryModel>::empty() =~= models(entries@));
    }
    Ok(entries)
}

/// The index of an archive: its entries and where its central directory
/// starts; or why it has none. An archive of fewer than 22 bytes is too small;
/// else its end of central directory record is looked for and read, and then
/// its central directory.
pub open spec fn archive_index(data: Seq<u8>, eocd_at: Option<int>) -> Result<
    (Seq<EntryModel>, int),
    Seq<char>,
> {
    if data.len() < 22 {
        Err("File too small to be a ZIP archive"@)
    } else {
        match eocd_at {
            None => Err("Cannot find end of central directory"@),
            Some(p) => match eocd_fault(data, p) {
                Some(reason) => Err(reason),
                None => match directory_entries(
                    data,
                    le32(data, p + 16),
                    le16(data, p + 10),
                ) {
                    Err(reason) => Err(reason),
                    Ok(entries) => Ok((entries, le32(data, p + 16))),
                },
            },
        }
    }
}

/// What the end of central directory record of an archive says: where the
/// central directory starts, how many bytes it has and how many entries; or
/// why the archive has no such record.
pub open spec fn end_record(data: Seq<u8>, eocd_at: Option<int>) -> Result<
    (int, int, int),
    Seq<char>,
> {
    if data.len() < 22 {
        Err("File too small to be a ZIP archive"@)
    } else {
        match eocd_at {
            None => Err("Cannot find end of central directory"@),
            Some(p) => match eocd_fault(data, p) {
                Some(reason) => Err(reason),
                None => Ok((le32(data, p + 16), le32(data, p + 12), le16(data, p + 10))),
            },
        }
    }
}

/// Where the end of central directory record of the archive stands, if it
/// has one.
pub open spec fn eocd_position(data: Seq<u8>) -> Option<int> {
    if exists|p: int| is_last_eocd(data, p) {
        Some(choose|p: int| is_last_eocd(data, p))
    } else {
        None
    }
}

/// There is at most one last candidate.
pub proof fn lemma_last_eocd_unique(data: Seq<u8>, p: int, q: int)
    requires
        is_last_eocd(data, p),
        is_last_eocd(data, q),
    ensures
        p == q,
{
}

/// The index of an archive in memory.
#[derive(Debug)]
pub struct ZipReader {
    path: String,
    entries: Vec<ZipEntryInfo>,
    central_dir_offset: u64,
}

impl ZipReader {
    /// The name that the archive was opened under.
    pub closed spec fn path(&self) -> Seq<char> {
        self.path@
    }

    /// The entries in the order of the central directory.
    pub closed spec fn spec_entries(&self) -> Seq<ZipEntryInfo> {
        self.entries@
    }

    /// Where the central directory starts.
    pub closed spec fn append_offset(&self) -> int {
        self.central_dir_offset as int
    }

    /// Reads the index of the archive `data`, which `path` names.
    pub fn open(path: &str, data: &[u8]) -> (r: Result<Self, ZipError>)
        ensures
            match archive_index(data@, eocd_position(data@)) {
                Ok((entries, offset)) => r.is_ok() && models(r.unwrap().spec_entries())
                    == entries && r.unwrap().append_offset() == offset && r.unwrap().path()
                    == path@ && 0 <= offset < data@.len() && entries.len() <= 0xFFFF
                    && forall|i: int| 0 <= i < entries.len() ==> fields_fit(#[trigger] entries[i]),
                Err(reason) => r.is_err() && is_corrupt_archive(r.unwrap_err(), path@, reason),
            },
    {
        if data.len() < 22 {
            return Err(corrupt(path, "File too small to be a ZIP archive"));
        }
        let offset: usize = match find_eocd(data) {
            Some(p) => p,
            None => {
                proof {
                    if exists|p: int| is_last_eocd(data@, p) {
                        let p = choose|p: int| is_last_eocd(data@, p);
                        assert(!is_eocd_candidate(data@, p));
                    }
                }
                return Err(corrupt(path, "Cannot find end of central directory"));
            },
        };
        proof {
            let p = choose|p: int| is_last_eocd(data@, p);
            lemma_last_eocd_unique(data@, p, offset as int);
        }
        let eocd = match Self::parse_eocd_at(data, offset, path) {
            Ok(eocd) => eocd,
            Err(e) => {
                return Err(e);
            },
        };
        let entries = match Self::parse_central_directory(data, &eocd, path) {
            Ok(entries) => entries,
            Err(e) => {
                return Err(e);
            },
        };
        proof {
            lemma_directory_entries_fit(
                data@,
                eocd.central_dir_offset as int,
                eocd.total_entries as int,
            );
        }
        Ok(
            Self {
                path: String::from_str(path),
                entries,
                central_dir_offset: eocd.central_dir_offset,
            },
        )
    }

    /// Finds and reads the end of central directory record.
    pub fn find_and_parse_eocd(data: &[u8], archive: &str) -> (r: Result<EocdRecord, ZipError>)
        ensures
            match end_record(data@, eocd_position(data@)) {
                Ok((offset, size, count)) => r.is_ok() && r.unwrap().central_dir_offset == offset
                    && r.unwrap().central_dir_size == size && r.unwrap().total_entries == count,
                Err(reason) => r.is_err() && is_corrupt_archive(r.unwrap_err(), archive@, reason),
            },
    {
        if data.len() < 22 {
            return Err(corrupt(archive, "File too small to be a ZIP archive"));
        }
        match find_eocd(data) {
            Some(p) => {
                proof {
                    let q = choose|q: int| is_last_eocd(data@, q);
                    lemma_last_eocd_unique(data@, q, p as int);
                }
                Self::parse_eocd_at(data, p, archive)
            },
            None => {
                proof {
                    if exists|p: int| is_last_eocd(data@, p) {
                        let p = choose|p: int| is_last_eocd(data@, p);
                        assert(!is_eocd_candidate(data@, p));
                    }
                }
                Err(corrupt(archive, "Cannot find end of central directory"))
            },
        }
    }

    /// Reads the end of central directory record at `offset`.
    pub fn parse_eocd_at(data: &[u8], offset: usize, archive: &str) -> (r: Result<
        EocdRecord,
        ZipError,
    >)
        ensures
            match eocd_fault(data@, offset as int) {
                Some(reason) => r.is_err() && is_corrupt_archive(r.unwrap_err(), archive@, reason),
                None => r.is_ok() && r.unwrap().central_dir_offset == le32(data@, offset + 16)
                    && r.unwrap().central_dir_size == le32(data@, offset + 12)
                    && r.unwrap().total_entries == le16(data@, offset + 10),
            },
    {
        parse_eocd_at(data, offset, archive)
    }

    /// Reads the entries of the central directory that the record describes.
    pub fn parse_central_directory(data: &[u8], eocd: &EocdRecord, archive: &str) -> (r: Result<
        Vec<ZipEntryInfo>,
        ZipError,
    >)
        ensures
            match directory_entries(
                data@,
                eocd.central_dir_offset as int,
                eocd.total_entries as int,
            ) {
                Ok(entries) => r.is_ok() && models(r.unwrap()@) == entries,
                Err(reason) => r.is_err() && is_corrupt_archive(r.unwrap_err(), archive@, reason),
            },
    {
        parse_central_directory(data, eocd, archive)
    }

    /// The entries in the order of the central directory.
    pub fn entries(&self) -> (r: &[ZipEntryInfo])
        ensures
            r@ == self.spec_entries(),
    {
        self.entries.as_slice()
    }

    /// Where the central directory starts: the place at which appending to
    /// the archive continues.
    pub fn get_append_offset(&self) -> (r: u64)
        ensures
            r == self.append_offset(),
    {
        self.central_dir_offset
    }
}

} // verus!
