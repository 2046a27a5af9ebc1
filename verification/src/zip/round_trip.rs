//! Reading undoes writing: what the writer lays down, the reader finds
//! again.

use vstd::prelude::*;
use vstd::utf8::encode_utf8;
use crate::zip::format::{le16, le16_bytes, le32, le32_bytes};
use crate::zip::reader::{
    archive_index, directory_entries, eocd_position, fields_fit, header_entry, header_fault,
    header_len, header_name, is_eocd_candidate, is_last_eocd, lemma_final_eocd_wins, name_text,
    EntryModel,
};
use crate::miniz::crc32::crc32_spec;
use crate::miniz::deflate::{lemma_deflate_round_trip, lemma_empty_raw_round_trip};
use crate::unzip::archive::{data_start, entry_content, entry_payload};
use crate::zip::builder::{
    added, built, entry_for, entry_name, finished, source_payload, start_of, SourceFile,
};
use crate::zip::writer::{
    archive_fits, central_header_bytes, dir_name, directory_bytes, entry_fits, eocd_bytes,
    external_attr_of, local_header_bytes, name_bytes, payload_of,
};

verus! {

proof fn lemma_u32_digits(v: u32)
    by (bit_vector)
    ensures
        v == (v % 256) + 256 * ((v / 256) % 256) + 65536 * ((v / 65536) % 256) + 16777216 * ((v
            / 16777216) % 256),
        v % 256 < 256,
        (v / 256) % 256 < 256,
        (v / 65536) % 256 < 256,
        (v / 16777216) % 256 < 256,
        v <= 0xFFFF ==> (v / 256) % 256 == v / 256,
{
}

/// The bytes of a number of two bytes spell it.
pub proof fn lemma_le16_of_bytes(v: int, rest: Seq<u8>)
    requires
        0 <= v <= 0xFFFF,
    ensures
        le16(le16_bytes(v) + rest, 0) == v,
{
    lemma_u32_digits(v as u32);
    let bytes = le16_bytes(v);
    assert((bytes + rest)[0] == bytes[0]);
    assert((bytes + rest)[1] == bytes[1]);
}

/// The bytes of a number of four bytes spell it.
pub proof fn lemma_le32_of_bytes(v: int, rest: Seq<u8>)
    requires
        0 <= v <= 0xFFFF_FFFF,
    ensures
        le32(le32_bytes(v) + rest, 0) == v,
{
    lemma_u32_digits(v as u32);
    let bytes = le32_bytes(v);
    assert((bytes + rest)[0] == bytes[0]);
    assert((bytes + rest)[1] == bytes[1]);
    assert((bytes + rest)[2] == bytes[2]);
    assert((bytes + rest)[3] == bytes[3]);
}

/// A number of two bytes that stands behind `before` reads as itself.
pub proof fn lemma_le16_at(before: Seq<u8>, v: int, rest: Seq<u8>)
    requires
        0 <= v <= 0xFFFF,
    ensures
        le16(before + le16_bytes(v) + rest, before.len() as int) == v,
{
    lemma_le16_of_bytes(v, rest);
    let data = before + le16_bytes(v) + rest;
    let n = before.len() as int;
    assert(data[n] == (le16_bytes(v) + rest)[0]);
    assert(data[n + 1] == (le16_bytes(v) + rest)[1]);
}

/// A number of four bytes that stands behind `before` reads as itself.
pub proof fn lemma_le32_at(before: Seq<u8>, v: int, rest: Seq<u8>)
    requires
        0 <= v <= 0xFFFF_FFFF,
    ensures
        le32(before + le32_bytes(v) + rest, before.len() as int) == v,
{
    lemma_le32_of_bytes(v, rest);
    let data = before + le32_bytes(v) + rest;
    let n = before.len() as int;
    assert(data[n] == (le32_bytes(v) + rest)[0]);
    assert(data[n + 1] == (le32_bytes(v) + rest)[1]);
    assert(data[n + 2] == (le32_bytes(v) + rest)[2]);
    assert(data[n + 3] == (le32_bytes(v) + rest)[3]);
}

/// A number of two bytes between `before` and `behind` reads as itself;
/// and `data` is `before` and then what begins with that number.
proof fn lemma_field16(data: Seq<u8>, before: Seq<u8>, v: int, behind: Seq<u8>)
    requires
        0 <= v <= 0xFFFF,
        data == before + le16_bytes(v) + behind,
    ensures
        le16(data, before.len() as int) == v,
        data == before + (le16_bytes(v) + behind),
        le16_bytes(v).len() == 2,
{
    lemma_le16_at(before, v, behind);
    assert(data =~= before + (le16_bytes(v) + behind));
}

/// A number of four bytes between `before` and `behind` reads as itself;
/// and `data` is `before` and then what begins with that number.
proof fn lemma_field32(data: Seq<u8>, before: Seq<u8>, v: int, behind: Seq<u8>)
    requires
        0 <= v <= 0xFFFF_FFFF,
        data == before + le32_bytes(v) + behind,
    ensures
        le32(data, before.len() as int) == v,
        data == before + (le32_bytes(v) + behind),
        le32_bytes(v).len() == 4,
{
    lemma_le32_at(before, v, behind);
    assert(data =~= before + (le32_bytes(v) + behind));
}

/// What the fields of a central directory header read as.
#[verifier::rlimit(50)]
pub proof fn lemma_central_fields(e: EntryModel, rest: Seq<u8>)
    requires
        entry_fits(e),
        fields_fit(e),
    ensures
        ({
            let data = central_header_bytes(e) + rest;
            &&& le32(data, 0) == 0x02014b50
            &&& le16(data, 4) == e.version_made_by
            &&& le16(data, 10) == e.compression_method
            &&& le16(data, 12) == e.mtime_dos
            &&& le16(data, 14) == e.mdate_dos
            &&& le32(data, 16) == e.crc32
            &&& le32(data, 20) == e.compressed_size
            &&& le32(data, 24) == e.uncompressed_size
            &&& le16(data, 28) == name_bytes(e.name).len() as int
            &&& le16(data, 30) == 0
            &&& le16(data, 32) == 0
            &&& le32(data, 38) == e.external_attr
            &&& le32(data, 42) == e.local_header_offset
        }),
{
    reveal(central_header_bytes);
    let data = central_header_bytes(e) + rest;
    // What stands before each field.
    let before_made_by = le32_bytes(0x02014b50);
    let before_needed = before_made_by + le16_bytes(e.version_made_by);
    let before_flags = before_needed + le16_bytes(20);
    let before_method = before_flags + le16_bytes(0);
    let before_time = before_method + le16_bytes(e.compression_method);
    let before_date = before_time + le16_bytes(e.mtime_dos);
    let before_crc = before_date + le16_bytes(e.mdate_dos);
    let before_compressed = before_crc + le32_bytes(e.crc32);
    let before_size = before_compressed + le32_bytes(e.compressed_size);
    let before_name_len = before_size + le32_bytes(e.uncompressed_size);
    let before_extra_len = before_name_len + le16_bytes(name_bytes(e.name).len() as int);
    let before_comment_len = before_extra_len + le16_bytes(0);
    let before_disk = before_comment_len + le16_bytes(0);
    let before_internal = before_disk + le16_bytes(0);
    let before_external = before_internal + le16_bytes(0);
    let before_offset = before_external + le32_bytes(e.external_attr);
    let fixed = before_offset + le32_bytes(e.local_header_offset);
    let behind = name_bytes(e.name) + rest;
    assert(data =~= fixed + behind);
    // From the last field to the first: each reads as what was written, and what
    // stands behind the one before it begins with its bytes.
    lemma_field32(data, before_offset, e.local_header_offset, behind);
    let behind_external = le32_bytes(e.local_header_offset) + behind;
    lemma_field32(data, before_external, e.external_attr, behind_external);
    let behind_internal = le32_bytes(e.external_attr) + behind_external;
    lemma_field16(data, before_internal, 0, behind_internal);
    let behind_disk = le16_bytes(0) + behind_internal;
    lemma_field16(data, before_disk, 0, behind_disk);
    let behind_comment_len = le16_bytes(0) + behind_disk;
    lemma_field16(data, before_comment_len, 0, behind_comment_len);
    let behind_extra_len = le16_bytes(0) + behind_comment_len;
    lemma_field16(data, before_extra_len, 0, behind_extra_len);
    let behind_name_len = le16_bytes(0) + behind_extra_len;
    lemma_field16(data, before_name_len, name_bytes(e.name).len() as int, behind_name_len);
    let behind_size = le16_bytes(name_bytes(e.name).len() as int) + behind_name_len;
    lemma_field32(data, before_size, e.uncompressed_size, behind_size);
    let behind_compressed = le32_bytes(e.uncompressed_size) + behind_size;
    lemma_field32(data, before_compressed, e.compressed_size, behind_compressed);
    let behind_crc = le32_bytes(e.compressed_size) + behind_compressed;
    lemma_field32(data, before_crc, e.crc32, behind_crc);
    let behind_date = le32_bytes(e.crc32) + behind_crc;
    lemma_field16(data, before_date, e.mdate_dos, behind_date);
    let behind_time = le16_bytes(e.mdate_dos) + behind_date;
    lemma_field16(data, before_time, e.mtime_dos, behind_time);
    let behind_method = le16_bytes(e.mtime_dos) + behind_time;
    lemma_field16(data, before_method, e.compression_method, behind_method);
    let behind_flags = le16_bytes(e.compression_method) + behind_method;
    lemma_field16(data, before_flags, 0, behind_flags);
    let behind_needed = le16_bytes(0) + behind_flags;
    lemma_field16(data, before_needed, 20, behind_needed);
    let behind_made_by = le16_bytes(20) + behind_needed;
    lemma_field16(data, before_made_by, e.version_made_by, behind_made_by);
    let behind_signature = le16_bytes(e.version_made_by) + behind_made_by;
    lemma_le32_of_bytes(0x02014b50, behind_signature);
}

/// What the fields of a local file header read as.
#[verifier::rlimit(50)]
pub proof fn lemma_local_fields(e: EntryModel, rest: Seq<u8>)
    requires
        entry_fits(e),
        fields_fit(e),
    ensures
        ({
            let data = local_header_bytes(e) + rest;
            &&& le32(data, 0) == 0x04034b50
            &&& le16(data, 8) == e.compression_method
            &&& le16(data, 10) == e.mtime_dos
            &&& le16(data, 12) == e.mdate_dos
            &&& le32(data, 14) == e.crc32
            &&& le32(data, 18) == e.compressed_size
            &&& le32(data, 22) == e.uncompressed_size
            &&& le16(data, 26) == name_bytes(e.name).len() as int
            &&& le16(data, 28) == 0
        }),
{
    reveal(local_header_bytes);
    let data = local_header_bytes(e) + rest;
    // What stands before each field.
    let before_needed = le32_bytes(0x04034b50);
    let before_flags = before_needed + le16_bytes(20);
    let before_method = before_flags + le16_bytes(0);
    let before_time = before_method + le16_bytes(e.compression_method);
    let before_date = before_time + le16_bytes(e.mtime_dos);
    let before_crc = before_date + le16_bytes(e.mdate_dos);
    let before_compressed = before_crc + le32_bytes(e.crc32);
    let before_size = before_compressed + le32_bytes(e.compressed_size);
    let before_name_len = before_size + le32_bytes(e.uncompressed_size);
    let before_extra_len = before_name_len + le16_bytes(name_bytes(e.name).len() as int);
    let fixed = before_extra_len + le16_bytes(0);
    let behind = name_bytes(e.name) + rest;
    assert(data =~= fixed + behind);
    // From the last field to the first: each reads as what was written, and what
    // stands behind the one before it begins with its bytes.
    lemma_field16(data, before_extra_len, 0, behind);
    let behind_name_len = le16_bytes(0) + behind;
    lemma_field16(data, before_name_len, name_bytes(e.name).len() as int, behind_name_len);
    let behind_size = le16_bytes(name_bytes(e.name).len() as int) + behind_name_len;
    lemma_field32(data, before_size, e.uncompressed_size, behind_size);
    let behind_compressed = le32_bytes(e.uncompressed_size) + behind_size;
    lemma_field32(data, before_compressed, e.compressed_size, behind_compressed);
    let behind_crc = le32_bytes(e.compressed_size) + behind_compressed;
    lemma_field32(data, before_crc, e.crc32, behind_crc);
    let behind_date = le32_bytes(e.crc32) + behind_crc;
    lemma_field16(data, before_date, e.mdate_dos, behind_date);
    let behind_time = le16_bytes(e.mdate_dos) + behind_date;
    lemma_field16(data, before_time, e.mtime_dos, behind_time);
    let behind_method = le16_bytes(e.mtime_dos) + behind_time;
    lemma_field16(data, before_method, e.compression_method, behind_method);
    let behind_flags = le16_bytes(e.compression_method) + behind_method;
    lemma_field16(data, before_flags, 0, behind_flags);
    let behind_needed = le16_bytes(0) + behind_flags;
    lemma_field16(data, before_needed, 20, behind_needed);
    let behind_signature = le16_bytes(20) + behind_needed;
    lemma_le32_of_bytes(0x04034b50, behind_signature);
}

/// What the fields of an end of central directory record read as.
#[verifier::rlimit(50)]
pub proof fn lemma_eocd_fields(count: int, size: int, offset: int, rest: Seq<u8>)
    requires
        0 <= count <= 0xFFFF,
        0 <= size <= 0xFFFF_FFFF,
        0 <= offset <= 0xFFFF_FFFF,
    ensures
        ({
            let data = eocd_bytes(count, size, offset) + rest;
            &&& le32(data, 0) == 0x06054b50
            &&& le16(data, 4) == 0
            &&& le16(data, 6) == 0
            &&& le16(data, 8) == count
            &&& le16(data, 10) == count
            &&& le32(data, 12) == size
            &&& le32(data, 16) == offset
            &&& le16(data, 20) == 0
        }),
{
    reveal(eocd_bytes);
    let data = eocd_bytes(count, size, offset) + rest;
    // What stands before each field.
    let before_disk = le32_bytes(0x06054b50);
    let before_directory_disk = before_disk + le16_bytes(0);
    let before_here = before_directory_disk + le16_bytes(0);
    let before_count = before_here + le16_bytes(count);
    let before_size = before_count + le16_bytes(count);
    let before_offset = before_size + le32_bytes(size);
    let before_comment_len = before_offset + le32_bytes(offset);
    let fixed = before_comment_len + le16_bytes(0);
    let behind = rest;
    // From the last field to the first: each reads as what was written, and what
    // stands behind the one before it begins with its bytes.
    lemma_field16(data, before_comment_len, 0, behind);
    let behind_offset = le16_bytes(0) + behind;
    lemma_field32(data, before_offset, offset, behind_offset);
    let behind_size = le32_bytes(offset) + behind_offset;
    lemma_field32(data, before_size, size, behind_size);
    let behind_count = le32_bytes(size) + behind_size;
    lemma_field16(data, before_count, count, behind_count);
    let behind_here = le16_bytes(count) + behind_count;
    lemma_field16(data, before_here, count, behind_here);
    let behind_directory_disk = le16_bytes(count) + behind_here;
    lemma_field16(data, before_directory_disk, 0, behind_directory_disk);
    let behind_disk = le16_bytes(0) + behind_directory_disk;
    lemma_field16(data, before_disk, 0, behind_disk);
    let behind_signature = le16_bytes(0) + behind_disk;
    lemma_le32_of_bytes(0x06054b50, behind_signature);
}

/// An entry as the reader would read it back: its numbers fit their
/// fields, and it is marked as a directory exactly when its DOS directory
/// attribute is set or its name ends in a slash.
pub open spec fn entry_canonical(e: EntryModel) -> bool {
    &&& entry_fits(e)
    &&& fields_fit(e)
    &&& e.is_dir == ((e.external_attr / 16) % 2 == 1 || (name_bytes(e.name).len() > 0
        && name_bytes(e.name).last() == 0x2F))
}

/// The name that was written is the name that is read.
pub proof fn lemma_name_round_trip(name: Seq<char>)
    ensures
        name_text(name_bytes(name)) == name,
{
    vstd::utf8::encode_utf8_valid_utf8(name);
    vstd::utf8::encode_utf8_decode_utf8(name);
}

/// A number that stands in `data` from `pos` on stands in what `data`
/// holds from `pos` on.
pub proof fn lemma_le_skip(data: Seq<u8>, pos: int, k: int)
    requires
        0 <= pos,
        0 <= k,
        pos + k + 4 <= data.len(),
    ensures
        le16(data, pos + k) == le16(data.skip(pos), k),
        le32(data, pos + k) == le32(data.skip(pos), k),
{
    let tail = data.skip(pos);
    assert(tail[k] == data[pos + k]);
    assert(tail[k + 1] == data[pos + k + 1]);
    assert(tail[k + 2] == data[pos + k + 2]);
    assert(tail[k + 3] == data[pos + k + 3]);
}

/// A number of two bytes that stands in `data` from `pos` on stands in what
/// `data` holds from `pos` on.
pub proof fn lemma_le16_skip(data: Seq<u8>, pos: int, k: int)
    requires
        0 <= pos,
        0 <= k,
        pos + k + 2 <= data.len(),
    ensures
        le16(data, pos + k) == le16(data.skip(pos), k),
{
    let tail = data.skip(pos);
    assert(tail[k] == data[pos + k]);
    assert(tail[k + 1] == data[pos + k + 1]);
}

/// What the fields of the central directory header of `e` read as where the
/// header stands in `data` at `pos`.
pub open spec fn reads_central(data: Seq<u8>, pos: int, e: EntryModel) -> bool {
    &&& pos + 46 + name_bytes(e.name).len() <= data.len()
    &&& le32(data, pos) == 0x02014b50
    &&& le16(data, pos + 4) == e.version_made_by
    &&& le16(data, pos + 10) == e.compression_method
    &&& le16(data, pos + 12) == e.mtime_dos
    &&& le16(data, pos + 14) == e.mdate_dos
    &&& le32(data, pos + 16) == e.crc32
    &&& le32(data, pos + 20) == e.compressed_size
    &&& le32(data, pos + 24) == e.uncompressed_size
    &&& le16(data, pos + 28) == name_bytes(e.name).len()
    &&& le16(data, pos + 30) == 0
    &&& le16(data, pos + 32) == 0
    &&& le32(data, pos + 38) == e.external_attr
    &&& le32(data, pos + 42) == e.local_header_offset
    &&& data.subrange(pos + 46, pos + 46 + name_bytes(e.name).len()) == name_bytes(e.name)
}

/// Where the central directory header of an entry stands, its fields read
/// as the entry.
pub proof fn lemma_reads_central(data: Seq<u8>, pos: int, e: EntryModel)
    requires
        entry_fits(e),
        fields_fit(e),
        0 <= pos,
        pos + central_header_bytes(e).len() <= data.len(),
        data.subrange(pos, pos + central_header_bytes(e).len()) == central_header_bytes(e),
    ensures
        reads_central(data, pos, e),
        central_header_bytes(e).len() == 46 + name_bytes(e.name).len(),
{
    let header = central_header_bytes(e);
    crate::zip::writer::lemma_header_lengths(e);
    let rest = data.skip(pos + header.len());
    let tail = data.skip(pos);
    assert(tail =~= header + rest) by {
        assert forall|i: int| 0 <= i < tail.len() implies tail[i] == (header + rest)[i] by {
            if i < header.len() {
                assert(data.subrange(pos, pos + header.len())[i] == data[pos + i]);
            }
        }
    }
    lemma_central_fields(e, rest);
    lemma_le_skip(data, pos, 0);
    lemma_le_skip(data, pos, 4);
    lemma_le_skip(data, pos, 10);
    lemma_le_skip(data, pos, 12);
    lemma_le_skip(data, pos, 14);
    lemma_le_skip(data, pos, 16);
    lemma_le_skip(data, pos, 20);
    lemma_le_skip(data, pos, 24);
    lemma_le_skip(data, pos, 28);
    lemma_le_skip(data, pos, 30);
    lemma_le_skip(data, pos, 32);
    lemma_le_skip(data, pos, 38);
    lemma_le_skip(data, pos, 42);
    let n = name_bytes(e.name);
    lemma_central_name(e, rest);
    assert(data.subrange(pos + 46, pos + 46 + n.len()) =~= tail.subrange(46, 46 + n.len() as int));
}

/// The name stands behind the 46 bytes of the central directory header.
pub proof fn lemma_central_name(e: EntryModel, rest: Seq<u8>)
    ensures
        (central_header_bytes(e) + rest).subrange(46, 46 + name_bytes(e.name).len() as int)
            == name_bytes(e.name),
{
    reveal(central_header_bytes);
    assert((central_header_bytes(e) + rest).subrange(46, 46 + name_bytes(e.name).len() as int)
        =~= name_bytes(e.name));
}

/// Reading undoes writing for one central directory header: where the
/// header of a canonical entry stands, that entry is read.
pub proof fn lemma_header_round_trip(data: Seq<u8>, pos: int, e: EntryModel)
    requires
        entry_canonical(e),
        0 <= pos,
        pos + central_header_bytes(e).len() <= data.len(),
        data.subrange(pos, pos + central_header_bytes(e).len()) == central_header_bytes(e),
    ensures
        header_fault(data, pos).is_none(),
        header_entry(data, pos) == e,
        header_len(data, pos) == central_header_bytes(e).len(),
        central_header_bytes(e).len() == 46 + name_bytes(e.name).len(),
{
    lemma_reads_central(data, pos, e);
    lemma_entry_read(data, pos, e);
}

/// The entry whose fields are read is the entry that is read.
pub proof fn lemma_entry_read(data: Seq<u8>, pos: int, e: EntryModel)
    requires
        entry_canonical(e),
        0 <= pos,
        reads_central(data, pos, e),
    ensures
        header_fault(data, pos).is_none(),
        header_entry(data, pos) == e,
        header_len(data, pos) == 46 + name_bytes(e.name).len(),
{
    lemma_name_round_trip(e.name);
    assert(header_name(data, pos) == name_bytes(e.name));
}

/// The central directory of entries is the header of the first and then
/// the directory of the rest.
pub proof fn lemma_directory_cons(first: EntryModel, rest: Seq<EntryModel>)
    ensures
        directory_bytes(seq![first] + rest) =~= central_header_bytes(first) + directory_bytes(
            rest,
        ),
    decreases rest.len(),
{
    let all = seq![first] + rest;
    if rest.len() == 0 {
        assert(all.drop_last() =~= Seq::<EntryModel>::empty());
        assert(all.last() == first);
        assert(directory_bytes(all.drop_last()) =~= Seq::<u8>::empty());
    } else {
        assert(all.drop_last() =~= seq![first] + rest.drop_last());
        assert(all.last() == rest.last());
        lemma_directory_cons(first, rest.drop_last());
    }
}

/// Reading undoes writing for the central directory: where the directory of
/// canonical entries stands, those entries are read.
pub proof fn lemma_directory_round_trip(data: Seq<u8>, pos: int, entries: Seq<EntryModel>)
    requires
        forall|i: int| 0 <= i < entries.len() ==> entry_canonical(#[trigger] entries[i]),
        0 <= pos,
        pos + directory_bytes(entries).len() <= data.len(),
        data.subrange(pos, pos + directory_bytes(entries).len()) == directory_bytes(entries),
    ensures
        directory_entries(data, pos, entries.len() as int) == Ok::<Seq<EntryModel>, Seq<char>>(
            entries,
        ),
    decreases entries.len(),
{
    if entries.len() == 0 {
        assert(entries =~= Seq::<EntryModel>::empty());
    } else {
        let first = entries[0];
        let rest = entries.skip(1);
        assert(entries =~= seq![first] + rest);
        lemma_directory_cons(first, rest);
        let header = central_header_bytes(first);
        let tail = directory_bytes(rest);
        let all = directory_bytes(entries);
        assert(all =~= header + tail);
        let window = data.subrange(pos, pos + all.len());
        assert(data.subrange(pos, pos + header.len()) =~= window.subrange(
            0,
            header.len() as int,
        ));
        assert(all.subrange(0, header.len() as int) =~= header);
        assert(data.subrange(pos + header.len(), pos + all.len()) =~= window.subrange(
            header.len() as int,
            all.len() as int,
        ));
        assert(all.subrange(header.len() as int, all.len() as int) =~= tail);
        lemma_header_round_trip(data, pos, first);
        assert forall|i: int| 0 <= i < rest.len() implies entry_canonical(#[trigger] rest[i]) by {
            assert(rest[i] == entries[i + 1]);
        }
        lemma_directory_round_trip(data, pos + header.len(), rest);
        assert(seq![first] + rest =~= entries);
    }
}

/// The archive `out` holds the bytes `b` and the canonical entries `e`, and
/// behind them the central directory and the end record of these entries.
pub open spec fn is_archive_of(out: Seq<u8>, b: Seq<u8>, e: Seq<EntryModel>) -> bool {
    &&& e.len() <= 0xFFFF
    &&& b.len() <= 0xFFFF_FFFF
    &&& directory_bytes(e).len() <= 0xFFFF_FFFF
    &&& forall|i: int| 0 <= i < e.len() ==> entry_canonical(#[trigger] e[i])
    &&& out == b + directory_bytes(e) + eocd_bytes(
        e.len() as int,
        directory_bytes(e).len() as int,
        b.len() as int,
    )
}

/// Where the end record stands in the last 22 bytes of an archive, it is a
/// candidate, and its fields read as what was written.
pub proof fn lemma_reads_eocd(out: Seq<u8>, at: int, count: int, size: int, offset: int)
    requires
        0 <= count <= 0xFFFF,
        0 <= size <= 0xFFFF_FFFF,
        0 <= offset <= 0xFFFF_FFFF,
        0 <= at,
        at + 22 == out.len(),
        out.subrange(at, at + 22) == eocd_bytes(count, size, offset),
    ensures
        is_eocd_candidate(out, at),
        le32(out, at) == 0x06054b50,
        le16(out, at + 4) == 0,
        le16(out, at + 6) == 0,
        le16(out, at + 10) == count,
        le32(out, at + 12) == size,
        le32(out, at + 16) == offset,
        le16(out, at + 20) == 0,
{
    let record = eocd_bytes(count, size, offset);
    let tail = out.skip(at);
    let none = Seq::<u8>::empty();
    assert(tail =~= record + none) by {
        assert forall|i: int| 0 <= i < 22 implies tail[i] == (record + none)[i] by {
            assert(out.subrange(at, at + 22)[i] == out[at + i]);
        }
    }
    lemma_eocd_fields(count, size, offset, none);
    assert(tail[0] == out[at] && tail[1] == out[at + 1] && tail[2] == out[at + 2] && tail[3]
        == out[at + 3]);
    assert(tail[0] == 0x50 && tail[1] == 0x4B && tail[2] == 0x05 && tail[3] == 0x06) by {
        lemma_eocd_signature(count, size, offset, none);
    }
    assert(le32(out, at) == le32(tail, 0));
    assert(tail[4] == out[at + 4] && tail[5] == out[at + 5] && tail[6] == out[at + 6] && tail[7]
        == out[at + 7]);
    assert(tail[10] == out[at + 10] && tail[11] == out[at + 11]);
    assert(tail[12] == out[at + 12] && tail[13] == out[at + 13] && tail[14] == out[at + 14]
        && tail[15] == out[at + 15]);
    assert(tail[16] == out[at + 16] && tail[17] == out[at + 17] && tail[18] == out[at + 18]
        && tail[19] == out[at + 19]);
    assert(tail[20] == out[at + 20] && tail[21] == out[at + 21]);
}

/// The end record begins with its signature.
pub proof fn lemma_eocd_signature(count: int, size: int, offset: int, rest: Seq<u8>)
    ensures
        ({
            let data = eocd_bytes(count, size, offset) + rest;
            data[0] == 0x50 && data[1] == 0x4B && data[2] == 0x05 && data[3] == 0x06
        }),
{
    reveal(eocd_bytes);
}

/// A record in the last 22 bytes of an archive is the record of the
/// archive.
pub proof fn lemma_eocd_position(out: Seq<u8>, at: int)
    requires
        at + 22 == out.len(),
        is_eocd_candidate(out, at),
    ensures
        eocd_position(out) == Some(at),
{
    lemma_final_eocd_wins(out);
    let found = choose|p: int| is_last_eocd(out, p);
    assert(found == at);
}

/// The index of an archive whose end record reads as a central directory
/// of `count` entries at `offset`, if that directory reads as `e`.
pub proof fn lemma_index_of(out: Seq<u8>, at: int, e: Seq<EntryModel>, offset: int, size: int)
    requires
        out.len() >= 22,
        eocd_position(out) == Some(at),
        le32(out, at) == 0x06054b50,
        le16(out, at + 4) == 0,
        le16(out, at + 6) == 0,
        le16(out, at + 10) == e.len(),
        le32(out, at + 12) == size,
        le32(out, at + 16) == offset,
        le16(out, at + 20) == 0,
        at + 22 <= out.len(),
        0 <= offset < out.len(),
        offset + size <= out.len(),
        directory_entries(out, offset, e.len() as int) == Ok::<Seq<EntryModel>, Seq<char>>(e),
    ensures
        archive_index(out, eocd_position(out)) == Ok::<(Seq<EntryModel>, int), Seq<char>>(
            (e, offset),
        ),
{
}

/// Where the central directory and the end record of an archive stand.
proof fn lemma_archive_layout(out: Seq<u8>, b: Seq<u8>, e: Seq<EntryModel>)
    requires
        out == b + directory_bytes(e) + eocd_bytes(
            e.len() as int,
            directory_bytes(e).len() as int,
            b.len() as int,
        ),
    ensures
        out.len() == b.len() + directory_bytes(e).len() + 22,
        out.subrange(b.len() as int, (b.len() + directory_bytes(e).len()) as int)
            == directory_bytes(e),
        out.subrange((b.len() + directory_bytes(e).len()) as int, out.len() as int) == eocd_bytes(
            e.len() as int,
            directory_bytes(e).len() as int,
            b.len() as int,
        ),
{
    let dir = directory_bytes(e);
    let record = eocd_bytes(e.len() as int, dir.len() as int, b.len() as int);
    let at = (b.len() + dir.len()) as int;
    assert(record.len() == 22) by {
        reveal(eocd_bytes);
    }
    assert(out.subrange(at, at + 22) =~= record);
    assert(out.subrange(b.len() as int, at) =~= dir);
}

/// Reading undoes writing for the index of an archive: an archive that ends
/// with the central directory and the end record of canonical entries has
/// these entries as its index, whatever stands before.
pub proof fn lemma_index_round_trip(out: Seq<u8>, b: Seq<u8>, e: Seq<EntryModel>)
    requires
        is_archive_of(out, b, e),
    ensures
        eocd_position(out) == Some(out.len() - 22),
        archive_index(out, eocd_position(out)) == Ok::<(Seq<EntryModel>, int), Seq<char>>(
            (e, b.len() as int),
        ),
{
    let dir = directory_bytes(e);
    let at = (b.len() + dir.len()) as int;
    lemma_archive_layout(out, b, e);
    lemma_reads_eocd(out, at, e.len() as int, dir.len() as int, b.len() as int);
    lemma_eocd_position(out, at);
    lemma_directory_round_trip(out, b.len() as int, e);
    lemma_index_of(out, at, e, b.len() as int, dir.len() as int);
}

/// The name stands behind the 30 bytes of the local file header.
pub proof fn lemma_local_length(e: EntryModel)
    ensures
        local_header_bytes(e).len() == 30 + name_bytes(e.name).len(),
{
    reveal(local_header_bytes);
}

/// Where the local file header of an entry and its data stand, the data
/// is found behind the header.
pub proof fn lemma_payload_found(out: Seq<u8>, e: EntryModel, payload: Seq<u8>)
    requires
        entry_fits(e),
        fields_fit(e),
        e.compressed_size == payload.len(),
        e.local_header_offset + local_header_bytes(e).len() + payload.len() <= out.len(),
        out.subrange(
            e.local_header_offset,
            e.local_header_offset + local_header_bytes(e).len() + payload.len(),
        ) == local_header_bytes(e) + payload,
    ensures
        entry_payload(out, e) == Ok::<Seq<u8>, Seq<char>>(payload),
{
    let at = e.local_header_offset;
    let header = local_header_bytes(e);
    lemma_local_length(e);
    let n = name_bytes(e.name).len() as int;
    let rest = out.skip(at + header.len());
    let tail = out.skip(at);
    assert(tail =~= header + rest) by {
        assert forall|i: int| 0 <= i < tail.len() implies tail[i] == (header + rest)[i] by {
            if i < header.len() {
                assert(out.subrange(at, at + header.len() + payload.len())[i] == out[at + i]);
                assert((header + payload)[i] == header[i]);
            }
        }
    }
    lemma_local_fields(e, rest);
    lemma_le_skip(out, at, 0);
    lemma_le16_skip(out, at, 26);
    lemma_le16_skip(out, at, 28);
    assert(data_start(out, at) == at + 30 + n);
    assert(out.subrange(at + 30 + n, at + 30 + n + payload.len()) =~= payload) by {
        assert forall|i: int| 0 <= i < payload.len() implies out[at + 30 + n + i] == payload[i] by {
            assert(out.subrange(at, at + header.len() + payload.len())[30 + n + i] == out[at + 30
                + n + i]);
            assert((header + payload)[30 + n + i] == payload[i]);
        }
    }
}

/// Extracting undoes adding: where the local file header and the data of
/// an entry stand as the writer lays them down for a file, the content of
/// the entry is the content of the file.
pub proof fn lemma_entry_round_trip(
    out: Seq<u8>,
    e: EntryModel,
    content: Seq<u8>,
    level: int,
)
    requires
        0 <= level <= 9,
        entry_fits(e),
        fields_fit(e),
        e.compression_method == (if level == 0 { 0int } else { 8int }),
        e.compressed_size == payload_of(content, level).len(),
        e.uncompressed_size == content.len(),
        e.crc32 == crc32_spec(0, content),
        e.local_header_offset + local_header_bytes(e).len() + payload_of(content, level).len()
            <= out.len(),
        out.subrange(
            e.local_header_offset,
            e.local_header_offset + local_header_bytes(e).len() + payload_of(content, level).len(),
        ) == local_header_bytes(e) + payload_of(content, level),
    ensures
        entry_content(out, e) == Ok::<Seq<u8>, Seq<char>>(content),
{
    let payload = payload_of(content, level);
    lemma_payload_found(out, e, payload);
    if level != 0 {
        if content.len() == 0 {
            lemma_empty_raw_round_trip();
            assert(content =~= Seq::<u8>::empty());
        } else {
            lemma_deflate_round_trip(content, level);
        }
    }
}

/// A source whose entry the reader reads back as it was added: a
/// directory, or a file whose name does not end in a slash.
pub open spec fn source_canonical(source: SourceFile) -> bool {
    source.dir || !(name_bytes(source.key@).len() > 0 && name_bytes(source.key@).last() == 0x2F)
}

/// The external attributes of a new entry carry the directory attribute for
/// a directory and no other, and fit in 32 bits.
pub proof fn lemma_external_attr(mode: u32, is_dir: bool)
    ensures
        0 <= external_attr_of(mode, is_dir) <= 0xFFFF_FFFF,
        ((external_attr_of(mode, is_dir) / 16) % 2 == 1) == is_dir,
{
    let m = (mode % 512) as int;
    assert((m * 65536) / 16 == m * 4096) by (nonlinear_arith);
    assert((m * 65536 + 16) / 16 == m * 4096 + 1) by (nonlinear_arith);
    assert((m * 4096) % 2 == 0) by (nonlinear_arith)
        requires
            0 <= m,
    ;
    assert((m * 4096 + 1) % 2 == 1) by (nonlinear_arith)
        requires
            0 <= m,
    ;
}

/// A directory name ends in a slash.
pub proof fn lemma_dir_name_ends_in_slash(name: Seq<char>)
    ensures
        name_bytes(dir_name(name)).len() > 0,
        name_bytes(dir_name(name)).last() == 0x2F,
{
    if !(name_bytes(name).len() > 0 && name_bytes(name).last() == 0x2F) {
        lemma_encode_push_slash(name);
    }
}

/// The bytes of two texts joined are the bytes of the one and then those
/// of the other.
pub proof fn lemma_encode_concat(a: Seq<char>, b: Seq<char>)
    ensures
        encode_utf8(a + b) =~= encode_utf8(a) + encode_utf8(b),
    decreases a.len(),
{
    if a.len() == 0 {
        assert(a + b =~= b);
    } else {
        assert((a + b).drop_first() =~= a.drop_first() + b);
        assert((a + b)[0] == a[0]);
        lemma_encode_concat(a.drop_first(), b);
    }
}

/// The bytes of a name with a slash added are the bytes of the name and
/// the byte of the slash.
pub proof fn lemma_encode_push_slash(name: Seq<char>)
    ensures
        name_bytes(name + "/"@) =~= name_bytes(name).push(0x2F),
{
    reveal_strlit("/");
    let slash = "/"@;
    assert(slash =~= seq!['/']);
    assert(vstd::utf8::is_ascii_chars(slash));
    vstd::utf8::is_ascii_chars_encode_utf8(slash);
    assert(encode_utf8(slash) =~= seq![0x2Fu8]) by {
        assert(slash[0] as u8 == encode_utf8(slash)[0]);
    }
    lemma_encode_concat(name, slash);
}

/// The entry of a canonical source is canonical if it fits.
pub proof fn lemma_entry_for_canonical(source: SourceFile, level: int, offset: int)
    requires
        0 <= level <= 9,
        source_canonical(source),
        entry_fits(entry_for(source, level, offset)),
    ensures
        entry_canonical(entry_for(source, level, offset)),
{
    lemma_external_attr(source.mode, source.dir);
    if source.dir {
        lemma_dir_name_ends_in_slash(source.key@);
    }
}

/// What building records: one entry more for each source.
pub proof fn lemma_built_len(
    b0: Seq<u8>,
    e0: Seq<EntryModel>,
    sources: Seq<SourceFile>,
    level: int,
)
    ensures
        built(b0, e0, sources, level).1.len() == e0.len() + sources.len(),
        built(b0, e0, sources, level).0.len() >= b0.len(),
        built(b0, e0, sources, level).0.take(b0.len() as int) == b0,
        built(b0, e0, sources, level).1.take(e0.len() as int) == e0,
    decreases sources.len(),
{
    let end = built(b0, e0, sources, level);
    if sources.len() == 0 {
        assert(end.0.take(b0.len() as int) =~= b0);
        assert(end.1.take(e0.len() as int) =~= e0);
    } else {
        lemma_built_len(b0, e0, sources.drop_last(), level);
        let before = built(b0, e0, sources.drop_last(), level);
        assert(end.0.take(b0.len() as int) =~= before.0.take(b0.len() as int));
        assert(end.1.take(e0.len() as int) =~= before.1.take(e0.len() as int));
    }
}

/// What building does with source `i`: it records the entry of the source
/// and lays down its local header and its data where the archive ended
/// before; what follows does not change them.
pub proof fn lemma_built_at(
    b0: Seq<u8>,
    e0: Seq<EntryModel>,
    sources: Seq<SourceFile>,
    level: int,
    i: int,
)
    requires
        0 <= i < sources.len(),
    ensures
        ({
            let end = built(b0, e0, sources, level);
            let mid = built(b0, e0, sources.take(i), level);
            let entry = entry_for(sources[i], level, mid.0.len() as int);
            let laid = local_header_bytes(entry) + source_payload(sources[i], level);
            &&& end.1.len() == e0.len() + sources.len()
            &&& end.1[e0.len() + i] == entry
            &&& mid.0.len() + laid.len() <= end.0.len()
            &&& end.0.subrange(mid.0.len() as int, (mid.0.len() + laid.len()) as int) == laid
        }),
    decreases sources.len(),
{
    let end = built(b0, e0, sources, level);
    let mid = built(b0, e0, sources.take(i), level);
    let entry = entry_for(sources[i], level, mid.0.len() as int);
    let laid = local_header_bytes(entry) + source_payload(sources[i], level);
    lemma_built_len(b0, e0, sources, level);
    lemma_built_len(b0, e0, sources.take(i), level);
    let shorter = sources.drop_last();
    let before = built(b0, e0, shorter, level);
    lemma_built_len(b0, e0, shorter, level);
    if i == sources.len() - 1 {
        assert(sources.take(i) =~= shorter);
        assert(end.0 =~= mid.0 + laid);
        assert(end.0.subrange(mid.0.len() as int, (mid.0.len() + laid.len()) as int) =~= laid);
    } else {
        lemma_built_at(b0, e0, shorter, level, i);
        assert(shorter.take(i) =~= sources.take(i));
        assert(shorter[i] == sources[i]);
        assert(end.1[e0.len() + i] == before.1[e0.len() + i]);
        assert(end.0.subrange(mid.0.len() as int, (mid.0.len() + laid.len()) as int)
            =~= before.0.subrange(mid.0.len() as int, (mid.0.len() + laid.len()) as int));
    }
}

/// Reading undoes building. An archive that was built from canonical
/// sources, on canonical entries, has as its index the entries that it was
/// built on and then one entry for each source, in their order; the
/// content of the entry of each file is the content of the file, and the
/// entry records its length and its CRC-32.
pub proof fn lemma_build_round_trip(
    out: Seq<u8>,
    b0: Seq<u8>,
    e0: Seq<EntryModel>,
    sources: Seq<SourceFile>,
    level: int,
)
    requires
        0 <= level <= 9,
        forall|i: int| 0 <= i < sources.len() ==> source_canonical(#[trigger] sources[i]),
        forall|j: int| 0 <= j < e0.len() ==> entry_canonical(#[trigger] e0[j]),
        finished(
            out,
            built(b0, e0, sources, level).0,
            built(b0, e0, sources, level).1,
        ),
        archive_fits(
            built(b0, e0, sources, level).0,
            built(b0, e0, sources, level).1,
        ),
    ensures
        ({
            let end = built(b0, e0, sources, level);
            &&& archive_index(out, eocd_position(out)) == Ok::<
                (Seq<EntryModel>, int),
                Seq<char>,
            >((end.1, end.0.len() as int))
            &&& end.1.len() == e0.len() + sources.len()
            &&& end.1.take(e0.len() as int) == e0
            &&& forall|i: int|
                0 <= i < sources.len() ==> (#[trigger] end.1[e0.len() + i]).name == (if sources[i].dir {
                    dir_name(sources[i].key@)
                } else {
                    sources[i].key@
                })
            &&& forall|i: int|
                0 <= i < sources.len() && !sources[i].dir ==> entry_content(
                    out,
                    #[trigger] end.1[e0.len() + i],
                ) == Ok::<Seq<u8>, Seq<char>>(sources[i].content@)
            &&& forall|i: int|
                0 <= i < sources.len() && !sources[i].dir ==> (#[trigger] end.1[e0.len()
                    + i]).uncompressed_size == sources[i].content@.len() && end.1[e0.len()
                    + i].crc32 == crc32_spec(0, sources[i].content@)
        }),
{
    let end = built(b0, e0, sources, level);
    lemma_built_len(b0, e0, sources, level);
    assert forall|i: int| 0 <= i < sources.len() && !sources[i].dir implies (#[trigger] end.1[e0.len()
        + i]).uncompressed_size == sources[i].content@.len() && end.1[e0.len() + i].crc32
        == crc32_spec(0, sources[i].content@) by {
        lemma_built_at(b0, e0, sources, level, i);
    }
    assert forall|k: int| 0 <= k < end.1.len() implies entry_canonical(#[trigger] end.1[k]) by {
        if k < e0.len() {
            assert(end.1[k] == end.1.take(e0.len() as int)[k]);
        } else {
            let i = k - e0.len();
            lemma_built_at(b0, e0, sources, level, i);
            let mid = built(b0, e0, sources.take(i), level);
            lemma_entry_for_canonical(sources[i], level, mid.0.len() as int);
        }
    }
    lemma_index_round_trip(out, end.0, end.1);
    assert forall|i: int| 0 <= i < sources.len() implies (#[trigger] end.1[e0.len() + i]).name
        == (if sources[i].dir {
        dir_name(sources[i].key@)
    } else {
        sources[i].key@
    }) by {
        lemma_built_at(b0, e0, sources, level, i);
    }
    assert forall|i: int| 0 <= i < sources.len() && !sources[i].dir implies entry_content(
        out,
        #[trigger] end.1[e0.len() + i],
    ) == Ok::<Seq<u8>, Seq<char>>(sources[i].content@) by {
        lemma_built_at(b0, e0, sources, level, i);
        let mid = built(b0, e0, sources.take(i), level);
        let entry = entry_for(sources[i], level, mid.0.len() as int);
        let laid = local_header_bytes(entry) + source_payload(sources[i], level);
        assert(entry_canonical(end.1[e0.len() + i]));
        assert(out.subrange(mid.0.len() as int, (mid.0.len() + laid.len()) as int) =~= end.0.subrange(
            mid.0.len() as int,
            (mid.0.len() + laid.len()) as int,
        ));
        lemma_entry_round_trip(out, entry, sources[i].content@, level);
    }
}

/// Building from one list of sources and then from another is building from
/// the two lists joined.
pub proof fn lemma_built_concat(
    b0: Seq<u8>,
    e0: Seq<EntryModel>,
    first: Seq<SourceFile>,
    second: Seq<SourceFile>,
    level: int,
)
    ensures
        built(b0, e0, first + second, level) == built(
            built(b0, e0, first, level).0,
            built(b0, e0, first, level).1,
            second,
            level,
        ),
    decreases second.len(),
{
    if second.len() == 0 {
        assert(first + second =~= first);
    } else {
        assert((first + second).drop_last() =~= first + second.drop_last());
        assert((first + second).last() == second.last());
        lemma_built_concat(b0, e0, first, second.drop_last(), level);
    }
}

/// Building can continue an archive that was built: it starts from what was
/// built, the entries and the bytes before the central directory.
pub proof fn lemma_start_of_built(archive: Seq<u8>, sources: Seq<SourceFile>, level: int)
    requires
        0 <= level <= 9,
        forall|i: int| 0 <= i < sources.len() ==> source_canonical(#[trigger] sources[i]),
        finished(
            archive,
            built(Seq::empty(), Seq::empty(), sources, level).0,
            built(Seq::empty(), Seq::empty(), sources, level).1,
        ),
        archive_fits(
            built(Seq::empty(), Seq::empty(), sources, level).0,
            built(Seq::empty(), Seq::empty(), sources, level).1,
        ),
    ensures
        start_of(archive, true) == Ok::<(Seq<u8>, Seq<EntryModel>), Seq<char>>(
            built(Seq::empty(), Seq::empty(), sources, level),
        ),
{
    let before = built(Seq::empty(), Seq::empty(), sources, level);
    lemma_build_round_trip(archive, Seq::empty(), Seq::empty(), sources, level);
    assert(archive.take(before.0.len() as int) =~= before.0);
    assert forall|i: int| 0 <= i < before.1.len() implies name_bytes(
        (#[trigger] before.1[i]).name,
    ).len() <= 0xFFFF by {
        assert(entry_fits(before.1[i]));
    }
}

/// Appending continues an archive. Where an archive was built from
/// canonical sources and a second archive is built from more such sources by
/// continuing the first, the second archive is the one that is built from
/// all the sources at once: it holds what the first held before its central
/// directory, so that the new entries stand where that directory stood; and
/// its index lists an entry for each source, those of the first archive
/// first, each file with its content.
pub proof fn lemma_append_round_trip(
    old_archive: Seq<u8>,
    new_archive: Seq<u8>,
    first: Seq<SourceFile>,
    second: Seq<SourceFile>,
    level: int,
)
    requires
        0 <= level <= 9,
        forall|i: int| 0 <= i < first.len() ==> source_canonical(#[trigger] first[i]),
        forall|i: int| 0 <= i < second.len() ==> source_canonical(#[trigger] second[i]),
        finished(
            old_archive,
            built(Seq::empty(), Seq::empty(), first, level).0,
            built(Seq::empty(), Seq::empty(), first, level).1,
        ),
        archive_fits(
            built(Seq::empty(), Seq::empty(), first, level).0,
            built(Seq::empty(), Seq::empty(), first, level).1,
        ),
        start_of(old_archive, true) matches Ok(start) && finished(
            new_archive,
            built(start.0, start.1, second, level).0,
            built(start.0, start.1, second, level).1,
        ) && archive_fits(
            built(start.0, start.1, second, level).0,
            built(start.0, start.1, second, level).1,
        ),
    ensures
        ({
            let before = built(Seq::empty(), Seq::empty(), first, level);
            let end = built(Seq::empty(), Seq::empty(), first + second, level);
            &&& before.0 == old_archive.take(before.0.len() as int)
            &&& before.0 == new_archive.take(before.0.len() as int)
            &&& finished(new_archive, end.0, end.1)
            &&& archive_index(new_archive, eocd_position(new_archive)) == Ok::<
                (Seq<EntryModel>, int),
                Seq<char>,
            >((end.1, end.0.len() as int))
            &&& end.1.len() == first.len() + second.len()
            &&& forall|i: int|
                0 <= i < first.len() + second.len() ==> (#[trigger] end.1[i]).name == entry_name(
                    (first + second)[i],
                )
            &&& forall|i: int|
                0 <= i < first.len() + second.len() && !(first + second)[i].dir ==> entry_content(
                    new_archive,
                    #[trigger] end.1[i],
                ) == Ok::<Seq<u8>, Seq<char>>((first + second)[i].content@)
        }),
{
    let none = Seq::<u8>::empty();
    let nothing = Seq::<EntryModel>::empty();
    let before = built(none, nothing, first, level);
    let all = first + second;
    let end = built(none, nothing, all, level);
    lemma_start_of_built(old_archive, first, level);
    lemma_built_concat(none, nothing, first, second, level);
    lemma_built_len(before.0, before.1, second, level);
    assert(finished(new_archive, end.0, end.1));
    assert(old_archive.take(before.0.len() as int) =~= before.0);
    assert(new_archive.take(before.0.len() as int) =~= end.0.take(before.0.len() as int));
    lemma_whole_round_trip(new_archive, all, level);
}

/// Reading undoes building from nothing.
proof fn lemma_whole_round_trip(out: Seq<u8>, sources: Seq<SourceFile>, level: int)
    requires
        0 <= level <= 9,
        forall|i: int| 0 <= i < sources.len() ==> source_canonical(#[trigger] sources[i]),
        finished(
            out,
            built(Seq::empty(), Seq::empty(), sources, level).0,
            built(Seq::empty(), Seq::empty(), sources, level).1,
        ),
        archive_fits(
            built(Seq::empty(), Seq::empty(), sources, level).0,
            built(Seq::empty(), Seq::empty(), sources, level).1,
        ),
    ensures
        ({
            let end = built(Seq::empty(), Seq::empty(), sources, level);
            &&& archive_index(out, eocd_position(out)) == Ok::<
                (Seq<EntryModel>, int),
                Seq<char>,
            >((end.1, end.0.len() as int))
            &&& end.1.len() == sources.len()
            &&& forall|i: int|
                0 <= i < sources.len() ==> (#[trigger] end.1[i]).name == entry_name(sources[i])
            &&& forall|i: int|
                0 <= i < sources.len() && !sources[i].dir ==> entry_content(
                    out,
                    #[trigger] end.1[i],
                ) == Ok::<Seq<u8>, Seq<char>>(sources[i].content@)
        }),
{
    let end = built(Seq::empty(), Seq::empty(), sources, level);
    lemma_build_round_trip(out, Seq::empty(), Seq::empty(), sources, level);
    assert forall|i: int| 0 <= i < sources.len() implies (#[trigger] end.1[i]).name == entry_name(
        sources[i],
    ) by {
        assert(end.1[0 + i] == end.1[i]);
    }
    assert forall|i: int| 0 <= i < sources.len() && !sources[i].dir implies entry_content(
        out,
        #[trigger] end.1[i],
    ) == Ok::<Seq<u8>, Seq<char>>(sources[i].content@) by {
        assert(end.1[0 + i] == end.1[i]);
    }
}

} // verus!
