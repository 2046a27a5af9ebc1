//! Building an archive in memory from files that were read beforehand.

use vstd::prelude::*;
use vstd::string::StringExecFns;
use crate::error::{CompressionLevel, ZipError, ZipMode};
use crate::miniz::crc32::crc32_spec;
use crate::zip::data::ZipWarning;
use crate::zip::reader::{archive_index, eocd_position, models, EntryModel};
use crate::zip::writer::{
    is_append_error,
    archive_fits, dir_name, directory_bytes, empty_archive, empty_archive_bytes, eocd_bytes,
    has_backslash, leading_slash, lemma_empty_archive, lemma_header_lengths, lemma_payload_bound,
    local_header_bytes, name_bytes, names_fit, new_entry, payload_bound, payload_of, ZipWriter,
};

verus! {

/// How to build an archive.
#[derive(Debug, Clone)]
pub struct ZipBuilderOptions {
    /// The level at which files are compressed.
    pub compression_level: CompressionLevel,
    /// Whether directories are descended into.
    pub recurse: bool,
    /// Whether directories get entries of their own.
    pub include_directories: bool,
    /// The directory that relative paths start from.
    pub root: String,
    /// How paths become names.
    pub mode: ZipMode,
    /// Whether an existing archive is continued.
    pub append: bool,
}

impl Default for ZipBuilderOptions {
    fn default() -> (o: Self)
        ensures
            o.compression_level == CompressionLevel::Level6,
            o.recurse,
            o.include_directories,
            o.root@ == "."@,
            o.mode == ZipMode::Mirror,
            !o.append,
    {
        Self {
            compression_level: CompressionLevel::Level6,
            recurse: true,
            include_directories: true,
            root: String::from_str("."),
            mode: ZipMode::Mirror,
            append: false,
        }
    }
}

/// What building an archive gave: the name of the archive and the warnings.
#[derive(Debug, Clone)]
pub struct ZipBuildOutput {
    pub zipfile: String,
    pub warnings: Vec<ZipWarning>,
}

/// A file or directory as it goes into an archive.
#[derive(Debug, Clone)]
pub struct SourceFile {
    /// The name of the entry.
    pub key: String,
    /// Whether it is a directory.
    pub dir: bool,
    /// The content of the file; nothing for a directory.
    pub content: Vec<u8>,
    /// The modification time in seconds since 1970, if it is known.
    pub mtime: Option<u64>,
    /// The Unix mode.
    pub mode: u32,
}

/// The builder of one archive.
#[derive(Debug)]
pub struct ZipBuilder {
    zipfile: String,
    options: ZipBuilderOptions,
    files: Vec<String>,
}

/// The data of a source as an archive holds it at `level`; nothing for a
/// directory.
pub open spec fn source_payload(source: SourceFile, level: int) -> Seq<u8> {
    if source.dir {
        Seq::empty()
    } else {
        payload_of(source.content@, level)
    }
}

/// The entry that adding `source` at `level` to an archive of `offset`
/// bytes records.
pub open spec fn entry_for(source: SourceFile, level: int, offset: int) -> EntryModel {
    if source.dir {
        new_entry(dir_name(source.key@), 0, 0, 0, offset, true, 0, source.mode, source.mtime)
    } else {
        new_entry(
            source.key@,
            source.content@.len() as int,
            source_payload(source, level).len() as int,
            crc32_spec(0, source.content@) as int,
            offset,
            false,
            if level == 0 { 0 } else { 8 },
            source.mode,
            source.mtime,
        )
    }
}

/// The bytes and the entries of an archive after `source` was added at
/// `level` to the bytes `b` and the entries `e`: its local header and its
/// data behind the bytes, its entry behind the entries.
pub open spec fn added(b: Seq<u8>, e: Seq<EntryModel>, source: SourceFile, level: int) -> (
    Seq<u8>,
    Seq<EntryModel>,
) {
    let entry = entry_for(source, level, b.len() as int);
    (b + local_header_bytes(entry) + source_payload(source, level), e.push(entry))
}

/// The bytes and the entries of an archive after `sources` were added in
/// their order at `level` to the bytes `b0` and the entries `e0`.
pub open spec fn built(b0: Seq<u8>, e0: Seq<EntryModel>, sources: Seq<SourceFile>, level: int) -> (
    Seq<u8>,
    Seq<EntryModel>,
)
    decreases sources.len(),
{
    if sources.len() == 0 {
        (b0, e0)
    } else {
        let before = built(b0, e0, sources.drop_last(), level);
        added(before.0, before.1, sources.last(), level)
    }
}

/// The name of the entry of a source: its key, with a slash at the end for
/// a directory.
pub open spec fn entry_name(source: SourceFile) -> Seq<char> {
    if source.dir {
        dir_name(source.key@)
    } else {
        source.key@
    }
}

/// The most bytes that the entry of a source takes before the central
/// directory: its local header, its name, and its data.
pub open spec fn source_cost(source: SourceFile) -> int {
    30 + name_bytes(entry_name(source)).len() + (if source.dir {
        0
    } else {
        payload_bound(source.content@.len() as int)
    })
}

/// The most bytes that the entries of the first `n` sources take before
/// the central directory.
pub open spec fn total_cost(sources: Seq<SourceFile>, n: int) -> int
    decreases n,
{
    if n <= 0 {
        0
    } else {
        total_cost(sources, n - 1) + source_cost(sources[n - 1])
    }
}

/// The bytes that the entries of the first `n` sources take in the central
/// directory.
pub open spec fn directory_cost(sources: Seq<SourceFile>, n: int) -> int
    decreases n,
{
    if n <= 0 {
        0
    } else {
        directory_cost(sources, n - 1) + 46 + name_bytes(entry_name(sources[n - 1])).len()
    }
}

/// The message with which adding `source` to an archive of `bytes` bytes
/// and `count` entries fails; `None` where the source is added. The name is
/// judged first, then the number of entries, then the room that is left.
pub open spec fn source_fault(bytes: int, count: int, source: SourceFile) -> Option<Seq<char>> {
    if leading_slash(source.key@) {
        Some("Invalid filename: cannot start with '/': '"@ + source.key@ + "'"@)
    } else if has_backslash(source.key@) {
        Some("Invalid filename: cannot contain backslash: '"@ + source.key@ + "'"@)
    } else if name_bytes(entry_name(source)).len() > 0xFFFF {
        Some("Archive name too long"@)
    } else if count >= 0xFFFF {
        Some("Too many files in archive"@)
    } else if bytes + source_cost(source) > 0xFFFF_FFFF {
        Some("Archive too large"@)
    } else {
        None
    }
}

/// The message with which building fails at the first of the first `n`
/// sources that cannot be added to what the sources before it have built;
/// `None` where all of them are added.
pub open spec fn build_fault(
    b0: Seq<u8>,
    e0: Seq<EntryModel>,
    sources: Seq<SourceFile>,
    level: int,
    n: int,
) -> Option<Seq<char>>
    decreases n,
{
    if n <= 0 {
        None
    } else {
        match build_fault(b0, e0, sources, level, n - 1) {
            Some(message) => Some(message),
            None => {
                let before = built(b0, e0, sources.take(n - 1), level);
                source_fault(before.0.len() as int, before.1.len() as int, sources[n - 1])
            },
        }
    }
}

/// The archive that is built from `sources`, added in their order at
/// `level` to the bytes `b0` and the entries `e0`, with its central
/// directory and end record; or the message with which building fails: that
/// of the first source that cannot be added, or that of a central directory
/// of more bytes than 32 bits count.
pub open spec fn build_result(
    b0: Seq<u8>,
    e0: Seq<EntryModel>,
    sources: Seq<SourceFile>,
    level: int,
) -> Result<Seq<u8>, Seq<char>> {
    match build_fault(b0, e0, sources, level, sources.len() as int) {
        Some(message) => Err(message),
        None => {
            let end = built(b0, e0, sources, level);
            let directory = directory_bytes(end.1);
            if directory.len() > 0xFFFF_FFFF {
                Err("Archive too large"@)
            } else {
                Ok(
                    end.0 + directory + eocd_bytes(
                        end.1.len() as int,
                        directory.len() as int,
                        end.0.len() as int,
                    ),
                )
            }
        },
    }
}

/// Building from `sources` on the bytes `b0` and the entries `e0` cannot
/// fail: every name is valid and takes at most 65535 bytes; there are at
/// most 65535 entries in all; and neither the entries, taken at their
/// largest, nor the central directory take more bytes than 32 bits count.
pub open spec fn acceptable(b0: Seq<u8>, e0: Seq<EntryModel>, sources: Seq<SourceFile>) -> bool {
    &&& forall|i: int|
        0 <= i < sources.len() ==> !leading_slash((#[trigger] sources[i]).key@) && !has_backslash(
            sources[i].key@,
        ) && name_bytes(entry_name(sources[i])).len() <= 0xFFFF
    &&& names_fit(e0)
    &&& e0.len() + sources.len() <= 0xFFFF
    &&& b0.len() + total_cost(sources, sources.len() as int) <= 0xFFFF_FFFF
    &&& directory_bytes(e0).len() + directory_cost(sources, sources.len() as int) <= 0xFFFF_FFFF
}

/// The costs of more sources are no less.
pub proof fn lemma_costs_grow(sources: Seq<SourceFile>, i: int, n: int)
    requires
        0 <= i <= n,
    ensures
        0 <= total_cost(sources, i) <= total_cost(sources, n),
        0 <= directory_cost(sources, i) <= directory_cost(sources, n),
    decreases n - i,
{
    if i < n {
        lemma_costs_grow(sources, i, n - 1);
    } else {
        lemma_costs_nonnegative(sources, i);
    }
}

pub proof fn lemma_costs_nonnegative(sources: Seq<SourceFile>, i: int)
    ensures
        0 <= total_cost(sources, i),
        0 <= directory_cost(sources, i),
    decreases i,
{
    if i > 0 {
        lemma_costs_nonnegative(sources, i - 1);
    }
}

/// The central directory of one entry more is longer by the header of that
/// entry.
pub proof fn lemma_directory_push(e: Seq<EntryModel>, x: EntryModel)
    ensures
        directory_bytes(e.push(x)).len() == directory_bytes(e).len() + 46 + name_bytes(x.name).len(),
{
    assert(e.push(x).drop_last() =~= e);
    lemma_header_lengths(x);
}

/// Adds one source to the archive.
fn add_source(writer: &mut ZipWriter, source: &SourceFile) -> (r: Result<(), ZipError>)
    requires
        old(writer).wf(),
        !old(writer).finalized(),
    ensures
        final(writer).wf(),
        !final(writer).finalized(),
        final(writer).level() == old(writer).level(),
        final(writer).path() == old(writer).path(),
        match source_fault(
            old(writer).bytes().len() as int,
            old(writer).spec_entries().len() as int,
            *source,
        ) {
            Some(message) => r.is_err() && r.unwrap_err().is_generic(message) && final(writer).bytes()
                == old(writer).bytes() && final(writer).spec_entries() == old(writer).spec_entries(),
            None => r.is_ok() && (final(writer).bytes(), models(final(writer).spec_entries()))
                == added(
                old(writer).bytes(),
                models(old(writer).spec_entries()),
                *source,
                old(writer).level().number(),
            ),
        },
{
    let ghost level = writer.level().number();
    let ghost b0 = writer.bytes();
    let ghost e0 = models(writer.spec_entries());
    let ghost entry = entry_for(*source, level, b0.len() as int);
    let r = if source.dir {
        writer.add_directory(source.key.as_str(), source.mtime, source.mode)
    } else {
        writer.add_file(source.key.as_str(), source.content.as_slice(), source.mtime, source.mode)
    };
    proof {
        assert(b0 + local_header_bytes(entry) + Seq::<u8>::empty() =~= b0 + local_header_bytes(
            entry,
        ));
    }
    r
}

/// The bytes and entries that building starts from: none, or when an
/// archive is continued its bytes up to the central directory and its
/// entries; or the reason why the archive cannot be continued: its index
/// cannot be read, or the name of an entry takes more than 65535 bytes.
pub open spec fn start_of(existing: Seq<u8>, append: bool) -> Result<
    (Seq<u8>, Seq<EntryModel>),
    Seq<char>,
> {
    if append {
        match archive_index(existing, eocd_position(existing)) {
            Ok((entries, offset)) => if names_fit(entries) {
                Ok((existing.take(offset), entries))
            } else {
                Err("Archive name too long"@)
            },
            Err(reason) => Err(reason),
        }
    } else {
        Ok((Seq::empty(), Seq::empty()))
    }
}

/// The archive `out` holds the bytes `b` and the entries `e`, and behind
/// them its central directory and end record.
pub open spec fn finished(out: Seq<u8>, b: Seq<u8>, e: Seq<EntryModel>) -> bool {
    out == b + directory_bytes(e) + eocd_bytes(
        e.len() as int,
        directory_bytes(e).len() as int,
        b.len() as int,
    )
}

/// `r` is what building the archive `zipfile` gives: the archive built from
/// `sources` on what building starts from, which fits the layout of an
/// archive; or the error of an archive that cannot be continued; or the
/// error with the message with which building fails.
pub open spec fn build_outcome(
    r: Result<Vec<u8>, ZipError>,
    zipfile: Seq<char>,
    existing: Seq<u8>,
    append: bool,
    sources: Seq<SourceFile>,
    level: int,
) -> bool {
    match start_of(existing, append) {
        Err(reason) => r.is_err() && is_append_error(r.unwrap_err(), zipfile, reason),
        Ok((b0, e0)) => match build_result(b0, e0, sources, level) {
            Ok(bytes) => r.is_ok() && r.unwrap()@ == bytes && archive_fits(
                built(b0, e0, sources, level).0,
                built(b0, e0, sources, level).1,
            ),
            Err(message) => r.is_err() && r.unwrap_err().is_generic(message),
        },
    }
}

/// Once a source cannot be added, building has failed with its message.
pub proof fn lemma_fault_stays(
    b0: Seq<u8>,
    e0: Seq<EntryModel>,
    sources: Seq<SourceFile>,
    level: int,
    i: int,
    n: int,
)
    requires
        0 <= i <= n,
        build_fault(b0, e0, sources, level, i).is_some(),
    ensures
        build_fault(b0, e0, sources, level, n) == build_fault(b0, e0, sources, level, i),
    decreases n - i,
{
    if i < n {
        lemma_fault_stays(b0, e0, sources, level, i, n - 1);
    }
}

/// What the first `n` sources build: one entry for each, within the bytes
/// that they take at their largest.
pub proof fn lemma_built_costs(
    b0: Seq<u8>,
    e0: Seq<EntryModel>,
    sources: Seq<SourceFile>,
    level: int,
    n: int,
)
    requires
        0 <= n <= sources.len(),
    ensures
        ({
            let mid = built(b0, e0, sources.take(n), level);
            &&& mid.1.len() == e0.len() + n
            &&& mid.0.len() <= b0.len() + total_cost(sources, n)
            &&& directory_bytes(mid.1).len() == directory_bytes(e0).len() + directory_cost(
                sources,
                n,
            )
        }),
    decreases n,
{
    if n > 0 {
        lemma_built_costs(b0, e0, sources, level, n - 1);
        let shorter = sources.take(n);
        assert(shorter.drop_last() =~= sources.take(n - 1));
        assert(shorter.last() == sources[n - 1]);
        let before = built(b0, e0, sources.take(n - 1), level);
        let source = sources[n - 1];
        let entry = entry_for(source, level, before.0.len() as int);
        lemma_header_lengths(entry);
        lemma_payload_bound(source.content@, level);
        lemma_directory_push(before.1, entry);
    } else {
        assert(sources.take(0) =~= Seq::<SourceFile>::empty());
    }
}

/// Building from acceptable sources does not fail.
pub proof fn lemma_acceptable_builds(
    b0: Seq<u8>,
    e0: Seq<EntryModel>,
    sources: Seq<SourceFile>,
    level: int,
)
    requires
        acceptable(b0, e0, sources),
    ensures
        build_result(b0, e0, sources, level).is_ok(),
{
    let total = sources.len() as int;
    assert forall|n: int| 0 <= n <= total implies build_fault(
        b0,
        e0,
        sources,
        level,
        n,
    ).is_none() by {
        lemma_no_fault(b0, e0, sources, level, n);
    }
    lemma_built_costs(b0, e0, sources, level, total);
    assert(sources.take(total) =~= sources);
}

proof fn lemma_no_fault(
    b0: Seq<u8>,
    e0: Seq<EntryModel>,
    sources: Seq<SourceFile>,
    level: int,
    n: int,
)
    requires
        acceptable(b0, e0, sources),
        0 <= n <= sources.len(),
    ensures
        build_fault(b0, e0, sources, level, n).is_none(),
    decreases n,
{
    if n > 0 {
        lemma_no_fault(b0, e0, sources, level, n - 1);
        lemma_built_costs(b0, e0, sources, level, n - 1);
        lemma_costs_grow(sources, n, sources.len() as int);
    }
}

/// Adds the sources in their order, up to the first that cannot be added.
fn add_sources(writer: &mut ZipWriter, sources: &[SourceFile]) -> (r: Result<(), ZipError>)
    requires
        old(writer).wf(),
        !old(writer).finalized(),
    ensures
        final(writer).wf(),
        !final(writer).finalized(),
        final(writer).level() == old(writer).level(),
        final(writer).path() == old(writer).path(),
        match build_fault(
            old(writer).bytes(),
            models(old(writer).spec_entries()),
            sources@,
            old(writer).level().number(),
            sources@.len() as int,
        ) {
            Some(message) => r.is_err() && r.unwrap_err().is_generic(message),
            None => r.is_ok() && (final(writer).bytes(), models(final(writer).spec_entries()))
                == built(
                old(writer).bytes(),
                models(old(writer).spec_entries()),
                sources@,
                old(writer).level().number(),
            ),
        },
{
    let ghost b0 = writer.bytes();
    let ghost e0 = models(writer.spec_entries());
    let ghost level = writer.level().number();
    let ghost total = sources@.len() as int;
    let mut i: usize = 0;
    proof {
        assert(sources@.take(0).len() == 0);
    }
    while i < sources.len()
        invariant
            i <= sources@.len(),
            total == sources@.len(),
            writer.wf(),
            !writer.finalized(),
            writer.level() == old(writer).level(),
            writer.level().number() == level,
            writer.path() == old(writer).path(),
            b0 == old(writer).bytes(),
            e0 == models(old(writer).spec_entries()),
            built(b0, e0, sources@.take(i as int), level) == (
                writer.bytes(),
                models(writer.spec_entries()),
            ),
            build_fault(b0, e0, sources@, level, i as int).is_none(),
        decreases sources@.len() - i,
    {
        let ghost before = built(b0, e0, sources@.take(i as int), level);
        let ghost fault = source_fault(
            before.0.len() as int,
            before.1.len() as int,
            sources@[i as int],
        );
        proof {
            assert(before.1.len() == writer.spec_entries().len());
            assert(build_fault(b0, e0, sources@, level, i + 1) == fault);
        }
        match add_source(writer, &sources[i]) {
            Ok(()) => {},
            Err(e) => {
                proof {
                    lemma_fault_stays(b0, e0, sources@, level, i + 1, total);
                }
                return Err(e);
            },
        }
        proof {
            let next = sources@.take(i + 1);
            assert(next.drop_last() =~= sources@.take(i as int));
            assert(next.last() == sources@[i as int]);
            assert(built(b0, e0, next, level) == added(
                before.0,
                before.1,
                sources@[i as int],
                level,
            ));
        }
        i = i + 1;
    }
    proof {
        assert(sources@.take(i as int) =~= sources@);
    }
    Ok(())
}

impl ZipBuilder {
    /// The name of the archive.
    pub closed spec fn zipfile(&self) -> Seq<char> {
        self.zipfile@
    }

    /// How to build.
    pub closed spec fn options(&self) -> ZipBuilderOptions {
        self.options
    }

    /// The paths given so far.
    pub closed spec fn spec_files(&self) -> Seq<String> {
        self.files@
    }

    /// A builder of the archive that `zipfile` names, with the default
    /// options and no files.
    pub fn new(zipfile: &str) -> (r: Result<Self, ZipError>)
        ensures
            r.is_ok(),
            r.unwrap().zipfile() == zipfile@,
            r.unwrap().spec_files().len() == 0,
            r.unwrap().options().compression_level == CompressionLevel::Level6,
            r.unwrap().options().recurse,
            r.unwrap().options().include_directories,
            r.unwrap().options().root@ == "."@,
            r.unwrap().options().mode == ZipMode::Mirror,
            !r.unwrap().options().append,
    {
        Ok(
            Self {
                zipfile: String::from_str(zipfile),
                options: ZipBuilderOptions::default(),
                files: Vec::new(),
            },
        )
    }

    /// Sets the level at which files are compressed.
    pub fn compression_level(self, level: CompressionLevel) -> (b: Self)
        ensures
            b.zipfile() == self.zipfile(),
            b.spec_files() == self.spec_files(),
            b.options() == (ZipBuilderOptions { compression_level: level, ..self.options() }),
    {
        let mut b = self;
        b.options.compression_level = level;
        b
    }

    /// Sets whether directories are descended into.
    pub fn recurse(self, recurse: bool) -> (b: Self)
        ensures
            b.zipfile() == self.zipfile(),
            b.spec_files() == self.spec_files(),
            b.options() == (ZipBuilderOptions { recurse, ..self.options() }),
    {
        let mut b = self;
        b.options.recurse = recurse;
        b
    }

    /// Sets whether directories get entries of their own.
    pub fn include_directories(self, with_directories: bool) -> (b: Self)
        ensures
            b.zipfile() == self.zipfile(),
            b.spec_files() == self.spec_files(),
            b.options() == (ZipBuilderOptions {
                include_directories: with_directories,
                ..self.options()
            }),
    {
        let mut b = self;
        b.options.include_directories = with_directories;
        b
    }

    /// Sets the directory that relative paths start from.
    pub fn root(self, root: &str) -> (b: Self)
        ensures
            b.zipfile() == self.zipfile(),
            b.spec_files() == self.spec_files(),
            b.options().root@ == root@,
            b.options().compression_level == self.options().compression_level,
            b.options().recurse == self.options().recurse,
            b.options().include_directories == self.options().include_directories,
            b.options().mode == self.options().mode,
            b.options().append == self.options().append,
    {
        let mut b = self;
        b.options.root = String::from_str(root);
        b
    }

    /// Sets how paths become names.
    pub fn mode(self, mode: ZipMode) -> (b: Self)
        ensures
            b.zipfile() == self.zipfile(),
            b.spec_files() == self.spec_files(),
            b.options() == (ZipBuilderOptions { mode, ..self.options() }),
    {
        let mut b = self;
        b.options.mode = mode;
        b
    }

    /// Sets whether an existing archive is continued.
    pub fn append(self, append: bool) -> (b: Self)
        ensures
            b.zipfile() == self.zipfile(),
            b.spec_files() == self.spec_files(),
            b.options() == (ZipBuilderOptions { append, ..self.options() }),
    {
        let mut b = self;
        b.options.append = append;
        b
    }

    /// Adds paths to those given so far.
    pub fn files(self, files: &[String]) -> (r: Result<Self, ZipError>)
        ensures
            r.is_ok(),
            r.unwrap().zipfile() == self.zipfile(),
            r.unwrap().options() == self.options(),
            r.unwrap().spec_files().len() == self.spec_files().len() + files@.len(),
            forall|i: int|
                0 <= i < self.spec_files().len() ==> (#[trigger] r.unwrap().spec_files()[i])@
                    == self.spec_files()[i]@,
            forall|i: int|
                0 <= i < files@.len() ==> (#[trigger] r.unwrap().spec_files()[
                    self.spec_files().len() + i
                ])@ == files@[i]@,
    {
        let mut b = self;
        let mut i: usize = 0;
        while i < files.len()
            invariant
                i <= files@.len(),
                b.zipfile == self.zipfile,
                b.options == self.options,
                b.files@.len() == self.files@.len() + i,
                forall|j: int|
                    0 <= j < self.files@.len() ==> (#[trigger] b.files@[j])@ == self.files@[j]@,
                forall|j: int|
                    0 <= j < i ==> (#[trigger] b.files@[self.files@.len() + j])@ == files@[j]@,
            decreases files@.len() - i,
        {
            b.files.push(files[i].clone());
            i = i + 1;
        }
        Ok(b)
    }

    /// The paths given so far.
    pub fn paths(&self) -> (r: &[String])
        ensures
            r@ == self.spec_files(),
    {
        self.files.as_slice()
    }

    /// How to build.
    pub fn settings(&self) -> (r: &ZipBuilderOptions)
        ensures
            *r == self.options(),
    {
        &self.options
    }

    /// The archive without entries: the 22 bytes of its end record.
    pub fn create_empty_zip(&self) -> (r: Result<Vec<u8>, ZipError>)
        ensures
            r.is_ok(),
            r.unwrap()@ == empty_archive_bytes(),
    {
        Ok(empty_archive())
    }

    /// The archive that building starts from: a new one, or the one that
    /// continues `existing`.
    fn start(&self, existing: &[u8]) -> (r: Result<ZipWriter, ZipError>)
        ensures
            match start_of(existing@, self.options().append) {
                Ok((b, e)) => r.is_ok() && r.unwrap().bytes() == b && models(
                    r.unwrap().spec_entries(),
                ) == e && r.unwrap().wf() && !r.unwrap().finalized() && r.unwrap().level()
                    == self.options().compression_level,
                Err(reason) => r.is_err() && is_append_error(
                    r.unwrap_err(),
                    self.zipfile(),
                    reason,
                ),
            },
    {
        if self.options.append {
            let r = ZipWriter::new_with_append(
                self.zipfile.as_str(),
                existing,
                self.options.compression_level,
            );
            r
        } else {
            let r = ZipWriter::new(self.zipfile.as_str(), self.options.compression_level);
            proof {
                assert(r.unwrap().bytes() =~= Seq::<u8>::empty());
                assert(models(r.unwrap().spec_entries()) =~= Seq::<EntryModel>::empty());
            }
            r
        }
    }

    /// Builds the archive from `sources`, added in their order to a new
    /// archive or, when appending, to the entries of `existing`; returns the
    /// bytes of the archive. Fails when `existing` is to be continued and
    /// cannot be, and when an entry cannot be added; nothing is returned
    /// then.
    pub fn call_zip_zip(&self, existing: &[u8], sources: &[SourceFile]) -> (r: Result<
        Vec<u8>,
        ZipError,
    >)
        ensures
            build_outcome(
                r,
                self.zipfile(),
                existing@,
                self.options().append,
                sources@,
                self.options().compression_level.number(),
            ),
    {
        let mut writer = match self.start(existing) {
            Ok(writer) => writer,
            Err(e) => {
                return Err(e);
            },
        };
        match add_sources(&mut writer, sources) {
            Ok(()) => {},
            Err(e) => {
                return Err(e);
            },
        }
        proof {
            writer.lemma_wf();
        }
        match writer.finalize() {
            Ok(()) => {},
            Err(e) => {
                return Err(e);
            },
        }
        Ok(writer.into_bytes())
    }

    /// Builds the archive and returns its bytes with its name and the
    /// warnings. Without sources, and unless an archive is continued, the
    /// archive is the empty one.
    pub fn build_with_warnings(
        self,
        existing: &[u8],
        sources: &[SourceFile],
        warnings: Vec<ZipWarning>,
    ) -> (r: Result<(Vec<u8>, ZipBuildOutput), ZipError>)
        ensures
            r.is_ok() ==> r.unwrap().1.zipfile@ == self.zipfile() && r.unwrap().1.warnings@
                == warnings@,
            sources@.len() == 0 && !self.options().append ==> r.is_ok() && r.unwrap().0@
                == empty_archive_bytes(),
            build_outcome(
                match r {
                    Ok(built) => Ok(built.0),
                    Err(e) => Err(e),
                },
                self.zipfile(),
                existing@,
                self.options().append,
                sources@,
                self.options().compression_level.number(),
            ),
    {
        let bytes: Vec<u8> = if sources.len() == 0 && !self.options.append {
            let bytes = empty_archive();
            proof {
                lemma_empty_archive();
                assert(bytes@ =~= Seq::<u8>::empty() + directory_bytes(Seq::empty()) + eocd_bytes(
                    0,
                    0,
                    0,
                ));
            }
            bytes
        } else {
            match self.call_zip_zip(existing, sources) {
                Ok(bytes) => bytes,
                Err(e) => {
                    return Err(e);
                },
            }
        };
        Ok((bytes, ZipBuildOutput { zipfile: self.zipfile, warnings }))
    }

    /// Builds the archive and returns its bytes.
    pub fn build(self, existing: &[u8], sources: &[SourceFile]) -> (r: Result<Vec<u8>, ZipError>)
        ensures
            sources@.len() == 0 && !self.options().append ==> r.is_ok() && r.unwrap()@
                == empty_archive_bytes(),
            build_outcome(
                r,
                self.zipfile(),
                existing@,
                self.options().append,
                sources@,
                self.options().compression_level.number(),
            ),
    {
        match self.build_with_warnings(existing, sources, Vec::new()) {
            Ok(built) => Ok(built.0),
            Err(e) => Err(e),
        }
    }
}

} // verus!
