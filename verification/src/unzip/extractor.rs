//! What to extract from an archive and where to: the steps that bring the
//! entries of an archive to a directory.

use vstd::prelude::*;
use vstd::string::StringExecFns;
use crate::error::ZipError;
use crate::unzip::archive::{
    entry_content, extract_entry, extract_permissions, is_corrupt_entry, is_symlink_attr,
    permissions_of,
};
use crate::zip::data::{base_of, basename, join_key, joined};
use crate::zip::dostime::{dos_timestamp, dos_to_system_time};
use crate::zip::names::{contains, has_part};
use crate::zip::reader::{
    archive_index, eocd_position, is_corrupt_archive, models, EntryModel,
    ZipEntryInfo, ZipReader,
};

verus! {

/// How to extract.
#[derive(Debug, Clone)]
pub struct ExtractorOptions {
    /// Whether files that exist are overwritten.
    pub overwrite: bool,
    /// Whether every entry goes to the output directory itself, under the
    /// last part of its name.
    pub junk_paths: bool,
    /// The output directory.
    pub exdir: String,
    /// The names to extract, all entries if `None`. An entry is extracted
    /// when one of the names stands in its name.
    pub files: Option<Vec<String>>,
}

impl Default for ExtractorOptions {
    fn default() -> (o: Self)
        ensures
            o.overwrite,
            !o.junk_paths,
            o.exdir@ == "."@,
            o.files.is_none(),
    {
        Self { overwrite: true, junk_paths: false, exdir: String::from_str("."), files: None }
    }
}

/// One step of an extraction.
#[derive(Debug, Clone, PartialEq, Eq)]
pub enum ExtractStep {
    /// Create the directory `path` and those above it.
    Directory { path: String },
    /// Write `data` to the file `path`, with the given permissions and
    /// modification time in seconds since 1970.
    File { path: String, data: Vec<u8>, permissions: u32, timestamp: i64 },
    /// Create at `path` a symbolic link to the path that `target` holds.
    Symlink { path: String, target: Vec<u8> },
}

/// One step of an extraction as plain values.
pub enum StepModel {
    Directory { path: Seq<char> },
    File { path: Seq<char>, data: Seq<u8>, permissions: int, timestamp: int },
    Symlink { path: Seq<char>, target: Seq<u8> },
}

impl View for ExtractStep {
    type V = StepModel;

    open spec fn view(&self) -> StepModel {
        match *self {
            ExtractStep::Directory { path } => StepModel::Directory { path: path@ },
            ExtractStep::File { path, data, permissions, timestamp } => StepModel::File {
                path: path@,
                data: data@,
                permissions: permissions as int,
                timestamp: timestamp as int,
            },
            ExtractStep::Symlink { path, target } => StepModel::Symlink {
                path: path@,
                target: target@,
            },
        }
    }
}

/// The steps as plain values.
pub open spec fn step_models(steps: Seq<ExtractStep>) -> Seq<StepModel> {
    Seq::new(steps.len(), |i: int| steps[i]@)
}

/// An extraction of one archive.
#[derive(Debug)]
pub struct Extractor {
    zipfile: String,
    options: ExtractorOptions,
}

/// One of `names` stands in `name`, or there are no names to choose by.
pub open spec fn is_wanted(names: Option<Vec<String>>, name: Seq<char>) -> bool {
    match names {
        None => true,
        Some(list) => exists|i: int| 0 <= i < list@.len() && contains(name, (#[trigger] list@[i])@),
    }
}

/// Where an entry goes: under the output directory, by its name or, where
/// paths are junked, by the last part of its name.
pub open spec fn target_path(exdir: Seq<char>, junk_paths: bool, name: Seq<char>) -> Seq<char> {
    joined(
        exdir,
        if junk_paths {
            base_of(name)
        } else {
            name
        },
    )
}

/// The step that brings out a file or a symbolic link with the content of
/// the entry `m`, or the reason why that content cannot be had.
pub open spec fn file_step(data: Seq<u8>, m: EntryModel, path: Seq<char>) -> Result<
    StepModel,
    Seq<char>,
> {
    match entry_content(data, m) {
        Err(reason) => Err(reason),
        Ok(content) => if is_symlink_attr(m.external_attr) {
            Ok(StepModel::Symlink { path, target: content })
        } else {
            Ok(
                StepModel::File {
                    path,
                    data: content,
                    permissions: permissions_of(m.external_attr, m.version_made_by, m.is_dir),
                    timestamp: dos_timestamp(m.mtime_dos as u16, m.mdate_dos as u16) as int,
                },
            )
        },
    }
}

/// The index of the first of `entries` from `i` on that has the name
/// `name`; their number where none has it.
pub open spec fn first_named(entries: Seq<EntryModel>, name: Seq<char>, i: int) -> int
    decreases entries.len() - i,
{
    if i < 0 || i >= entries.len() {
        entries.len() as int
    } else if entries[i].name == name {
        i
    } else {
        first_named(entries, name, i + 1)
    }
}

/// The first entry with a name stands at or before any entry with that
/// name, and no entry before it has the name.
pub proof fn lemma_first_named(entries: Seq<EntryModel>, name: Seq<char>, i: int, k: int)
    requires
        0 <= i <= k < entries.len(),
        entries[k].name == name,
    ensures
        i <= first_named(entries, name, i) <= k,
        entries[first_named(entries, name, i)].name == name,
        forall|j: int| i <= j < first_named(entries, name, i) ==> (#[trigger] entries[j]).name != name,
    decreases k - i,
{
    if entries[i].name != name {
        lemma_first_named(entries, name, i + 1, k);
    }
}

/// Whether something stands already where entry `i` goes: what `present`
/// says of it, and nothing where `present` is silent.
pub open spec fn is_present(present: Seq<bool>, i: int) -> bool {
    0 <= i < present.len() && present[i]
}

/// What is done for entry `i`: nothing if it is not wanted; for a directory
/// a directory is made; nothing if something stands where the entry goes
/// and is not to be overwritten; else a file or a symbolic link is made
/// with the content of the first entry of its name. Or the name and the
/// reason why that content cannot be had.
#[verifier::opaque]
pub open spec fn step_at(
    data: Seq<u8>,
    entries: Seq<EntryModel>,
    options: ExtractorOptions,
    present: Seq<bool>,
    i: int,
) -> Result<Option<StepModel>, (Seq<char>, Seq<char>)> {
    let m = entries[i];
    let path = target_path(options.exdir@, options.junk_paths, m.name);
    if !is_wanted(options.files, m.name) {
        Ok(None)
    } else if m.is_dir {
        Ok(Some(StepModel::Directory { path }))
    } else if is_present(present, i) && !options.overwrite {
        Ok(None)
    } else {
        match file_step(data, entries[first_named(entries, m.name, 0)], path) {
            Ok(step) => Ok(Some(step)),
            Err(reason) => Err((m.name, reason)),
        }
    }
}

/// The steps for the first `n` entries in their order; or the name of the
/// first entry whose content is needed and cannot be had, and the reason.
pub open spec fn plan(
    data: Seq<u8>,
    entries: Seq<EntryModel>,
    options: ExtractorOptions,
    present: Seq<bool>,
    n: int,
) -> Result<Seq<StepModel>, (Seq<char>, Seq<char>)>
    decreases n,
{
    if n <= 0 {
        Ok(Seq::empty())
    } else {
        match plan(data, entries, options, present, n - 1) {
            Err(e) => Err(e),
            Ok(steps) => match step_at(data, entries, options, present, n - 1) {
                Err(e) => Err(e),
                Ok(None) => Ok(steps),
                Ok(Some(step)) => Ok(steps.push(step)),
            },
        }
    }
}

/// `r` is what extracting the archive `data`, named `zipfile`, gives under
/// `options` where `present` says at which paths something stands already:
/// the plan for all its entries; or the error of an archive whose index
/// cannot be read; or that of the first entry whose content is needed and
/// cannot be had.
pub open spec fn extraction(
    r: Result<Vec<ExtractStep>, ZipError>,
    zipfile: Seq<char>,
    data: Seq<u8>,
    options: ExtractorOptions,
    present: Seq<bool>,
) -> bool {
    match archive_index(data, eocd_position(data)) {
        Err(reason) => r.is_err() && is_corrupt_archive(r.unwrap_err(), zipfile, reason),
        Ok((entries, offset)) => match plan(
            data,
            entries,
            options,
            present,
            entries.len() as int,
        ) {
            Ok(steps) => r.is_ok() && step_models(r.unwrap()@) == steps,
            Err((name, reason)) => r.is_err() && is_corrupt_entry(
                r.unwrap_err(),
                name,
                zipfile,
                reason,
            ),
        },
    }
}

/// A plan that fails for some entries fails in the same way for more.
pub proof fn lemma_plan_fails(
    data: Seq<u8>,
    entries: Seq<EntryModel>,
    options: ExtractorOptions,
    present: Seq<bool>,
    i: int,
    n: int,
)
    requires
        i <= n,
        plan(data, entries, options, present, i).is_err(),
    ensures
        plan(data, entries, options, present, n) == plan(data, entries, options, present, i),
    decreases n - i,
{
    if i < n {
        lemma_plan_fails(data, entries, options, present, i, n - 1);
    }
}

impl Extractor {
    /// The name of the archive.
    pub closed spec fn zipfile(&self) -> Seq<char> {
        self.zipfile@
    }

    /// How to extract.
    pub closed spec fn options(&self) -> ExtractorOptions {
        self.options
    }

    /// An extraction of the archive that `zipfile` names: of all entries,
    /// with their paths, to the directory `.`, overwriting.
    pub fn new(zipfile: &str) -> (r: Result<Self, ZipError>)
        ensures
            r.is_ok(),
            r.unwrap().zipfile() == zipfile@,
            r.unwrap().options().overwrite,
            !r.unwrap().options().junk_paths,
            r.unwrap().options().exdir@ == "."@,
            r.unwrap().options().files.is_none(),
    {
        Ok(Self { zipfile: String::from_str(zipfile), options: ExtractorOptions::default() })
    }

    /// Sets whether files that exist are overwritten.
    pub fn overwrite(self, overwrite: bool) -> (e: Self)
        ensures
            e.zipfile() == self.zipfile(),
            e.options() == (ExtractorOptions { overwrite, ..self.options() }),
    {
        let mut e = self;
        e.options.overwrite = overwrite;
        e
    }

    /// Sets whether paths are junked.
    pub fn junk_paths(self, junk_paths: bool) -> (e: Self)
        ensures
            e.zipfile() == self.zipfile(),
            e.options() == (ExtractorOptions { junk_paths, ..self.options() }),
    {
        let mut e = self;
        e.options.junk_paths = junk_paths;
        e
    }

    /// Sets the output directory.
    pub fn exdir(self, exdir: &str) -> (e: Self)
        ensures
            e.zipfile() == self.zipfile(),
            e.options().exdir@ == exdir@,
            e.options().overwrite == self.options().overwrite,
            e.options().junk_paths == self.options().junk_paths,
            e.options().files == self.options().files,
    {
        let mut e = self;
        e.options.exdir = String::from_str(exdir);
        e
    }

    /// Sets the names to extract.
    pub fn files(self, files: &[String]) -> (e: Self)
        ensures
            e.zipfile() == self.zipfile(),
            e.options().files.is_some(),
            e.options().files.unwrap()@.len() == files@.len(),
            forall|i: int|
                0 <= i < files@.len() ==> (#[trigger] e.options().files.unwrap()@[i])@ == files@[i]@,
            e.options().overwrite == self.options().overwrite,
            e.options().junk_paths == self.options().junk_paths,
            e.options().exdir == self.options().exdir,
    {
        let mut names: Vec<String> = Vec::new();
        let mut i: usize = 0;
        while i < files.len()
            invariant
                i <= files@.len(),
                names@.len() == i,
                forall|j: int| 0 <= j < i ==> (#[trigger] names@[j])@ == files@[j]@,
            decreases files@.len() - i,
        {
            names.push(files[i].clone());
            i = i + 1;
        }
        let mut e = self;
        e.options.files = Some(names);
        e
    }

    /// Whether the entry with the given name is to be extracted.
    #[verifier::loop_isolation(false)]
    pub fn wanted(&self, name: &str) -> (b: bool)
        ensures
            b == is_wanted(self.options().files, name@),
    {
        match &self.options.files {
            None => true,
            Some(list) => {
                let mut i: usize = 0;
                while i < list.len()
                    invariant
                        i <= list@.len(),
                        forall|j: int| 0 <= j < i ==> !contains(name@, (#[trigger] list@[j])@),
                    decreases list@.len() - i,
                {
                    if has_part(name, list[i].as_str()) {
                        proof {
                            assert(contains(name@, list@[i as int]@));
                        }
                        return true;
                    }
                    i = i + 1;
                }
                false
            },
        }
    }

    /// Where the entry with the given name goes.
    pub fn output_path(&self, name: &str) -> (path: String)
        ensures
            path@ == target_path(self.options().exdir@, self.options().junk_paths, name@),
    {
        if self.options.junk_paths {
            let base = basename(name);
            join_key(self.options.exdir.as_str(), base.as_str())
        } else {
            join_key(self.options.exdir.as_str(), name)
        }
    }

    /// The paths to which the entries of the archive `data` go, in the order
    /// of its central directory.
    pub fn targets(&self, data: &[u8]) -> (r: Result<Vec<String>, ZipError>)
        ensures
            match archive_index(data@, eocd_position(data@)) {
                Err(reason) => r.is_err() && is_corrupt_archive(
                    r.unwrap_err(),
                    self.zipfile(),
                    reason,
                ),
                Ok((entries, offset)) => r.is_ok() && r.unwrap()@.len() == entries.len()
                    && forall|i: int|
                    0 <= i < entries.len() ==> (#[trigger] r.unwrap()@[i])@ == target_path(
                        self.options().exdir@,
                        self.options().junk_paths,
                        entries[i].name,
                    ),
            },
    {
        let reader = match ZipReader::open(self.zipfile.as_str(), data) {
            Ok(reader) => reader,
            Err(e) => {
                return Err(e);
            },
        };
        let found = reader.entries();
        let mut paths: Vec<String> = Vec::new();
        let mut i: usize = 0;
        while i < found.len()
            invariant
                i <= found@.len(),
                paths@.len() == i,
                forall|j: int|
                    0 <= j < i ==> (#[trigger] paths@[j])@ == target_path(
                        self.options().exdir@,
                        self.options().junk_paths,
                        models(found@)[j].name,
                    ),
            decreases found@.len() - i,
        {
            let path = self.output_path(found[i].name.as_str());
            proof {
                assert(models(found@)[i as int] == found@[i as int]@);
            }
            paths.push(path);
            i = i + 1;
        }
        Ok(paths)
    }

    /// What is done for entry `i` of `found`, the entries of the archive
    /// `data`.
    fn step(&self, data: &[u8], found: &[ZipEntryInfo], present: &[bool], i: usize) -> (r: Result<
        Option<ExtractStep>,
        ZipError,
    >)
        requires
            i < found@.len(),
        ensures
            match step_at(data@, models(found@), self.options(), present@, i as int) {
                Ok(None) => r.is_ok() && r.unwrap().is_none(),
                Ok(Some(step)) => r.is_ok() && r.unwrap().is_some() && r.unwrap().unwrap()@ == step,
                Err((name, reason)) => r.is_err() && is_corrupt_entry(
                    r.unwrap_err(),
                    name,
                    self.zipfile(),
                    reason,
                ),
            },
    {
        reveal(step_at);
        let there: bool = i < present.len() && present[i];
        let info = &found[i];
        proof {
            assert(models(found@)[i as int] == info@);
        }
        if !self.wanted(info.name.as_str()) {
            return Ok(None);
        }
        let path = self.output_path(info.name.as_str());
        if info.is_dir {
            return Ok(Some(ExtractStep::Directory { path }));
        }
        if there && !self.options.overwrite {
            return Ok(None);
        }
        let j: usize = first_with_name(found, i);
        let first = &found[j];
        proof {
            assert(models(found@)[j as int] == first@);
        }
        match extract_entry(data, first, self.zipfile.as_str()) {
            Err(e) => Err(e),
            Ok(file) => {
                if file.is_symlink {
                    Ok(Some(ExtractStep::Symlink { path, target: file.data }))
                } else {
                    Ok(
                        Some(
                            ExtractStep::File {
                                path,
                                data: file.data,
                                permissions: extract_permissions(
                                    first.external_attr,
                                    first.version_made_by,
                                    first.is_dir,
                                ),
                                timestamp: dos_to_system_time(first.mtime_dos, first.mdate_dos),
                            },
                        ),
                    )
                }
            },
        }
    }

    /// The steps that extract the wanted entries of the archive `data`, in
    /// the order of its central directory. `present` says for each entry
    /// whether something stands already where it goes; entries of which it
    /// says nothing count as not yet there. Fails at the first entry whose
    /// content is needed and cannot be had.
    pub fn extract(self, data: &[u8], present: &[bool]) -> (r: Result<Vec<ExtractStep>, ZipError>)
        ensures
            extraction(r, self.zipfile(), data@, self.options(), present@),
    {
        let reader = match ZipReader::open(self.zipfile.as_str(), data) {
            Ok(reader) => reader,
            Err(e) => {
                return Err(e);
            },
        };
        let found = reader.entries();
        let ghost entries = models(found@);
        let mut steps: Vec<ExtractStep> = Vec::new();
        let mut i: usize = 0;
        proof {
            assert(step_models(steps@) =~= Seq::<StepModel>::empty());
        }
        while i < found.len()
            invariant
                i <= found@.len(),
                entries == models(found@),
                archive_index(data@, eocd_position(data@)) matches Ok(index) && index.0 == entries,
                plan(data@, entries, self.options(), present@, i as int) == Ok::<
                    Seq<StepModel>,
                    (Seq<char>, Seq<char>),
                >(step_models(steps@)),
            decreases found@.len() - i,
        {
            let ghost before = step_models(steps@);
            match self.step(data, found, present, i) {
                Err(e) => {
                    proof {
                        assert(plan(data@, entries, self.options(), present@, i + 1).is_err());
                        lemma_plan_fails(
                            data@,
                            entries,
                            self.options(),
                            present@,
                            i + 1,
                            entries.len() as int,
                        );
                    }
                    return Err(e);
                },
                Ok(None) => {},
                Ok(Some(step)) => {
                    let ghost model = step@;
                    steps.push(step);
                    proof {
                        assert(step_models(steps@) =~= before.push(model));
                    }
                },
            }
            i = i + 1;
        }
        Ok(steps)
    }
}

/// The index of the first of `found` that has the name of entry `i`.
fn first_with_name(found: &[ZipEntryInfo], i: usize) -> (j: usize)
    requires
        i < found@.len(),
    ensures
        j == first_named(models(found@), found@[i as int]@.name, 0),
        j <= i,
        found@[j as int]@.name == found@[i as int]@.name,
{
    let mut j: usize = 0;
    proof {
        assert(models(found@)[i as int] == found@[i as int]@);
        lemma_first_named(models(found@), found@[i as int]@.name, 0, i as int);
    }
    while j < i
        invariant
            j <= i < found@.len(),
            first_named(models(found@), found@[i as int]@.name, 0) == first_named(
                models(found@),
                found@[i as int]@.name,
                j as int,
            ),
        decreases i - j,
    {
        proof {
            assert(models(found@)[j as int] == found@[j as int]@);
        }
        if found[j].name == found[i].name {
            return j;
        }
        j = j + 1;
    }
    proof {
        assert(models(found@)[i as int] == found@[i as int]@);
    }
    i
}

} // verus!
