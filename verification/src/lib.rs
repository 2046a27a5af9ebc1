//! DEFLATE, zlib framing and the ZIP container, with machine-checked contracts.
//!
//! The codec works on byte buffers that the caller owns. Every public function
//! states what it returns over mathematical models of its inputs: bit
//! sequences for the compressed stream, byte sequences for archives.

use vstd::prelude::*;
use crate::error::{ZipEntry, ZipError};
use crate::unzip::archive::{lists_all, ZipArchive};
use crate::unzip::extractor::{extraction, ExtractStep, Extractor, ExtractorOptions};
use crate::zip::builder::{build_outcome, SourceFile, ZipBuilder};
use crate::zip::reader::{archive_index, eocd_position, is_corrupt_archive};
use crate::zip::writer::empty_archive_bytes;

pub mod error;
pub mod gzip;
pub mod gzip_func;
pub mod miniz;
pub mod platform;
pub mod process;
pub mod unzip;
pub mod zip;

verus! {

/// The version of the library.
pub const VERSION: &'static str = "0.1.0";

/// The bytes of a new archive, named `zipfile`, that holds `sources` in
/// their order, compressed at level 6. Without sources it is the empty
/// archive.
pub fn create(zipfile: &str, sources: &[SourceFile]) -> (r: Result<Vec<u8>, ZipError>)
    ensures
        sources@.len() == 0 ==> r.is_ok() && r.unwrap()@ == empty_archive_bytes(),
        build_outcome(r, zipfile@, Seq::empty(), false, sources@, 6),
{
    let builder = ZipBuilder::new(zipfile)?;
    let none: Vec<u8> = Vec::new();
    builder.build(none.as_slice(), sources)
}

/// The steps that bring every entry of the archive `data`, named `zipfile`,
/// out under the directory `exdir`, in the order of its central directory,
/// as for a directory in which none of them is there yet.
pub fn extract(zipfile: &str, data: &[u8], exdir: &str) -> (r: Result<Vec<ExtractStep>, ZipError>)
    ensures
        exists|options: ExtractorOptions|
            #![trigger extraction(r, zipfile@, data@, options, Seq::empty())]
            {
                &&& options.overwrite
                &&& !options.junk_paths
                &&& options.exdir@ == exdir@
                &&& options.files.is_none()
                &&& extraction(r, zipfile@, data@, options, Seq::empty())
            },
{
    let extractor = Extractor::new(zipfile)?.exdir(exdir);
    let ghost options = extractor.options();
    let none: Vec<bool> = Vec::new();
    let r = extractor.extract(data, none.as_slice());
    assert(extraction(r, zipfile@, data@, options, Seq::empty()));
    r
}

/// The entries of the archive `data`, named `zipfile`, in the order of its
/// central directory.
pub fn list(zipfile: &str, data: &[u8]) -> (r: Result<Vec<ZipEntry>, ZipError>)
    ensures
        match archive_index(data@, eocd_position(data@)) {
            Ok((entries, offset)) => r.is_ok() && lists_all(r.unwrap()@, entries),
            Err(reason) => r.is_err() && is_corrupt_archive(r.unwrap_err(), zipfile@, reason),
        },
{
    ZipArchive::list(zipfile, data)
}

} // verus!
