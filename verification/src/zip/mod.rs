//! The ZIP container: the byte layout of an archive, reading its index, and
//! writing entries, central directory and end record.

use vstd::prelude::*;
use crate::error::ZipError;
use crate::zip::builder::{build_outcome, SourceFile, ZipBuilder};

pub mod builder;
pub mod data;
pub mod dostime;
pub mod format;
pub mod names;
pub mod numerals;
pub mod reader;
pub mod round_trip;
pub mod writer;

verus! {

/// The bytes of the archive `existing`, named `zipfile`, continued with
/// `sources` in their order, compressed at level 6: the new entries stand
/// where its central directory stood, and a new central directory that
/// lists the old entries and the new ones follows them. Fails where
/// `existing` cannot be continued or an entry cannot be added.
pub fn append(zipfile: &str, existing: &[u8], sources: &[SourceFile]) -> (r: Result<
    Vec<u8>,
    ZipError,
>)
    ensures
        build_outcome(r, zipfile@, existing@, true, sources@, 6),
{
    let builder = ZipBuilder::new(zipfile)?.append(true);
    builder.build(existing, sources)
}

} // verus!
