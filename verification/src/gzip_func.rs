//! The two calls that most users of the zlib codec need.

use vstd::prelude::*;
use crate::error::ZipError;
use crate::gzip;
use crate::gzip::inflate_failure;
use crate::miniz::deflate::zlib_stream;
use crate::miniz::inflate::{inflate_zlib, one_shot, InflateError};

verus! {

/// Compresses `data` to a zlib stream at level 6.
pub fn compress(data: &[u8]) -> (r: Result<Vec<u8>, ZipError>)
    ensures
        r.is_ok(),
        r.unwrap()@ == zlib_stream(data@, 6),
        inflate_zlib(r.unwrap()@) == Ok::<Seq<u8>, InflateError>(data@),
{
    gzip::deflate(data)
}

/// Decompresses the zlib stream `data`. An empty buffer decompresses to
/// nothing.
pub fn decompress(data: &[u8]) -> (r: Result<Vec<u8>, ZipError>)
    ensures
        if data@.len() == 0 {
            r.is_ok() && r.unwrap()@.len() == 0
        } else {
            match one_shot(inflate_zlib(data@)) {
                Ok(o) => r.is_ok() && r.unwrap()@ == o,
                Err(e) => r.is_err() && r.unwrap_err().is_generic(inflate_failure(e)),
            }
        },
{
    gzip::inflate(data)
}

} // verus!
