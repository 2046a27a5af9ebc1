//! Compression of whole buffers into zlib streams and back, with the
//! numbers of bytes read and written.

use vstd::prelude::*;
use vstd::string::StringExecFns;
use crate::error::ZipError;
use crate::miniz::deflate::{compress_to_buffer, zlib_stream, lemma_empty_round_trip};
use crate::miniz::inflate::{
    clamp_i32, decompress_to_buffer, inflate_zlib, one_shot, InflateError,
};

verus! {

/// A buffer with the numbers of bytes read and written to make it.
#[derive(Debug, Clone)]
pub struct GzipOutput {
    pub output: Vec<u8>,
    pub bytes_read: usize,
    pub bytes_written: usize,
}

/// Where a buffer of `len` bytes is to be read from the 1-based position
/// `pos` on: `pos` may be any position in it or the one behind its end.
pub open spec fn pos_in_range(pos: int, len: int) -> bool {
    1 <= pos <= len + 1
}

/// The message of a failed decompression.
pub open spec fn inflate_failure(e: InflateError) -> Seq<char> {
    "inflate failed: "@ + e.spec_message()
}

/// Compresses `buffer` at level 6.
pub fn deflate(buffer: &[u8]) -> (r: Result<Vec<u8>, ZipError>)
    ensures
        r.is_ok(),
        r.unwrap()@ == zlib_stream(buffer@, 6),
        inflate_zlib(r.unwrap()@) == Ok::<Seq<u8>, InflateError>(buffer@),
{
    proof {
        assert(buffer@.skip(0) =~= buffer@);
    }
    match deflate_with_stats(buffer, 6, 1, None) {
        Ok(result) => Ok(result.output),
        Err(e) => Err(e),
    }
}

/// Decompresses the zlib stream `buffer`. An empty buffer decompresses to
/// nothing.
pub fn inflate(buffer: &[u8]) -> (r: Result<Vec<u8>, ZipError>)
    ensures
        if buffer@.len() == 0 {
            r.is_ok() && r.unwrap()@.len() == 0
        } else {
            match one_shot(inflate_zlib(buffer@)) {
                Ok(o) => r.is_ok() && r.unwrap()@ == o,
                Err(e) => r.is_err() && r.unwrap_err().is_generic(inflate_failure(e)),
            }
        },
{
    proof {
        assert(buffer@.skip(0) =~= buffer@);
    }
    match inflate_with_stats(buffer, 1, None) {
        Ok(result) => Ok(result.output),
        Err(e) => Err(e),
    }
}

/// Compresses what `buffer` holds from the 1-based position `pos` on, at a
/// level from 1 to 9. `size` is a hint and has no effect.
pub fn deflate_with_stats(buffer: &[u8], level: u8, pos: usize, size: Option<usize>) -> (r: Result<
    GzipOutput,
    ZipError,
>)
    ensures
        if !(1 <= level <= 9) {
            r.is_err() && r.unwrap_err().is_generic("compression level must be 1-9"@)
        } else if !pos_in_range(pos as int, buffer@.len() as int) {
            r.is_err() && r.unwrap_err().is_generic("pos is out of range"@)
        } else {
            let data = buffer@.skip(pos - 1);
            r.is_ok() && r.unwrap().output@ == zlib_stream(data, level as int) && inflate_zlib(
                r.unwrap().output@,
            ) == Ok::<Seq<u8>, InflateError>(data) && r.unwrap().bytes_read == clamp_i32(
                data.len() as int,
            ) && r.unwrap().bytes_written == clamp_i32(r.unwrap().output@.len() as int)
        },
{
    if level < 1 || level > 9 {
        return Err(ZipError::Generic(String::from_str("compression level must be 1-9")));
    }
    if pos == 0 || pos - 1 > buffer.len() {
        return Err(ZipError::Generic(String::from_str("pos is out of range")));
    }
    let data = vstd::slice::slice_subrange(buffer, pos - 1, buffer.len());
    let initial_size: usize = match size {
        Some(n) => n,
        None => data.len(),
    };
    proof {
        assert(data@ =~= buffer@.skip(pos - 1));
        lemma_empty_round_trip();
        if data@.len() == 0 {
            assert(data@ =~= Seq::<u8>::empty());
        }
    }
    match compress_to_buffer(data, level as i32, initial_size) {
        Ok(result) => Ok(
            GzipOutput {
                output: result.output,
                bytes_read: result.bytes_read,
                bytes_written: result.bytes_written,
            },
        ),
        Err(e) => Err(
            ZipError::Generic(String::from_str("deflate failed: ").concat(e.message().as_str())),
        ),
    }
}

/// Decompresses the zlib stream that `buffer` holds from the 1-based
/// position `pos` on. Nothing decompresses to nothing. `size` is a hint and
/// has no effect.
pub fn inflate_with_stats(buffer: &[u8], pos: usize, size: Option<usize>) -> (r: Result<
    GzipOutput,
    ZipError,
>)
    ensures
        if !pos_in_range(pos as int, buffer@.len() as int) {
            r.is_err() && r.unwrap_err().is_generic("pos is out of range"@)
        } else if buffer@.skip(pos - 1).len() == 0 {
            r.is_ok() && r.unwrap().output@.len() == 0 && r.unwrap().bytes_read == 0
                && r.unwrap().bytes_written == 0
        } else {
            match one_shot(inflate_zlib(buffer@.skip(pos - 1))) {
                Ok(o) => r.is_ok() && r.unwrap().output@ == o && r.unwrap().bytes_read
                    == clamp_i32(buffer@.skip(pos - 1).len() as int) && r.unwrap().bytes_written
                    == clamp_i32(o.len() as int),
                Err(e) => r.is_err() && r.unwrap_err().is_generic(inflate_failure(e)),
            }
        },
{
    if pos == 0 || pos - 1 > buffer.len() {
        return Err(ZipError::Generic(String::from_str("pos is out of range")));
    }
    let data = vstd::slice::slice_subrange(buffer, pos - 1, buffer.len());
    let initial_size: usize = match size {
        Some(n) => n,
        None => data.len(),
    };
    proof {
        assert(data@ =~= buffer@.skip(pos - 1));
    }
    match decompress_to_buffer(data, initial_size) {
        Ok(result) => Ok(
            GzipOutput {
                output: result.output,
                bytes_read: result.bytes_read,
                bytes_written: result.bytes_written,
            },
        ),
        Err(e) => Err(ZipError::Generic(String::from_str("inflate failed: ").concat(e.message()))),
    }
}


} // verus!
