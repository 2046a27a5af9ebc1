//! The INFLATE decoder: what a DEFLATE stream decodes to, and the decoder
//! that computes it.

use vstd::prelude::*;
use crate::miniz::bitstream::{bits_of_bytes, lemma_bit_of_small, low_bits, lsb_value, BitReader};
use crate::miniz::huffman::{
    build_error, decode_spec, fixed_distance_lengths, fixed_distance_table, fixed_litlen_lengths,
    fixed_litlen_table, lemma_dezigzag, lemma_dist_tables, lemma_length_tables,
    lemma_two_pow_values, two_pow, HuffmanTable, DIST_BASE, DIST_EXTRA, LENGTH_BASE,
    LENGTH_DEZIGZAG, LENGTH_EXTRA,
};
use crate::miniz::lz77::copy_match;
use crate::miniz::{adler32, adler32_spec};

verus! {

/// Why decompression failed.
#[derive(Debug, Clone, Copy, PartialEq, Eq)]
pub enum InflateError {
    /// The input ends within the stream.
    NeedMoreInput,
    /// The stream is malformed.
    DecompressionFailed,
    /// The trailing checksum is not that of the output.
    Adler32Mismatch,
    /// A parameter is out of range.
    BadParam,
    /// A block consumed no input.
    CannotMakeProgress,
    /// The zlib header is invalid.
    BadZlibHeader,
    /// Bits that are no code, or a symbol that stands for nothing.
    InvalidCode,
    /// The reserved block type 3.
    InvalidBlockType,
}

impl InflateError {
    /// The message of the error.
    pub open spec fn spec_message(self) -> Seq<char> {
        match self {
            InflateError::NeedMoreInput => "Need more input"@,
            InflateError::DecompressionFailed => "Decompression failed"@,
            InflateError::Adler32Mismatch => "Adler32 checksum mismatch"@,
            InflateError::BadParam => "Bad parameter"@,
            InflateError::CannotMakeProgress => "Cannot make progress"@,
            InflateError::BadZlibHeader => "Input data is invalid"@,
            InflateError::InvalidCode => "Invalid Huffman code"@,
            InflateError::InvalidBlockType => "Invalid block type"@,
        }
    }

    /// The message of the error.
    pub fn message(&self) -> (s: &'static str)
        ensures
            s@ == self.spec_message(),
    {
        match self {
            InflateError::NeedMoreInput => "Need more input",
            InflateError::DecompressionFailed => "Decompression failed",
            InflateError::Adler32Mismatch => "Adler32 checksum mismatch",
            InflateError::BadParam => "Bad parameter",
            InflateError::CannotMakeProgress => "Cannot make progress",
            InflateError::BadZlibHeader => "Input data is invalid",
            InflateError::InvalidCode => "Invalid Huffman code",
            InflateError::InvalidBlockType => "Invalid block type",
        }
    }
}

/// A position and the output so far.
pub type Progress = (int, Seq<u8>);

/// The next multiple of 8 from `pos` on.
pub open spec fn align8(pos: int) -> int {
    ((pos + 7) / 8) * 8
}

/// The number spelt by `n` bits at `pos`, least significant first.
pub open spec fn read_num(bits: Seq<bool>, pos: int, n: int) -> Option<int> {
    if 0 <= pos && 0 <= n && pos + n <= bits.len() {
        Some(lsb_value(bits.subrange(pos, pos + n)) as int)
    } else {
        None
    }
}

/// The 15 bits at `pos`, with zeros where the input has ended.
pub open spec fn peek15(bits: Seq<bool>, pos: int) -> Seq<bool> {
    Seq::new(15, |i: int| if pos + i < bits.len() { bits[pos + i] } else { false })
}

/// The symbol whose code stands at `pos`, and the position after it.
pub open spec fn read_symbol(lengths: Seq<u8>, bits: Seq<bool>, pos: int) -> Result<
    (int, int),
    InflateError,
> {
    match decode_spec(lengths, peek15(bits, pos)) {
        Some((s, l)) => if l < 1 {
            Err(InflateError::InvalidCode)
        } else if pos + l <= bits.len() {
            Ok((s, pos + l))
        } else {
            Err(InflateError::NeedMoreInput)
        },
        None => if pos + 15 <= bits.len() {
            Err(InflateError::InvalidCode)
        } else {
            Err(InflateError::NeedMoreInput)
        },
    }
}

/// The symbols of one compressed block from `pos` on, up to and including
/// its end-of-block symbol: the position after it and the output.
pub open spec fn inflate_symbols(
    lit: Seq<u8>,
    dist: Seq<u8>,
    bits: Seq<bool>,
    pos: int,
    out: Seq<u8>,
) -> Result<Progress, InflateError>
    decreases bits.len() - pos,
{
    match read_symbol(lit, bits, pos) {
        Err(e) => Err(e),
        Ok((sym, at1)) => if at1 <= pos {
            Err(InflateError::CannotMakeProgress)
        } else if sym < 256 {
            inflate_symbols(lit, dist, bits, at1, out.push(sym as u8))
        } else if sym == 256 {
            Ok((at1, out))
        } else if sym > 285 {
            Err(InflateError::InvalidCode)
        } else {
            match read_num(bits, at1, LENGTH_EXTRA[sym - 257] as int) {
                None => Err(InflateError::NeedMoreInput),
                Some(extra) => {
                    let length = LENGTH_BASE[sym - 257] + extra;
                    let at2 = at1 + LENGTH_EXTRA[sym - 257];
                    match read_symbol(dist, bits, at2) {
                        Err(e) => Err(e),
                        Ok((ds, at3)) => if ds >= 30 || ds < 0 {
                            Err(InflateError::InvalidCode)
                        } else {
                            match read_num(bits, at3, DIST_EXTRA[ds] as int) {
                                None => Err(InflateError::NeedMoreInput),
                                Some(dextra) => {
                                    let distance = DIST_BASE[ds] + dextra;
                                    let at4 = at3 + DIST_EXTRA[ds];
                                    if distance > out.len() {
                                        Err(InflateError::DecompressionFailed)
                                    } else if at4 <= pos {
                                        Err(InflateError::CannotMakeProgress)
                                    } else {
                                        inflate_symbols(
                                            lit,
                                            dist,
                                            bits,
                                            at4,
                                            copy_match(out, length, distance),
                                        )
                                    }
                                },
                            }
                        },
                    }
                },
            }
        },
    }
}

/// A stored block whose header ended at `pos`: after the padding to a byte
/// boundary come the length, its complement, and that many bytes.
pub open spec fn inflate_stored(data: Seq<u8>, pos: int, out: Seq<u8>) -> Result<
    Progress,
    InflateError,
> {
    let bits = bits_of_bytes(data);
    let p = align8(pos);
    match read_num(bits, p, 16) {
        None => Err(InflateError::NeedMoreInput),
        Some(len) => match read_num(bits, p + 16, 16) {
            None => Err(InflateError::NeedMoreInput),
            Some(nlen) => if len + nlen != 65535 {
                Err(InflateError::DecompressionFailed)
            } else if p / 8 + 4 + len > data.len() {
                Err(InflateError::NeedMoreInput)
            } else {
                Ok((p + 32 + 8 * len, out + data.subrange(p / 8 + 4, p / 8 + 4 + len)))
            },
        },
    }
}

/// The lengths of the code-length code after `i` of them were read, three
/// bits each from `pos` on, in the order of `LENGTH_DEZIGZAG`.
pub open spec fn code_length_lengths(bits: Seq<bool>, pos: int, i: int) -> Seq<u8>
    decreases i,
{
    if i <= 0 {
        Seq::new(19, |j: int| 0u8)
    } else {
        code_length_lengths(bits, pos, i - 1).update(
            LENGTH_DEZIGZAG[i - 1] as int,
            lsb_value(bits.subrange(pos + 3 * (i - 1), pos + 3 * i)) as u8,
        )
    }
}

/// `acc` followed by `n` times `v`, cut off at `total` entries.
pub open spec fn repeat_capped(acc: Seq<u8>, v: u8, n: int, total: int) -> Seq<u8> {
    let room = total - acc.len();
    let count = if n < room { n } else { room };
    acc + Seq::new(count as nat, |j: int| v)
}

/// The code lengths of a dynamic block, decoded with the code-length code
/// `cl` from `pos` on until `total` lengths are known. Symbols below 16 are
/// lengths; 16 repeats the previous length 3 to 6 times, 17 repeats zero 3 to
/// 10 times, 18 repeats zero 11 to 138 times.
pub open spec fn read_code_lengths(
    cl: Seq<u8>,
    bits: Seq<bool>,
    pos: int,
    total: int,
    acc: Seq<u8>,
) -> Result<Progress, InflateError>
    decreases total - acc.len(),
{
    if acc.len() >= total {
        Ok((pos, acc))
    } else {
        match read_symbol(cl, bits, pos) {
            Err(e) => Err(e),
            Ok((sym, at1)) => if sym < 16 {
                read_code_lengths(cl, bits, at1, total, acc.push(sym as u8))
            } else if sym == 16 {
                match read_num(bits, at1, 2) {
                    None => Err(InflateError::NeedMoreInput),
                    Some(extra) => {
                        let prev = if acc.len() > 0 { acc.last() } else { 0u8 };
                        read_code_lengths(
                            cl,
                            bits,
                            at1 + 2,
                            total,
                            repeat_capped(acc, prev, 3 + extra, total),
                        )
                    },
                }
            } else if sym == 17 {
                match read_num(bits, at1, 3) {
                    None => Err(InflateError::NeedMoreInput),
                    Some(extra) => read_code_lengths(
                        cl,
                        bits,
                        at1 + 3,
                        total,
                        repeat_capped(acc, 0, 3 + extra, total),
                    ),
                }
            } else if sym == 18 {
                match read_num(bits, at1, 7) {
                    None => Err(InflateError::NeedMoreInput),
                    Some(extra) => read_code_lengths(
                        cl,
                        bits,
                        at1 + 7,
                        total,
                        repeat_capped(acc, 0, 11 + extra, total),
                    ),
                }
            } else {
                Err(InflateError::InvalidCode)
            },
        }
    }
}

/// The two codes that the header of a dynamic block at `pos` describes, and
/// the position after the header.
pub open spec fn dynamic_tables(bits: Seq<bool>, pos: int) -> Result<
    (int, Seq<u8>, Seq<u8>),
    InflateError,
> {
    match (read_num(bits, pos, 5), read_num(bits, pos + 5, 5), read_num(bits, pos + 10, 4)) {
        (Some(a), Some(b), Some(c)) => {
            let hlit = a + 257;
            let hdist = b + 1;
            let hclen = c + 4;
            if pos + 14 + 3 * hclen > bits.len() {
                Err(InflateError::NeedMoreInput)
            } else {
                let cl = code_length_lengths(bits, pos + 14, hclen);
                if build_error(cl).is_some() {
                    Err(InflateError::DecompressionFailed)
                } else {
                    match read_code_lengths(
                        cl,
                        bits,
                        pos + 14 + 3 * hclen,
                        hlit + hdist,
                        Seq::empty(),
                    ) {
                        Err(e) => Err(e),
                        Ok((p, all)) => {
                            let lit = all.take(hlit);
                            let dist = all.skip(hlit);
                            if build_error(lit).is_some() || build_error(dist).is_some() {
                                Err(InflateError::DecompressionFailed)
                            } else {
                                Ok((p, lit, dist))
                            }
                        },
                    }
                }
            }
        },
        _ => Err(InflateError::NeedMoreInput),
    }
}

/// One block from its three header bits at `pos` on: the position after the
/// block and the output.
#[verifier::opaque]
pub open spec fn inflate_block(data: Seq<u8>, pos: int, out: Seq<u8>) -> Result<
    Progress,
    InflateError,
> {
    let bits = bits_of_bytes(data);
    match read_num(bits, pos + 1, 2) {
        None => Err(InflateError::NeedMoreInput),
        Some(block_type) => if block_type == 0 {
            inflate_stored(data, pos + 3, out)
        } else if block_type == 1 {
            inflate_symbols(fixed_litlen_lengths(), fixed_distance_lengths(), bits, pos + 3, out)
        } else if block_type == 2 {
            match dynamic_tables(bits, pos + 3) {
                Err(e) => Err(e),
                Ok((p, lit, dist)) => inflate_symbols(lit, dist, bits, p, out),
            }
        } else {
            Err(InflateError::InvalidBlockType)
        },
    }
}

/// The blocks from `pos` on, up to and including the first one that is
/// marked final.
pub open spec fn inflate_blocks(data: Seq<u8>, pos: int, out: Seq<u8>) -> Result<
    Progress,
    InflateError,
>
    decreases 8 * data.len() as int - pos,
{
    if pos < 0 || pos + 3 > 8 * data.len() as int {
        Err(InflateError::NeedMoreInput)
    } else {
        let r = inflate_block(data, pos, out);
        if r.is_err() || bits_of_bytes(data)[pos] {
            r
        } else if r.unwrap().0 <= pos || r.unwrap().0 > 8 * data.len() {
            Err(InflateError::CannotMakeProgress)
        } else {
            inflate_blocks(data, r.unwrap().0, r.unwrap().1)
        }
    }
}

/// A raw DEFLATE stream decoded.
pub open spec fn inflate_raw(data: Seq<u8>) -> Result<Seq<u8>, InflateError> {
    match inflate_blocks(data, 0, Seq::empty()) {
        Err(e) => Err(e),
        Ok((p, out)) => Ok(out),
    }
}

/// The two header bytes do not announce a DEFLATE stream with a window of
/// at most 32768 bytes, a valid check value and no preset dictionary.
pub open spec fn zlib_header_invalid(cmf: u8, flg: u8) -> bool {
    ||| cmf % 16 != 8
    ||| cmf / 16 > 7
    ||| (cmf * 256 + flg) % 31 != 0
    ||| (flg / 32) % 2 == 1
}

/// Four bytes at `at` as a number, most significant byte first.
pub open spec fn be32(data: Seq<u8>, at: int) -> int {
    data[at] * 0x100_0000 + data[at + 1] * 0x1_0000 + data[at + 2] * 0x100 + data[at + 3]
}

/// A zlib stream decoded: the header, the blocks, and after the padding to a
/// byte boundary the Adler-32 checksum of the output.
pub open spec fn inflate_zlib(data: Seq<u8>) -> Result<Seq<u8>, InflateError> {
    if data.len() < 2 {
        Err(InflateError::NeedMoreInput)
    } else if zlib_header_invalid(data[0], data[1]) {
        Err(InflateError::BadZlibHeader)
    } else {
        match inflate_blocks(data, 16, Seq::empty()) {
            Err(e) => Err(e),
            Ok((p, out)) => {
                let q = align8(p) / 8;
                if q + 4 > data.len() {
                    Err(InflateError::NeedMoreInput)
                } else if be32(data, q) != adler32_spec(1, out) {
                    Err(InflateError::Adler32Mismatch)
                } else {
                    Ok(out)
                }
            },
        }
    }
}

/// A number spelt by `n` bits is below `2^n`.
pub proof fn lemma_lsb_value_two_pow(bits: Seq<bool>)
    ensures
        lsb_value(bits) < two_pow(bits.len() as int),
    decreases bits.len(),
{
    if bits.len() > 0 {
        lemma_lsb_value_two_pow(bits.skip(1));
    }
}

/// Reads a number of `n` bits.
fn get_bits(reader: &mut BitReader, n: u8) -> (r: Result<u32, InflateError>)
    requires
        old(reader).wf(),
        n <= 32,
    ensures
        final(reader).wf(),
        final(reader).data() == old(reader).data(),
        match read_num(old(reader).bits(), old(reader).bit_pos(), n as int) {
            Some(v) => r == Ok::<u32, InflateError>(v as u32) && v < two_pow(n as int)
                && final(reader).bit_pos() == old(reader).bit_pos() + n,
            None => r == Err::<u32, InflateError>(InflateError::NeedMoreInput)
                && final(reader).bit_pos() == old(reader).bit_pos(),
        },
{
    proof {
        reader.lemma_bit_pos_in_range();
        if reader.bit_pos() + n <= reader.bits().len() {
            lemma_lsb_value_two_pow(
                reader.bits().subrange(reader.bit_pos(), reader.bit_pos() + n),
            );
        }
    }
    match reader.read_bits(n) {
        Some(v) => Ok(v),
        None => Err(InflateError::NeedMoreInput),
    }
}

/// Decodes one symbol of the code of `table`.
fn decode_huffman_symbol_with_table(reader: &mut BitReader, table: &HuffmanTable) -> (r: Result<
    u16,
    InflateError,
>)
    requires
        old(reader).wf(),
        table.wf(),
    ensures
        final(reader).wf(),
        final(reader).data() == old(reader).data(),
        match read_symbol(table.lengths(), old(reader).bits(), old(reader).bit_pos()) {
            Ok((s, p)) => r == Ok::<u16, InflateError>(s as u16) && 0 <= s < table.lengths().len()
                && s < 512 && final(reader).bit_pos() == p && old(reader).bit_pos() < p <= old(reader).bits().len(),
            Err(e) => r == Err::<u16, InflateError>(e),
        },
{
    proof {
        table.lemma_wf();
    }
    reader.fill_bits(15);
    let buf: u64 = reader.get_bit_buf();
    let avail: u8 = reader.get_num_bits();
    proof {
        reader.lemma_bit_pos_in_range();
        let bits = reader.bits();
        let pos = reader.bit_pos();
        assert(low_bits(buf, 15) =~= peek15(bits, pos)) by {
            assert forall|i: int| 0 <= i < 15 implies low_bits(buf, 15)[i] == peek15(bits, pos)[i] by {
                if i < avail {
                    assert(low_bits(buf, avail as int)[i] == bits.subrange(pos, pos + avail)[i]);
                } else {
                    lemma_bit_of_small(buf, avail as u64, i as u64);
                }
            }
        }
    }
    let decoded = table.decode_with_bits(buf, avail);
    let len: u8 = decoded.1;
    if len == 0 {
        if avail >= 15 {
            Err(InflateError::InvalidCode)
        } else {
            Err(InflateError::NeedMoreInput)
        }
    } else if len > avail {
        Err(InflateError::NeedMoreInput)
    } else {
        reader.skip_bits(len);
        Ok(decoded.0)
    }
}

/// Appends `length` bytes copied from `distance` back, byte by byte.
fn lz77_copy(out: &mut Vec<u8>, length: usize, distance: usize)
    requires
        1 <= distance <= old(out)@.len(),
    ensures
        final(out)@ == copy_match(old(out)@, length as int, distance as int),
{
    let mut i: usize = 0;
    while i < length
        invariant
            i <= length,
            1 <= distance <= out@.len(),
            copy_match(out@, length - i, distance as int) == copy_match(
                old(out)@,
                length as int,
                distance as int,
            ),
        decreases length - i,
    {
        let byte: u8 = out[out.len() - distance];
        out.push(byte);
        i = i + 1;
    }
}

/// Decodes the symbols of one compressed block up to its end-of-block
/// symbol.
fn decompress_compressed_block(
    reader: &mut BitReader,
    out: &mut Vec<u8>,
    lit: &HuffmanTable,
    dist: &HuffmanTable,
) -> (r: Result<(), InflateError>)
    requires
        old(reader).wf(),
        lit.wf(),
        dist.wf(),
    ensures
        final(reader).wf(),
        final(reader).data() == old(reader).data(),
        match inflate_symbols(
            lit.lengths(),
            dist.lengths(),
            old(reader).bits(),
            old(reader).bit_pos(),
            old(out)@,
        ) {
            Ok((p, o)) => r.is_ok()
                && final(reader).bit_pos() == p
                && final(out)@ == o
                && old(reader).bit_pos() < p <= old(reader).bits().len(),
            Err(e) => r == Err::<(), InflateError>(e),
        },
{
    let ghost bits = reader.bits();
    let ghost goal = inflate_symbols(
        lit.lengths(),
        dist.lengths(),
        bits,
        reader.bit_pos(),
        out@,
    );
    let ghost start = reader.bit_pos();
    proof {
        reader.lemma_bit_pos_in_range();
    }
    loop
        invariant
            reader.wf(),
            lit.wf(),
            dist.wf(),
            reader.data() == old(reader).data(),
            bits == reader.bits(),
            start <= reader.bit_pos() <= bits.len(),
            goal == inflate_symbols(
                lit.lengths(),
                dist.lengths(),
                bits,
                old(reader).bit_pos(),
                old(out)@,
            ),
            goal == inflate_symbols(lit.lengths(), dist.lengths(), bits, reader.bit_pos(), out@),
            start == old(reader).bit_pos(),
        decreases bits.len() - reader.bit_pos(),
    {
        let ghost pos = reader.bit_pos();
        let sym: u16 = match decode_huffman_symbol_with_table(reader, lit) {
            Ok(s) => s,
            Err(e) => {
                return Err(e);
            },
        };
        if sym < 256 {
            out.push(sym as u8);
        } else if sym == 256 {
            return Ok(());
        } else if sym > 285 {
            return Err(InflateError::InvalidCode);
        } else {
            let li: usize = (sym - 257) as usize;
            proof {
                lemma_length_tables(li as int);
                lemma_two_pow_values();
            }
            let extra: u32 = match get_bits(reader, LENGTH_EXTRA[li]) {
                Ok(v) => v,
                Err(e) => {
                    return Err(e);
                },
            };
            let length: usize = LENGTH_BASE[li] as usize + extra as usize;
            let ds: u16 = match decode_huffman_symbol_with_table(reader, dist) {
                Ok(s) => s,
                Err(e) => {
                    return Err(e);
                },
            };
            if ds >= 30 {
                return Err(InflateError::InvalidCode);
            }
            proof {
                lemma_dist_tables(ds as int);
            }
            let dextra: u32 = match get_bits(reader, DIST_EXTRA[ds as usize]) {
                Ok(v) => v,
                Err(e) => {
                    return Err(e);
                },
            };
            let distance: usize = DIST_BASE[ds as usize] as usize + dextra as usize;
            if distance > out.len() {
                return Err(InflateError::DecompressionFailed);
            }
            lz77_copy(out, length, distance);
        }
    }
}

/// Decodes a stored block after its header bits.
fn decompress_uncompressed_block(reader: &mut BitReader, out: &mut Vec<u8>) -> (r: Result<
    (),
    InflateError,
>)
    requires
        old(reader).wf(),
    ensures
        final(reader).wf(),
        final(reader).data() == old(reader).data(),
        match inflate_stored(old(reader).data(), old(reader).bit_pos(), old(out)@) {
            Ok((p, o)) => r.is_ok()
                && final(reader).bit_pos() == p
                && final(out)@ == o
                && old(reader).bit_pos() < p <= old(reader).bits().len(),
            Err(e) => r == Err::<(), InflateError>(e),
        },
{
    proof {
        reader.lemma_bit_pos_in_range();
        lemma_two_pow_values();
    }
    reader.align_to_byte();
    assert(reader.bit_pos() == align8(old(reader).bit_pos()));
    let len: u32 = match get_bits(reader, 16) {
        Ok(v) => v,
        Err(e) => {
            return Err(e);
        },
    };
    let nlen: u32 = match get_bits(reader, 16) {
        Ok(v) => v,
        Err(e) => {
            return Err(e);
        },
    };
    if len + nlen != 0xFFFF {
        return Err(InflateError::DecompressionFailed);
    }
    match reader.read_bytes(out, len as usize) {
        Ok(()) => Ok(()),
        Err(()) => Err(InflateError::NeedMoreInput),
    }
}

/// Appends `n` times `v`, but no more than bring `acc` to `total` entries.
fn push_repeat(acc: &mut Vec<u8>, v: u8, n: usize, total: usize)
    requires
        old(acc)@.len() <= total,
    ensures
        final(acc)@ == repeat_capped(old(acc)@, v, n as int, total as int),
{
    let room: usize = total - acc.len();
    let count: usize = if n < room { n } else { room };
    let mut i: usize = 0;
    while i < count
        invariant
            i <= count,
            acc@ =~= old(acc)@ + Seq::new(i as nat, |j: int| v),
        decreases count - i,
    {
        acc.push(v);
        i = i + 1;
    }
}

/// Reads the `hclen` lengths of the code-length code, three bits each.
fn read_code_length_lengths(reader: &mut BitReader, hclen: usize) -> (r: Result<
    Vec<u8>,
    InflateError,
>)
    requires
        old(reader).wf(),
        hclen <= 19,
    ensures
        final(reader).wf(),
        final(reader).data() == old(reader).data(),
        if old(reader).bit_pos() + 3 * hclen > old(reader).bits().len() {
            r.is_err() && r.unwrap_err() == InflateError::NeedMoreInput
        } else {
            r.is_ok() && r.unwrap()@ == code_length_lengths(
                old(reader).bits(),
                old(reader).bit_pos(),
                hclen as int,
            ) && final(reader).bit_pos() == old(reader).bit_pos() + 3 * hclen
        },
{
    let ghost bits = reader.bits();
    let ghost pos = reader.bit_pos();
    proof {
        reader.lemma_bit_pos_in_range();
    }
    if !reader.has_more_bits((3 * hclen) as u8) {
        return Err(InflateError::NeedMoreInput);
    }
    let mut cl: Vec<u8> = vec![0u8; 19];
    let mut i: usize = 0;
    assert(cl@ =~= code_length_lengths(bits, pos, 0));
    while i < hclen
        invariant
            reader.wf(),
            reader.data() == old(reader).data(),
            bits == reader.bits(),
            pos == old(reader).bit_pos(),
            0 <= pos,
            i <= hclen <= 19,
            pos + 3 * hclen <= bits.len(),
            reader.bit_pos() == pos + 3 * i,
            cl@.len() == 19,
            cl@ == code_length_lengths(bits, pos, i as int),
        decreases hclen - i,
    {
        proof {
            lemma_dezigzag(i as int);
            lemma_two_pow_values();
        }
        let v: u32 = match get_bits(reader, 3) {
            Ok(v) => v,
            Err(e) => {
                return Err(e);
            },
        };
        cl.set(LENGTH_DEZIGZAG[i], v as u8);
        i = i + 1;
    }
    Ok(cl)
}

/// Reads `total` code lengths with the code-length code of `table`.
fn read_lengths(reader: &mut BitReader, table: &HuffmanTable, total: usize) -> (r: Result<
    Vec<u8>,
    InflateError,
>)
    requires
        old(reader).wf(),
        table.wf(),
        total <= 320,
    ensures
        final(reader).wf(),
        final(reader).data() == old(reader).data(),
        match read_code_lengths(
            table.lengths(),
            old(reader).bits(),
            old(reader).bit_pos(),
            total as int,
            Seq::empty(),
        ) {
            Ok((p, all)) => r.is_ok()
                && r.unwrap()@ == all
                && all.len() == total
                && final(reader).bit_pos() == p
                && old(reader).bit_pos() <= p <= old(reader).bits().len(),
            Err(e) => r.is_err() && r.unwrap_err() == e,
        },
{
    let ghost bits = reader.bits();
    let ghost pos = reader.bit_pos();
    let mut all: Vec<u8> = Vec::new();
    let ghost goal = read_code_lengths(table.lengths(), bits, pos, total as int, all@);
    proof {
        reader.lemma_bit_pos_in_range();
        assert(all@ =~= Seq::<u8>::empty());
    }
    while all.len() < total
        invariant
            reader.wf(),
            table.wf(),
            reader.data() == old(reader).data(),
            bits == reader.bits(),
            pos == old(reader).bit_pos(),
            pos <= reader.bit_pos() <= bits.len(),
            all@.len() <= total,
            total <= 320,
            goal == read_code_lengths(
                table.lengths(),
                bits,
                old(reader).bit_pos(),
                total as int,
                Seq::empty(),
            ),
            goal == read_code_lengths(
                table.lengths(),
                bits,
                reader.bit_pos(),
                total as int,
                all@,
            ),
        decreases total - all@.len(),
    {
        let sym: u16 = match decode_huffman_symbol_with_table(reader, table) {
            Ok(s) => s,
            Err(e) => {
                return Err(e);
            },
        };
        proof {
            lemma_two_pow_values();
        }
        if sym < 16 {
            all.push(sym as u8);
        } else if sym == 16 {
            let extra: u32 = match get_bits(reader, 2) {
                Ok(v) => v,
                Err(e) => {
                    return Err(e);
                },
            };
            let prev: u8 = if all.len() > 0 { all[all.len() - 1] } else { 0 };
            push_repeat(&mut all, prev, 3 + extra as usize, total);
        } else if sym == 17 {
            let extra: u32 = match get_bits(reader, 3) {
                Ok(v) => v,
                Err(e) => {
                    return Err(e);
                },
            };
            push_repeat(&mut all, 0, 3 + extra as usize, total);
        } else if sym == 18 {
            let extra: u32 = match get_bits(reader, 7) {
                Ok(v) => v,
                Err(e) => {
                    return Err(e);
                },
            };
            push_repeat(&mut all, 0, 11 + extra as usize, total);
        } else {
            return Err(InflateError::InvalidCode);
        }
    }
    Ok(all)
}

/// Reads the header of a dynamic block and builds its two tables.
fn parse_dynamic_huffman_tables(reader: &mut BitReader) -> (r: Result<
    (HuffmanTable, HuffmanTable),
    InflateError,
>)
    requires
        old(reader).wf(),
    ensures
        final(reader).wf(),
        final(reader).data() == old(reader).data(),
        match dynamic_tables(old(reader).bits(), old(reader).bit_pos()) {
            Ok((p, lit, dist)) => r.is_ok() && r.unwrap().0.wf() && r.unwrap().0.lengths() == lit
                && r.unwrap().1.wf() && r.unwrap().1.lengths() == dist && final(reader).bit_pos()
                == p && old(reader).bit_pos() <= p <= old(reader).bits().len(),
            Err(e) => r.is_err() && r.unwrap_err() == e,
        },
{
    let ghost bits = reader.bits();
    let ghost pos = reader.bit_pos();
    proof {
        reader.lemma_bit_pos_in_range();
        lemma_two_pow_values();
    }
    let a: u32 = match get_bits(reader, 5) {
        Ok(v) => v,
        Err(e) => {
            return Err(e);
        },
    };
    let b: u32 = match get_bits(reader, 5) {
        Ok(v) => v,
        Err(e) => {
            return Err(e);
        },
    };
    let c: u32 = match get_bits(reader, 4) {
        Ok(v) => v,
        Err(e) => {
            return Err(e);
        },
    };
    let hlit: usize = a as usize + 257;
    let hdist: usize = b as usize + 1;
    let hclen: usize = c as usize + 4;
    let cl: Vec<u8> = match read_code_length_lengths(reader, hclen) {
        Ok(cl) => cl,
        Err(e) => {
            return Err(e);
        },
    };
    proof {
        assert(cl@.len() == 19) by {
            lemma_code_length_lengths_len(bits, pos + 14, hclen as int);
        }
        assert(cl@.take(19) =~= cl@);
    }
    let cl_table = match HuffmanTable::build(cl.as_slice(), 19) {
        Ok(t) => t,
        Err(_) => {
            return Err(InflateError::DecompressionFailed);
        },
    };
    let total: usize = hlit + hdist;
    let all: Vec<u8> = match read_lengths(reader, &cl_table, total) {
        Ok(all) => all,
        Err(e) => {
            return Err(e);
        },
    };
    let lit = match HuffmanTable::build(all.as_slice(), hlit) {
        Ok(t) => t,
        Err(_) => {
            return Err(InflateError::DecompressionFailed);
        },
    };
    let rest = vstd::slice::slice_subrange(all.as_slice(), hlit, total);
    proof {
        assert(rest@.take(hdist as int) =~= all@.skip(hlit as int));
    }
    let dist = match HuffmanTable::build(rest, hdist) {
        Ok(t) => t,
        Err(_) => {
            return Err(InflateError::DecompressionFailed);
        },
    };
    Ok((lit, dist))
}

/// The code-length code has 19 lengths however many were read.
pub proof fn lemma_code_length_lengths_len(bits: Seq<bool>, pos: int, i: int)
    requires
        0 <= i <= 19,
    ensures
        code_length_lengths(bits, pos, i).len() == 19,
    decreases i,
{
    if i > 0 {
        lemma_code_length_lengths_len(bits, pos, i - 1);
    }
}

/// Decodes one block. Returns whether it was marked final.
fn decompress_block(
    reader: &mut BitReader,
    out: &mut Vec<u8>,
    fixed_lit: &HuffmanTable,
    fixed_dist: &HuffmanTable,
) -> (r: Result<bool, InflateError>)
    requires
        old(reader).wf(),
        fixed_lit.wf(),
        fixed_dist.wf(),
        fixed_lit.lengths() == fixed_litlen_lengths(),
        fixed_dist.lengths() == fixed_distance_lengths(),
    ensures
        final(reader).wf(),
        final(reader).data() == old(reader).data(),
        if old(reader).bit_pos() + 3 > old(reader).bits().len() {
            r == Err::<bool, InflateError>(InflateError::NeedMoreInput)
        } else {
            match inflate_block(old(reader).data(), old(reader).bit_pos(), old(out)@) {
                Ok((p, o)) => r == Ok::<bool, InflateError>(
                    old(reader).bits()[old(reader).bit_pos()],
                ) && final(reader).bit_pos() == p && final(out)@ == o && old(reader).bit_pos() < p
                    <= old(reader).bits().len(),
                Err(e) => r == Err::<bool, InflateError>(e),
            }
        },
{
    proof {
        reader.lemma_bit_pos_in_range();
        lemma_two_pow_values();
        reveal(inflate_block);
    }
    let fin: bool = match reader.read_bit() {
        Some(b) => b,
        None => {
            return Err(InflateError::NeedMoreInput);
        },
    };
    let block_type: u32 = match get_bits(reader, 2) {
        Ok(v) => v,
        Err(e) => {
            return Err(e);
        },
    };
    if block_type == 0 {
        match decompress_uncompressed_block(reader, out) {
            Ok(()) => Ok(fin),
            Err(e) => Err(e),
        }
    } else if block_type == 1 {
        match decompress_compressed_block(reader, out, fixed_lit, fixed_dist) {
            Ok(()) => Ok(fin),
            Err(e) => Err(e),
        }
    } else if block_type == 2 {
        let tables = match parse_dynamic_huffman_tables(reader) {
            Ok(t) => t,
            Err(e) => {
                return Err(e);
            },
        };
        match decompress_compressed_block(reader, out, &tables.0, &tables.1) {
            Ok(()) => Ok(fin),
            Err(e) => Err(e),
        }
    } else {
        Err(InflateError::InvalidBlockType)
    }
}

/// Decodes blocks up to and including the first one marked final.
fn decode_blocks(
    reader: &mut BitReader,
    out: &mut Vec<u8>,
    fixed_lit: &HuffmanTable,
    fixed_dist: &HuffmanTable,
) -> (r: Result<(), InflateError>)
    requires
        old(reader).wf(),
        fixed_lit.wf(),
        fixed_dist.wf(),
        fixed_lit.lengths() == fixed_litlen_lengths(),
        fixed_dist.lengths() == fixed_distance_lengths(),
    ensures
        final(reader).wf(),
        final(reader).data() == old(reader).data(),
        match inflate_blocks(old(reader).data(), old(reader).bit_pos(), old(out)@) {
            Ok((p, o)) => r.is_ok()
                && final(reader).bit_pos() == p
                && final(out)@ == o
                && old(reader).bit_pos() < p <= old(reader).bits().len(),
            Err(e) => r == Err::<(), InflateError>(e),
        },
{
    let ghost data = reader.data();
    let ghost goal = inflate_blocks(data, reader.bit_pos(), out@);
    proof {
        reader.lemma_bit_pos_in_range();
    }
    loop
        invariant
            reader.wf(),
            fixed_lit.wf(),
            fixed_dist.wf(),
            fixed_lit.lengths() == fixed_litlen_lengths(),
            fixed_dist.lengths() == fixed_distance_lengths(),
            reader.data() == data,
            data == old(reader).data(),
            old(reader).bit_pos() <= reader.bit_pos() <= 8 * data.len(),
            goal == inflate_blocks(data, old(reader).bit_pos(), old(out)@),
            goal == inflate_blocks(data, reader.bit_pos(), out@),
        decreases 8 * data.len() - reader.bit_pos(),
    {
        proof {
            reader.lemma_bit_pos_in_range();
        }
        match decompress_block(reader, out, fixed_lit, fixed_dist) {
            Ok(fin) => {
                if fin {
                    return Ok(());
                }
            },
            Err(e) => {
                return Err(e);
            },
        }
    }
}

/// Checks the two bytes of a zlib header.
fn parse_zlib_header(input: &[u8]) -> (r: Result<(), InflateError>)
    ensures
        r == (if input@.len() < 2 {
            Err::<(), InflateError>(InflateError::NeedMoreInput)
        } else if zlib_header_invalid(input@[0], input@[1]) {
            Err::<(), InflateError>(InflateError::BadZlibHeader)
        } else {
            Ok::<(), InflateError>(())
        }),
{
    if input.len() < 2 {
        return Err(InflateError::NeedMoreInput);
    }
    let cmf: u8 = input[0];
    let flg: u8 = input[1];
    if cmf % 16 != 8 || cmf / 16 > 7 || (cmf as u32 * 256 + flg as u32) % 31 != 0 || (flg / 32) % 2
        == 1 {
        return Err(InflateError::BadZlibHeader);
    }
    Ok(())
}

/// Reads, from the next byte boundary on, the four bytes of the checksum
/// and holds them against the Adler-32 checksum of `out`.
#[verifier::loop_isolation(false)]
fn check_adler32_checksum(reader: &mut BitReader, out: &Vec<u8>) -> (r: Result<(), InflateError>)
    requires
        old(reader).wf(),
    ensures
        final(reader).wf(),
        final(reader).data() == old(reader).data(),
        r == ({
            let q = align8(old(reader).bit_pos()) / 8;
            if q + 4 > old(reader).data().len() {
                Err::<(), InflateError>(InflateError::NeedMoreInput)
            } else if be32(old(reader).data(), q) != adler32_spec(1, out@) {
                Err::<(), InflateError>(InflateError::Adler32Mismatch)
            } else {
                Ok::<(), InflateError>(())
            }
        }),
{
    let ghost input = reader.data();
    proof {
        reader.lemma_bit_pos_in_range();
    }
    reader.align_to_byte();
    let ghost q = reader.bit_pos() / 8;
    let mut expected: u32 = 0;
    let mut i: usize = 0;
    while i < 4
        invariant
            reader.wf(),
            reader.data() == input,
            i <= 4,
            0 <= q,
            q == align8(old(reader).bit_pos()) / 8,
            reader.bit_pos() == 8 * (q + i),
            q + i <= input.len(),
            i == 0 ==> expected == 0,
            i == 1 ==> expected == input[q],
            i == 2 ==> expected == input[q] * 0x100 + input[q + 1],
            i == 3 ==> expected == input[q] * 0x1_0000 + input[q + 1] * 0x100 + input[q + 2],
            i == 4 ==> expected == be32(input, q),
        decreases 4 - i,
    {
        let byte: u8 = match reader.read_byte() {
            Some(b) => b,
            None => {
                return Err(InflateError::NeedMoreInput);
            },
        };
        expected = expected * 256 + byte as u32;
        i = i + 1;
    }
    let actual: u32 = adler32(1, out.as_slice());
    if actual != expected {
        return Err(InflateError::Adler32Mismatch);
    }
    Ok(())
}

/// Decodes a whole stream into `out`: a zlib stream when `zlib` is set, a
/// raw DEFLATE stream otherwise.
fn inflate_into(
    input: &[u8],
    zlib: bool,
    fixed_lit: &HuffmanTable,
    fixed_dist: &HuffmanTable,
    out: &mut Vec<u8>,
) -> (r: Result<(), InflateError>)
    requires
        old(out)@.len() == 0,
        fixed_lit.wf(),
        fixed_dist.wf(),
        fixed_lit.lengths() == fixed_litlen_lengths(),
        fixed_dist.lengths() == fixed_distance_lengths(),
    ensures
        match (if zlib {
            inflate_zlib(input@)
        } else {
            inflate_raw(input@)
        }) {
            Ok(o) => r.is_ok() && final(out)@ == o,
            Err(e) => r == Err::<(), InflateError>(e),
        },
{
    let mut reader = BitReader::from_slice(input);
    assert(out@ =~= Seq::<u8>::empty());
    if !zlib {
        return decode_blocks(&mut reader, out, fixed_lit, fixed_dist);
    }
    match parse_zlib_header(input) {
        Ok(()) => {},
        Err(e) => {
            return Err(e);
        },
    }
    reader.set_pos(2);
    match decode_blocks(&mut reader, out, fixed_lit, fixed_dist) {
        Ok(()) => {},
        Err(e) => {
            return Err(e);
        },
    }
    check_adler32_checksum(&mut reader, out)
}

/// How a call of the decoder ended.
#[derive(Debug, Clone, Copy, PartialEq, Eq)]
pub enum InflateStatus {
    /// A block was decoded and more follow.
    Okay,
    /// The input ends within the stream.
    NeedsMoreInput,
    /// The output buffer is full.
    HasMoreOutput,
    /// The stream was decoded to its end.
    Done,
    /// The stream is malformed.
    Failed,
    /// The trailing checksum is not that of the output.
    Adler32Mismatch,
    /// A parameter is out of range.
    BadParam,
    /// A block consumed no input.
    CannotMakeProgress,
}

/// Options of one decoder call.
#[derive(Debug, Clone, Copy)]
pub struct InflateFlags {
    /// The input is a zlib stream: a header before the blocks and a checksum
    /// after them.
    pub parse_zlib_header: bool,
    /// More input will follow this call's.
    pub has_more_input: bool,
    /// The output buffer holds the whole output.
    pub using_non_wrapping_output_buf: bool,
}

impl Default for InflateFlags {
    fn default() -> (f: Self)
        ensures
            !f.parse_zlib_header,
            !f.has_more_input,
            !f.using_non_wrapping_output_buf,
    {
        Self {
            parse_zlib_header: false,
            has_more_input: false,
            using_non_wrapping_output_buf: false,
        }
    }
}

/// What a decoder holds between calls.
pub struct InflateState {
    /// The output of the last call.
    output_buffer: Vec<u8>,
    /// Whether the last call reached the end of its stream.
    final_block: bool,
    /// The table of the fixed literal/length code.
    lit: HuffmanTable,
    /// The table of the fixed distance code.
    dist: HuffmanTable,
}

/// A DEFLATE decoder.
pub struct InflateDecoder {
    state: InflateState,
}

/// What a stream decodes to: as a zlib stream when `zlib` is set, as a raw
/// DEFLATE stream otherwise.
pub open spec fn inflate_spec(input: Seq<u8>, zlib: bool) -> Result<Seq<u8>, InflateError> {
    if zlib {
        inflate_zlib(input)
    } else {
        inflate_raw(input)
    }
}

impl InflateDecoder {
    /// The decoder holds the tables of the two fixed codes.
    pub closed spec fn wf(&self) -> bool {
        &&& self.state.lit.wf()
        &&& self.state.dist.wf()
        &&& self.state.lit.lengths() == fixed_litlen_lengths()
        &&& self.state.dist.lengths() == fixed_distance_lengths()
    }

    /// The output of the last call.
    pub closed spec fn output(&self) -> Seq<u8> {
        self.state.output_buffer@
    }

    /// A decoder with the tables of the fixed codes built.
    pub fn new() -> (d: Self)
        ensures
            d.wf(),
            d.output() =~= Seq::<u8>::empty(),
    {
        let mut state = InflateState {
            output_buffer: Vec::new(),
            final_block: false,
            lit: HuffmanTable::new(),
            dist: HuffmanTable::new(),
        };
        Self::init_static_huffman_tables(&mut state);
        Self { state }
    }

    /// Builds the tables of the two fixed codes.
    fn init_static_huffman_tables(state: &mut InflateState)
        ensures
            final(state).lit.wf(),
            final(state).dist.wf(),
            final(state).lit.lengths() == fixed_litlen_lengths(),
            final(state).dist.lengths() == fixed_distance_lengths(),
            final(state).output_buffer == old(state).output_buffer,
            final(state).final_block == old(state).final_block,
    {
        state.lit = fixed_litlen_table();
        state.dist = fixed_distance_table();
    }

    /// Decodes `input` as one whole stream and replaces `output` by what it
    /// decodes to. The status is `Done` when the stream was decoded to its
    /// end, with the number of bytes of output; it is `NeedsMoreInput`, with
    /// `output` unchanged, when the input ends within the stream. Any other
    /// failure is an error. The third number is always 0.
    pub fn decompress(&mut self, input: &[u8], output: &mut Vec<u8>, flags: InflateFlags) -> (r:
        Result<(InflateStatus, usize, usize), InflateError>)
        requires
            old(self).wf(),
        ensures
            final(self).wf(),
            match inflate_spec(input@, flags.parse_zlib_header) {
                Ok(o) => r == Ok::<(InflateStatus, usize, usize), InflateError>(
                    (InflateStatus::Done, o.len() as usize, 0usize),
                ) && final(output)@ == o && final(self).output() == o,
                Err(InflateError::NeedMoreInput) => r == Ok::<
                    (InflateStatus, usize, usize),
                    InflateError,
                >((InflateStatus::NeedsMoreInput, 0usize, 0usize))
                    && final(output)@ == old(output)@
                    && final(self).output().len() == 0,
                Err(e) => r == Err::<(InflateStatus, usize, usize), InflateError>(e)
                    && final(output)@ == old(output)@
                    && final(self).output().len() == 0,
            },
    {
        self.state.output_buffer.clear();
        self.state.final_block = false;
        match inflate_into(
            input,
            flags.parse_zlib_header,
            &self.state.lit,
            &self.state.dist,
            &mut self.state.output_buffer,
        ) {
            Ok(()) => {
                self.state.final_block = true;
                output.clear();
                output.extend_from_slice(self.state.output_buffer.as_slice());
                Ok((InflateStatus::Done, self.state.output_buffer.len(), 0))
            },
            Err(e) => {
                self.state.output_buffer.clear();
                match e {
                    InflateError::NeedMoreInput => Ok((InflateStatus::NeedsMoreInput, 0, 0)),
                    _ => Err(e),
                }
            },
        }
    }

    /// Hands out the output of the last call and leaves none behind.
    pub fn get_output(&mut self) -> (out: Vec<u8>)
        requires
            old(self).wf(),
        ensures
            final(self).wf(),
            out@ == old(self).output(),
            final(self).output().len() == 0,
    {
        let mut out: Vec<u8> = Vec::new();
        out.append(&mut self.state.output_buffer);
        out
    }
}

/// A decompressed buffer with the numbers of bytes read and written.
#[derive(Debug, Clone, PartialEq)]
pub struct InflateOutput {
    /// The decompressed bytes.
    pub output: Vec<u8>,
    /// The number of bytes of input that were handed to the decoder.
    pub bytes_read: i32,
    /// The number of bytes of output.
    pub bytes_written: i32,
}

/// A decompressed buffer with the numbers of bytes read and written.
#[derive(Debug, Clone, PartialEq)]
pub struct DecompressResult {
    /// The decompressed bytes.
    pub output: Vec<u8>,
    /// The number of bytes of input that were handed to the decoder.
    pub bytes_read: usize,
    /// The number of bytes of output.
    pub bytes_written: usize,
}

/// What decompressing at one go returns: an input that ends within its
/// stream counts as malformed.
pub open spec fn one_shot(r: Result<Seq<u8>, InflateError>) -> Result<Seq<u8>, InflateError> {
    match r {
        Err(InflateError::NeedMoreInput) => Err(InflateError::DecompressionFailed),
        _ => r,
    }
}

/// `n`, or the greatest `i32` when `n` exceeds it.
pub open spec fn clamp_i32(n: int) -> i32 {
    if n <= i32::MAX {
        n as i32
    } else {
        i32::MAX
    }
}

/// `n`, or the greatest `i32` when `n` exceeds it.
pub fn to_i32(n: usize) -> (r: i32)
    ensures
        r == clamp_i32(n as int),
{
    if n <= i32::MAX as usize {
        n as i32
    } else {
        i32::MAX
    }
}

/// Decodes a stream at one go.
fn inflate_all(input: &[u8], zlib: bool) -> (r: Result<Vec<u8>, InflateError>)
    ensures
        match one_shot(inflate_spec(input@, zlib)) {
            Ok(o) => r.is_ok() && r.unwrap()@ == o,
            Err(e) => r.is_err() && r.unwrap_err() == e,
        },
{
    let mut decoder = InflateDecoder::new();
    let mut output: Vec<u8> = Vec::new();
    let flags = InflateFlags {
        parse_zlib_header: zlib,
        has_more_input: false,
        using_non_wrapping_output_buf: false,
    };
    match decoder.decompress(input, &mut output, flags) {
        Ok(done) => {
            match done.0 {
                InflateStatus::Done => Ok(output),
                _ => Err(InflateError::DecompressionFailed),
            }
        },
        Err(e) => Err(e),
    }
}

/// Decompresses the zlib stream that starts at the 1-based position `pos`
/// of `data`. Empty `data` decompresses to nothing. `size` is a hint for the
/// size of the output and does not limit it.
pub fn decompress(data: &[u8], pos: i32, size: Option<i32>) -> (r: Result<
    InflateOutput,
    InflateError,
>)
    ensures
        if data@.len() == 0 {
            r.is_ok() && r.unwrap().output@.len() == 0 && r.unwrap().bytes_read == 0
                && r.unwrap().bytes_written == 0
        } else if pos < 1 || pos - 1 >= data@.len() {
            r.is_err() && r.unwrap_err() == InflateError::BadParam
        } else {
            match one_shot(inflate_zlib(data@.skip(pos - 1))) {
                Ok(o) => r.is_ok() && r.unwrap().output@ == o && r.unwrap().bytes_read
                    == clamp_i32(data@.len() - (pos - 1)) && r.unwrap().bytes_written == clamp_i32(
                    o.len() as int,
                ),
                Err(e) => r.is_err() && r.unwrap_err() == e,
            }
        },
{
    if data.len() == 0 {
        return Ok(InflateOutput { output: Vec::new(), bytes_read: 0, bytes_written: 0 });
    }
    if pos < 1 {
        return Err(InflateError::BadParam);
    }
    let pos_index: usize = (pos - 1) as usize;
    if pos_index >= data.len() {
        return Err(InflateError::BadParam);
    }
    let input = vstd::slice::slice_subrange(data, pos_index, data.len());
    proof {
        assert(input@ =~= data@.skip(pos - 1));
    }
    match inflate_all(input, true) {
        Ok(output) => {
            let bytes_written: i32 = to_i32(output.len());
            Ok(InflateOutput { output, bytes_read: to_i32(input.len()), bytes_written })
        },
        Err(e) => Err(e),
    }
}

/// Decompresses the zlib stream `data`. `capacity` is a hint for the size of
/// the output and does not limit it.
pub fn decompress_to_buffer(data: &[u8], capacity: usize) -> (r: Result<
    DecompressResult,
    InflateError,
>)
    ensures
        if data@.len() == 0 {
            r.is_ok() && r.unwrap().output@.len() == 0 && r.unwrap().bytes_read == 0
                && r.unwrap().bytes_written == 0
        } else {
            match one_shot(inflate_zlib(data@)) {
                Ok(o) => r.is_ok() && r.unwrap().output@ == o && r.unwrap().bytes_read
                    == clamp_i32(data@.len() as int) && r.unwrap().bytes_written == clamp_i32(
                    o.len() as int,
                ),
                Err(e) => r.is_err() && r.unwrap_err() == e,
            }
        },
{
    proof {
        assert(data@.skip(0) =~= data@);
    }
    match decompress(data, 1, Some(to_i32(capacity))) {
        Ok(result) => Ok(
            DecompressResult {
                output: result.output,
                bytes_read: result.bytes_read as usize,
                bytes_written: result.bytes_written as usize,
            },
        ),
        Err(e) => Err(e),
    }
}

/// Decompresses the raw DEFLATE stream `data`, one without zlib header and
/// checksum.
pub fn decompress_raw(data: &[u8]) -> (r: Result<Vec<u8>, InflateError>)
    ensures
        match one_shot(inflate_raw(data@)) {
            Ok(o) => r.is_ok() && r.unwrap()@ == o,
            Err(e) => r.is_err() && r.unwrap_err() == e,
        },
{
    inflate_all(data, false)
}

} // verus!
