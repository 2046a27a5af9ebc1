//! The DEFLATE encoder: stored blocks, fixed-Huffman blocks over an LZ77
//! parse, and the zlib framing around them.
//!
//! The encoder uses one LZ77 engine, the hash-chain engine of
//! `lz77`, at every level; the level sets how many candidates it tries at
//! each position.

use vstd::prelude::*;
use vstd::string::StringExecFns;
use crate::miniz::bitstream::{
    bit_of, bits_of_bytes, lemma_bits_of_bytes_at, lemma_bits_of_bytes_concat, lsb_value, padding,
};
use crate::miniz::deflate_fast::{
    compress_fixed, fixed_block_bits, fixed_stream, is_fixed_encoding,
    lemma_fixed_block_round_trip, lemma_fixed_stream,
};
use crate::miniz::huffman::{lemma_low_bits_value, lemma_two_pow_values, two_pow};
use crate::miniz::inflate::{
    align8, be32, clamp_i32, inflate_block, inflate_blocks, inflate_raw, inflate_zlib, read_num,
    to_i32, InflateError,
};
use crate::miniz::lz77;
use crate::miniz::lz77::{expand, parse_valid};
use crate::miniz::{adler32, adler32_spec};

verus! {

/// The most bytes that one stored block holds.
pub const MAX_STORED: usize = 65535;

/// The first byte of a zlib stream: DEFLATE with a window of 32768 bytes.
pub const ZLIB_CMF: u8 = 0x78;

/// The second byte of a zlib stream: the default level, no dictionary, and
/// the check bits.
pub const ZLIB_FLG: u8 = 0x9C;

/// One stored block: the header byte with the final flag, the length, its
/// complement, both least significant byte first, and the bytes.
pub open spec fn stored_block(chunk: Seq<u8>, last: bool) -> Seq<u8> {
    seq![
        if last { 1u8 } else { 0u8 },
        (chunk.len() % 256) as u8,
        (chunk.len() / 256) as u8,
        (255 - chunk.len() % 256) as u8,
        (255 - chunk.len() / 256) as u8,
    ] + chunk
}

/// `data` as stored blocks of 65535 bytes, the last one as long as what is
/// left and marked final.
pub open spec fn stored_stream(data: Seq<u8>) -> Seq<u8>
    decreases data.len(),
{
    if data.len() <= 65535 {
        stored_block(data, true)
    } else {
        stored_block(data.take(65535), false) + stored_stream(data.skip(65535))
    }
}

/// The four bytes of `v`, most significant first.
pub open spec fn be_bytes(v: int) -> Seq<u8> {
    seq![
        (v / 0x100_0000) as u8,
        ((v / 0x1_0000) % 256) as u8,
        ((v / 0x100) % 256) as u8,
        (v % 256) as u8,
    ]
}

/// A zlib stream around `body`: the two header bytes before it, the
/// Adler-32 checksum of `data` after it.
pub open spec fn zlib_frame(body: Seq<u8>, data: Seq<u8>) -> Seq<u8> {
    seq![0x78u8, 0x9Cu8] + body + be_bytes(adler32_spec(1, data))
}

/// The number of candidates that the LZ77 engine tries at each position at
/// a level from 1 to 9.
pub open spec fn probes_at(level: int) -> int {
    if level <= 1 {
        1
    } else if level <= 5 {
        8
    } else if level == 6 {
        32
    } else if level <= 8 {
        128
    } else {
        512
    }
}

/// The raw DEFLATE stream that the encoder makes of `data` at `level`: at
/// level 0 stored blocks; at the levels from 1 to 9 one block in the fixed
/// code that encodes the greedy parse of `data`, if that block is shorter
/// than `data`, or else stored blocks.
pub open spec fn deflate_stream(data: Seq<u8>, level: int) -> Seq<u8> {
    if level >= 1 && fixed_stream(data, probes_at(level)).len() < data.len() {
        fixed_stream(data, probes_at(level))
    } else {
        stored_stream(data)
    }
}

/// The zlib stream of empty input.
pub open spec fn empty_zlib_stream() -> Seq<u8> {
    seq![0x78u8, 0x9Cu8, 0x03u8, 0x00u8, 0x00u8, 0x00u8, 0x00u8, 0x01u8]
}

/// The number spelt by two groups of bits is the first plus the second
/// shifted past it.
pub proof fn lemma_lsb_value_concat(a: Seq<bool>, b: Seq<bool>)
    ensures
        lsb_value(a + b) == lsb_value(a) + two_pow(a.len() as int) * lsb_value(b),
    decreases a.len(),
{
    if a.len() == 0 {
        assert(a + b =~= b);
    } else {
        assert((a + b).skip(1) =~= a.skip(1) + b);
        lemma_lsb_value_concat(a.skip(1), b);
        let t = two_pow(a.len() - 1);
        let v = lsb_value(b) as int;
        assert(2 * (t * v) == (2 * t) * v) by (nonlinear_arith);
    }
}

/// The eight bits at byte `j` spell that byte.
pub proof fn lemma_read_byte(stream: Seq<u8>, j: int)
    requires
        0 <= j < stream.len(),
    ensures
        lsb_value(bits_of_bytes(stream).subrange(8 * j, 8 * j + 8)) == stream[j],
{
    lemma_bits_of_bytes_at(stream, j);
    lemma_two_pow_values();
    lemma_low_bits_value(stream[j] as u64, 8);
}

/// The sixteen bits at byte `j` spell the two bytes there, the first one
/// lowest.
pub proof fn lemma_read_u16(stream: Seq<u8>, j: int)
    requires
        0 <= j,
        j + 2 <= stream.len(),
    ensures
        read_num(bits_of_bytes(stream), 8 * j, 16) == Some(stream[j] + 256 * stream[j + 1]),
{
    let bits = bits_of_bytes(stream);
    let a = bits.subrange(8 * j, 8 * j + 8);
    let b = bits.subrange(8 * j + 8, 8 * j + 16);
    assert(bits.subrange(8 * j, 8 * j + 16) =~= a + b);
    lemma_read_byte(stream, j);
    lemma_read_byte(stream, j + 1);
    lemma_lsb_value_concat(a, b);
    lemma_two_pow_values();
}

/// The decoder undoes one stored block.
pub proof fn lemma_stored_block_round_trip(
    stream: Seq<u8>,
    at: int,
    out: Seq<u8>,
    chunk: Seq<u8>,
    last: bool,
)
    requires
        chunk.len() <= 65535,
        0 <= at,
        at + 5 + chunk.len() <= stream.len(),
        stream.subrange(at, at + 5 + chunk.len()) == stored_block(chunk, last),
    ensures
        inflate_block(stream, 8 * at, out) == Ok::<(int, Seq<u8>), InflateError>(
            (8 * (at + 5 + chunk.len()), out + chunk),
        ),
        bits_of_bytes(stream)[8 * at] == last,
{
    let bits = bits_of_bytes(stream);
    let block = stored_block(chunk, last);
    let n = chunk.len() as int;
    assert forall|i: int| 0 <= i < 5 + n implies stream[at + i] == #[trigger] block[i] by {
        assert(stream.subrange(at, at + 5 + n)[i] == stream[at + i]);
    }
    assert(stream[at] == block[0]);
    assert(stream[at + 1] == block[1]);
    assert(stream[at + 2] == block[2]);
    assert(stream[at + 3] == block[3]);
    assert(stream[at + 4] == block[4]);
    let h = stream[at] as u64;
    assert((8 * at) / 8 == at && (8 * at) % 8 == 0);
    assert((8 * at + 1) / 8 == at && (8 * at + 1) % 8 == 1);
    assert((8 * at + 2) / 8 == at && (8 * at + 2) % 8 == 2);
    assert(bit_of(1, 0) && !bit_of(1, 1) && !bit_of(1, 2) && !bit_of(0, 0) && !bit_of(0, 1)
        && !bit_of(0, 2)) by (bit_vector);
    let two = bits.subrange(8 * at + 1, 8 * at + 3);
    assert(two =~= seq![false, false]);
    assert(two.skip(1) =~= seq![false]);
    assert(two.skip(1).skip(1) =~= Seq::<bool>::empty());
    assert(lsb_value(two.skip(1).skip(1)) == 0);
    assert(lsb_value(two.skip(1)) == 0);
    assert(lsb_value(two) == 0);
    assert(align8(8 * at + 3) == 8 * (at + 1));
    lemma_read_u16(stream, at + 1);
    lemma_read_u16(stream, at + 3);
    assert(8 * (at + 1) + 16 == 8 * (at + 3));
    assert(stream.subrange(at + 5, at + 5 + n) =~= chunk) by {
        assert forall|i: int| 0 <= i < n implies stream[at + 5 + i] == chunk[i] by {
            assert(block[5 + i] == chunk[i]);
        }
    }
    assert((8 * (at + 1)) / 8 == at + 1);
    reveal(inflate_block);
}

/// The decoder undoes stored blocks: a stream that holds `data` as stored
/// blocks from byte `at` on decodes, from there, to `data`.
pub proof fn lemma_stored_round_trip(stream: Seq<u8>, at: int, out: Seq<u8>, data: Seq<u8>)
    requires
        0 <= at,
        at + stored_stream(data).len() <= stream.len(),
        stream.subrange(at, at + stored_stream(data).len()) == stored_stream(data),
    ensures
        inflate_blocks(stream, 8 * at, out) == Ok::<(int, Seq<u8>), InflateError>(
            (8 * (at + stored_stream(data).len()), out + data),
        ),
    decreases data.len(),
{
    let all = stored_stream(data);
    if data.len() <= 65535 {
        lemma_stored_block_round_trip(stream, at, out, data, true);
    } else {
        let chunk = data.take(65535);
        let rest = data.skip(65535);
        let first = stored_block(chunk, false);
        let tail = stored_stream(rest);
        assert(all == first + tail);
        let window = stream.subrange(at, at + all.len());
        assert(stream.subrange(at, at + first.len()) =~= window.subrange(0, first.len() as int));
        assert(all.subrange(0, first.len() as int) =~= first);
        assert(stream.subrange(at + first.len(), at + all.len()) =~= window.subrange(
            first.len() as int,
            all.len() as int,
        ));
        assert(all.subrange(first.len() as int, all.len() as int) =~= tail);
        lemma_stored_block_round_trip(stream, at, out, chunk, false);
        lemma_stored_round_trip(stream, at + first.len(), out + chunk, rest);
        assert(out + chunk + rest =~= out + data) by {
            assert(chunk + rest =~= data);
        }
    }
}

/// Round trip of a raw stream in stored blocks.
pub proof fn lemma_stored_raw_round_trip(data: Seq<u8>)
    ensures
        inflate_raw(stored_stream(data)) == Ok::<Seq<u8>, InflateError>(data),
{
    let s = stored_stream(data);
    assert(s.subrange(0, s.len() as int) =~= s);
    lemma_stored_round_trip(s, 0, Seq::empty(), data);
    assert(Seq::<u8>::empty() + data =~= data);
}

/// Round trip of a raw stream: what the encoder emits for `data` decodes to
/// `data`.
pub proof fn lemma_deflate_round_trip(data: Seq<u8>, level: int)
    ensures
        inflate_raw(deflate_stream(data, level)) == Ok::<Seq<u8>, InflateError>(data),
{
    let body = deflate_stream(data, level);
    if body == stored_stream(data) {
        lemma_stored_raw_round_trip(data);
    } else {
        lemma_fixed_stream(data, probes_at(level));
    }
}

/// Round trip of a zlib stream: the frame around what the encoder emits for
/// `data` decodes to `data`.
pub proof fn lemma_zlib_round_trip(data: Seq<u8>, level: int)
    ensures
        inflate_zlib(zlib_frame(deflate_stream(data, level), data)) == Ok::<
            Seq<u8>,
            InflateError,
        >(data),
{
    lemma_fixed_stream(data, probes_at(level));
    lemma_frame_round_trip(deflate_stream(data, level), data);
}

/// The zlib frame around stored blocks of `data`, or around a block in the
/// fixed code that encodes a valid parse of `data`, decodes to `data`.
pub proof fn lemma_frame_round_trip(body: Seq<u8>, data: Seq<u8>)
    requires
        body == stored_stream(data) || is_fixed_encoding(body, data),
    ensures
        inflate_zlib(zlib_frame(body, data)) == Ok::<Seq<u8>, InflateError>(data),
{
    let stream = zlib_frame(body, data);
    let head = seq![0x78u8, 0x9Cu8];
    let trailer = be_bytes(adler32_spec(1, data));
    crate::miniz::lemma_adler_sums_bounded((1, 0), data);
    let q = 2 + body.len() as int;
    assert(stream.len() == q + 4);
    assert(stream[0] == 0x78 && stream[1] == 0x9C);
    assert(stream[q] == trailer[0] && stream[q + 1] == trailer[1] && stream[q + 2] == trailer[2]
        && stream[q + 3] == trailer[3]);
    assert(be32(stream, q) == adler32_spec(1, data));
    assert(stream.subrange(2, q) =~= body);
    if body == stored_stream(data) {
        lemma_stored_round_trip(stream, 2, Seq::empty(), data);
        assert(Seq::<u8>::empty() + data =~= data);
        assert(align8(8 * q) == 8 * q);
    } else {
        let symbols = choose|symbols: Seq<lz77::LZSymbol>|
            #![trigger fixed_block_bits(symbols)]
            parse_valid(symbols) && expand(symbols) == data && bits_of_bytes(body)
                == fixed_block_bits(symbols) + padding(fixed_block_bits(symbols).len() as int);
        let block = fixed_block_bits(symbols);
        lemma_bits_of_bytes_concat(head, body);
        lemma_bits_of_bytes_concat(head + body, trailer);
        let bits = bits_of_bytes(stream);
        assert(bits_of_bytes(body).len() == 8 * body.len());
        assert(bits.subrange(16, 16 + block.len() as int) =~= block) by {
            assert forall|i: int| 0 <= i < block.len() implies bits[16 + i] == block[i] by {
                assert(bits[16 + i] == bits_of_bytes(head + body)[16 + i]);
                assert(bits_of_bytes(head + body)[16 + i] == bits_of_bytes(body)[i]);
            }
        }
        lemma_fixed_block_round_trip(stream, 16, Seq::empty(), symbols);
        assert(align8(16 + block.len() as int) == 8 * q);
    }
}

/// Round trip of the zlib stream of empty input.
pub proof fn lemma_empty_round_trip()
    ensures
        inflate_zlib(empty_zlib_stream()) == Ok::<Seq<u8>, InflateError>(Seq::empty()),
{
    let stream = empty_zlib_stream();
    let symbols = Seq::<lz77::LZSymbol>::empty();
    let block = fixed_block_bits(symbols);
    let lit = crate::miniz::huffman::fixed_litlen_lengths();
    crate::miniz::huffman::lemma_fixed_first_codes();
    crate::miniz::huffman::lemma_fixed_count(7, 256);
    assert(crate::miniz::huffman::canonical_code(lit, 256) == 0);
    let code = crate::miniz::huffman::code_bits(lit, 256);
    reveal_with_fuel(crate::miniz::huffman::msb_seq, 8);
    assert(code =~= seq![false, false, false, false, false, false, false]);
    assert(crate::miniz::deflate_fast::encode_bits(
        lit,
        crate::miniz::huffman::fixed_distance_lengths(),
        symbols,
    ) =~= Seq::<bool>::empty());
    assert(block =~= seq![true, true, false, false, false, false, false, false, false, false]);
    let bits = bits_of_bytes(stream);
    assert(bit_of(3, 0) && bit_of(3, 1) && !bit_of(3, 2) && !bit_of(3, 3) && !bit_of(3, 4)
        && !bit_of(3, 5) && !bit_of(3, 6) && !bit_of(3, 7) && !bit_of(0, 0) && !bit_of(0, 1))
        by (bit_vector);
    assert(bits.subrange(16, 26) =~= block) by {
        assert forall|i: int| 0 <= i < 10 implies bits[16 + i] == block[i] by {
            assert((16 + i) / 8 == (if i < 8 { 2int } else { 3int }));
            assert((16 + i) % 8 == (if i < 8 { i } else { i - 8 }));
        }
    }
    lemma_fixed_block_round_trip(stream, 16, Seq::empty(), symbols);
    assert(expand(symbols) =~= Seq::<u8>::empty());
    assert(align8(26) == 32);
    assert(be32(stream, 4) == 1);
    assert(adler32_spec(1, Seq::<u8>::empty()) == 1);
}

/// Appends `data` as stored blocks.
pub fn write_stored(out: &mut Vec<u8>, data: &[u8])
    ensures
        final(out)@ == old(out)@ + stored_stream(data@),
{
    let mut pos: usize = 0;
    let total: usize = data.len();
    proof {
        assert(data@.skip(0) =~= data@);
    }
    while total - pos > MAX_STORED
        invariant
            pos <= total,
            total == data@.len(),
            out@ + stored_stream(data@.skip(pos as int)) == old(out)@ + stored_stream(data@),
        decreases total - pos,
    {
        let ghost before = out@;
        let ghost rest = data@.skip(pos as int);
        out.push(0);
        out.push(0xFF);
        out.push(0xFF);
        out.push(0);
        out.push(0);
        let chunk = vstd::slice::slice_subrange(data, pos, pos + MAX_STORED);
        out.extend_from_slice(chunk);
        proof {
            assert(chunk@ =~= rest.take(65535));
            assert(rest.skip(65535) =~= data@.skip(pos + 65535));
            assert(out@ =~= before + stored_block(rest.take(65535), false));
            assert(before + stored_block(rest.take(65535), false) + stored_stream(
                rest.skip(65535),
            ) =~= before + stored_stream(rest));
        }
        pos = pos + MAX_STORED;
    }
    let left: usize = total - pos;
    let ghost before = out@;
    out.push(1);
    out.push((left % 256) as u8);
    out.push((left / 256) as u8);
    out.push((255 - left % 256) as u8);
    out.push((255 - left / 256) as u8);
    let chunk = vstd::slice::slice_subrange(data, pos, total);
    out.extend_from_slice(chunk);
    proof {
        assert(chunk@ =~= data@.skip(pos as int));
        assert(out@ =~= before + stored_block(data@.skip(pos as int), true));
    }
}

/// Appends the four bytes of `v`, most significant first.
pub fn write_be32(out: &mut Vec<u8>, v: u32)
    ensures
        final(out)@ == old(out)@ + be_bytes(v as int),
{
    let ghost before = out@;
    out.push((v / 0x100_0000) as u8);
    out.push(((v / 0x1_0000) % 256) as u8);
    out.push(((v / 0x100) % 256) as u8);
    out.push((v % 256) as u8);
    assert(out@ =~= before + be_bytes(v as int));
}

fn probes_for(level: i32) -> (n: usize)
    ensures
        n == probes_at(level as int),
{
    if level <= 1 {
        1
    } else if level <= 5 {
        8
    } else if level == 6 {
        32
    } else if level <= 8 {
        128
    } else {
        512
    }
}

/// The raw DEFLATE stream for `data`: stored blocks at level 0; at the
/// levels from 1 to 9 one block in the fixed code if that is shorter than
/// `data`, else stored blocks.
pub fn deflate_compress(data: &[u8], level: i32) -> (body: Vec<u8>)
    requires
        0 <= level <= 9,
    ensures
        body@ == deflate_stream(data@, level as int),
        inflate_raw(body@) == Ok::<Seq<u8>, InflateError>(data@),
{
    if level > 0 {
        let fixed = compress_fixed(data, probes_for(level));
        if fixed.len() < data.len() {
            proof {
                lemma_deflate_round_trip(data@, level as int);
            }
            return fixed;
        }
    }
    let mut body: Vec<u8> = Vec::new();
    write_stored(&mut body, data);
    proof {
        assert(body@ =~= stored_stream(data@));
        lemma_deflate_round_trip(data@, level as int);
    }
    body
}

/// The zlib stream for `data`: the header, the raw stream, and the
/// checksum.
pub fn compress_zlib(data: &[u8], level: i32) -> (out: Vec<u8>)
    requires
        0 <= level <= 9,
    ensures
        out@ == zlib_frame(deflate_stream(data@, level as int), data@),
        inflate_zlib(out@) == Ok::<Seq<u8>, InflateError>(data@),
{
    let body = deflate_compress(data, level);
    let mut out: Vec<u8> = Vec::new();
    out.push(ZLIB_CMF);
    out.push(ZLIB_FLG);
    out.extend_from_slice(body.as_slice());
    let checksum: u32 = adler32(1, data);
    write_be32(&mut out, checksum);
    proof {
        assert(out@ =~= zlib_frame(body@, data@));
        lemma_zlib_round_trip(data@, level as int);
    }
    out
}

/// The raw stream of empty input: one final block in the fixed code with
/// nothing but its end-of-block code.
pub open spec fn empty_raw_stream() -> Seq<u8> {
    seq![0x03u8, 0x00u8]
}

/// Round trip of the raw stream of empty input.
pub proof fn lemma_empty_raw_round_trip()
    ensures
        inflate_raw(empty_raw_stream()) == Ok::<Seq<u8>, InflateError>(Seq::empty()),
{
    let stream = empty_raw_stream();
    let symbols = Seq::<lz77::LZSymbol>::empty();
    let block = fixed_block_bits(symbols);
    let lit = crate::miniz::huffman::fixed_litlen_lengths();
    crate::miniz::huffman::lemma_fixed_first_codes();
    crate::miniz::huffman::lemma_fixed_count(7, 256);
    assert(crate::miniz::huffman::canonical_code(lit, 256) == 0);
    let code = crate::miniz::huffman::code_bits(lit, 256);
    reveal_with_fuel(crate::miniz::huffman::msb_seq, 8);
    assert(code =~= seq![false, false, false, false, false, false, false]);
    assert(crate::miniz::deflate_fast::encode_bits(
        lit,
        crate::miniz::huffman::fixed_distance_lengths(),
        symbols,
    ) =~= Seq::<bool>::empty());
    assert(block =~= seq![true, true, false, false, false, false, false, false, false, false]);
    let bits = bits_of_bytes(stream);
    assert(bit_of(3, 0) && bit_of(3, 1) && !bit_of(3, 2) && !bit_of(3, 3) && !bit_of(3, 4)
        && !bit_of(3, 5) && !bit_of(3, 6) && !bit_of(3, 7) && !bit_of(0, 0) && !bit_of(0, 1))
        by (bit_vector);
    assert(bits.subrange(0, 10) =~= block) by {
        assert forall|i: int| 0 <= i < 10 implies bits[i] == block[i] by {
            assert(i / 8 == (if i < 8 { 0int } else { 1int }));
            assert(i % 8 == (if i < 8 { i } else { i - 8 }));
        }
    }
    lemma_fixed_block_round_trip(stream, 0, Seq::empty(), symbols);
    assert(expand(symbols) =~= Seq::<u8>::empty());
}

/// How hard the encoder searches for matches.
#[derive(Debug, Clone, Copy, PartialEq, Eq)]
pub enum CompressionLevel {
    /// Level 0: stored blocks only.
    NoCompression,
    /// Level 1.
    Fastest,
    /// Level 2.
    Fast,
    /// Level 6.
    Default,
    /// Level 7.
    High,
    /// Level 9.
    Max,
}

impl CompressionLevel {
    /// The number of the level.
    pub open spec fn spec_number(self) -> int {
        match self {
            CompressionLevel::NoCompression => 0,
            CompressionLevel::Fastest => 1,
            CompressionLevel::Fast => 2,
            CompressionLevel::Default => 6,
            CompressionLevel::High => 7,
            CompressionLevel::Max => 9,
        }
    }

    /// The number of the level.
    pub fn number(self) -> (n: i32)
        ensures
            n == self.spec_number(),
    {
        match self {
            CompressionLevel::NoCompression => 0,
            CompressionLevel::Fastest => 1,
            CompressionLevel::Fast => 2,
            CompressionLevel::Default => 6,
            CompressionLevel::High => 7,
            CompressionLevel::Max => 9,
        }
    }
}

/// How the encoder weighs its choices. Every strategy gives a valid stream;
/// this encoder treats them alike.
#[derive(Debug, Clone, Copy, PartialEq, Eq)]
pub enum Strategy {
    Default,
    Filtered,
    HuffmanOnly,
    Rle,
}

/// What an encoder is set up with.
#[derive(Debug, Clone, Copy)]
pub struct DeflateOptions {
    pub level: CompressionLevel,
    /// From 9 to 15 for a zlib stream, 8 for a raw stream.
    pub window_bits: i32,
    pub mem_level: i32,
    pub strategy: Strategy,
}

impl Default for DeflateOptions {
    fn default() -> (o: Self)
        ensures
            o.level == CompressionLevel::Default,
            o.window_bits == 15,
            o.mem_level == 8,
            o.strategy == Strategy::Default,
    {
        Self {
            level: CompressionLevel::Default,
            window_bits: 15,
            mem_level: 8,
            strategy: Strategy::Default,
        }
    }
}

/// When the encoder is to emit what it holds.
#[derive(Debug, Clone, Copy, PartialEq, Eq)]
pub enum FlushMode {
    /// Emit when the encoder sees fit.
    NoFlush,
    /// Emit to a byte boundary.
    Sync,
    /// Emit and forget the window.
    Full,
    /// End the stream.
    Finish,
}

/// Why compression failed.
#[derive(Debug, Clone, PartialEq, Eq)]
pub enum DeflateError {
    /// The level is not one from 0 to 9.
    InvalidLevel,
    /// The output does not fit.
    BufferTooSmall,
    /// The encoder failed, with its message.
    CompressionError(String),
    /// A parameter is out of range.
    BadParam,
}

impl DeflateError {
    /// The message of the error.
    pub fn message(&self) -> (s: String)
        ensures
            s@ == (match *self {
                DeflateError::InvalidLevel => "Invalid compression level"@,
                DeflateError::BufferTooSmall => "Buffer too small"@,
                DeflateError::CompressionError(m) => "Compression error: "@ + m@,
                DeflateError::BadParam => "Bad parameter"@,
            }),
    {
        match self {
            DeflateError::InvalidLevel => String::from_str("Invalid compression level"),
            DeflateError::BufferTooSmall => String::from_str("Buffer too small"),
            DeflateError::CompressionError(m) => String::from_str("Compression error: ").concat(
                m.as_str(),
            ),
            DeflateError::BadParam => String::from_str("Bad parameter"),
        }
    }
}

/// What an encoder holds between calls.
#[derive(Debug)]
pub struct DeflateState {
    options: DeflateOptions,
    /// The number of bytes taken in since the last stream was handed out.
    total_in: usize,
}

/// A DEFLATE encoder that gathers input and compresses it when the stream is
/// asked for.
pub struct DeflateEncoder {
    state: DeflateState,
    input_buffer: Vec<u8>,
}

/// The stream that an encoder with these options makes of `data`: a zlib
/// stream for a window of more than 8 bits, a raw stream otherwise.
pub open spec fn stream_of(data: Seq<u8>, options: DeflateOptions) -> Seq<u8> {
    if options.window_bits > 8 {
        zlib_stream(data, options.level.spec_number())
    } else {
        raw_stream(data, options.level.spec_number())
    }
}

/// The number of compressed bytes that `data` gives at `level`, compressed
/// by itself: the length of its raw stream, and nothing for no data.
pub open spec fn compressed_len(data: Seq<u8>, level: int) -> int {
    if data.len() == 0 {
        0
    } else {
        deflate_stream(data, level).len() as int
    }
}

impl DeflateEncoder {
    /// The options that the encoder was made with.
    pub closed spec fn options(&self) -> DeflateOptions {
        self.state.options
    }

    /// The input gathered since the last stream was handed out.
    pub closed spec fn input(&self) -> Seq<u8> {
        self.input_buffer@
    }

    /// An encoder with the given options. Fails with `BadParam` unless the
    /// window has from 8 to 15 bits.
    pub fn new(options: DeflateOptions) -> (r: Result<Self, DeflateError>)
        ensures
            match r {
                Ok(e) => 8 <= options.window_bits <= 15 && e.options() == options
                    && e.input().len() == 0,
                Err(e) => !(8 <= options.window_bits <= 15) && e == DeflateError::BadParam,
            },
    {
        if options.window_bits < 8 || options.window_bits > 15 {
            return Err(DeflateError::BadParam);
        }
        Ok(Self { state: DeflateState { options, total_in: 0 }, input_buffer: Vec::new() })
    }

    /// Takes in `data`. Returns the number of compressed bytes that `data`
    /// gives at the level of the encoder, compressed by itself; none for no
    /// data. The stream itself is made of all the input together, when it is
    /// asked for.
    pub fn compress(&mut self, data: &[u8], flush: FlushMode) -> (r: Result<usize, DeflateError>)
        ensures
            r == Ok::<usize, DeflateError>(
                compressed_len(data@, old(self).options().level.spec_number()) as usize,
            ),
            final(self).input() == old(self).input() + data@,
            final(self).options() == old(self).options(),
    {
        self.input_buffer.extend_from_slice(data);
        self.state.total_in = self.input_buffer.len();
        if data.len() == 0 {
            return Ok(0);
        }
        let alone = deflate_compress(data, self.state.options.level.number());
        Ok(alone.len())
    }

    /// Compresses the input gathered so far, hands out the stream and
    /// starts afresh.
    pub fn get_compressed(&mut self) -> (r: Result<Vec<u8>, DeflateError>)
        ensures
            r.is_ok(),
            r.unwrap()@ == stream_of(old(self).input(), old(self).options()),
            old(self).options().window_bits > 8 ==> inflate_zlib(r.unwrap()@) == Ok::<
                Seq<u8>,
                InflateError,
            >(old(self).input()),
            old(self).options().window_bits <= 8 ==> inflate_raw(r.unwrap()@) == Ok::<
                Seq<u8>,
                InflateError,
            >(old(self).input()),
            final(self).input().len() == 0,
            final(self).options() == old(self).options(),
    {
        let level: i32 = self.state.options.level.number();
        let zlib: bool = self.state.options.window_bits > 8;
        let out: Vec<u8> = if self.input_buffer.len() == 0 {
            proof {
                lemma_empty_round_trip();
                lemma_empty_raw_round_trip();
                assert(self.input_buffer@ =~= Seq::<u8>::empty());
            }
            if zlib {
                empty_zlib_bytes()
            } else {
                empty_raw_bytes()
            }
        } else if zlib {
            compress_zlib(self.input_buffer.as_slice(), level)
        } else {
            deflate_compress(self.input_buffer.as_slice(), level)
        };
        self.input_buffer.clear();
        self.state.total_in = 0;
        Ok(out)
    }
}

/// The zlib stream of empty input.
pub fn empty_zlib_bytes() -> (out: Vec<u8>)
    ensures
        out@ == empty_zlib_stream(),
{
    let mut out: Vec<u8> = Vec::new();
    out.push(0x78);
    out.push(0x9C);
    out.push(0x03);
    out.push(0x00);
    out.push(0x00);
    out.push(0x00);
    out.push(0x00);
    out.push(0x01);
    assert(out@ =~= empty_zlib_stream());
    out
}

/// The raw stream of empty input.
pub fn empty_raw_bytes() -> (out: Vec<u8>)
    ensures
        out@ == empty_raw_stream(),
{
    let mut out: Vec<u8> = Vec::new();
    out.push(0x03);
    out.push(0x00);
    assert(out@ =~= empty_raw_stream());
    out
}

/// A compressed buffer with the numbers of bytes read and written.
#[derive(Debug, Clone, PartialEq)]
pub struct DeflateOutput {
    /// The compressed stream.
    pub output: Vec<u8>,
    /// The number of bytes of input that were compressed.
    pub bytes_read: i32,
    /// The number of bytes of output.
    pub bytes_written: i32,
}

/// A compressed buffer with the numbers of bytes read and written.
#[derive(Debug, Clone, PartialEq)]
pub struct CompressResult {
    /// The compressed stream.
    pub output: Vec<u8>,
    /// The number of bytes of input that were compressed.
    pub bytes_read: usize,
    /// The number of bytes of output.
    pub bytes_written: usize,
}

/// The zlib stream that the encoder makes of `data` at `level`: of empty
/// input the eight bytes `78 9C 03 00 00 00 00 01`; else the header, the raw
/// stream, and the checksum of `data`.
pub open spec fn zlib_stream(data: Seq<u8>, level: int) -> Seq<u8> {
    if data.len() == 0 {
        empty_zlib_stream()
    } else {
        zlib_frame(deflate_stream(data, level), data)
    }
}

/// The raw stream that the encoder makes of `data` at `level`: of empty
/// input the two bytes `03 00`.
pub open spec fn raw_stream(data: Seq<u8>, level: int) -> Seq<u8> {
    if data.len() == 0 {
        empty_raw_stream()
    } else {
        deflate_stream(data, level)
    }
}

/// Round trip: the zlib stream that the encoder makes of `data` at any
/// level decodes to `data`.
pub proof fn lemma_compress_round_trip(data: Seq<u8>, level: int)
    ensures
        inflate_zlib(zlib_stream(data, level)) == Ok::<Seq<u8>, InflateError>(data),
{
    if data.len() == 0 {
        lemma_empty_round_trip();
        assert(data =~= Seq::<u8>::empty());
    } else {
        lemma_zlib_round_trip(data, level);
    }
}

/// Round trip: the raw stream that the encoder makes of `data` at any level
/// decodes to `data`.
pub proof fn lemma_compress_raw_round_trip(data: Seq<u8>, level: int)
    ensures
        inflate_raw(raw_stream(data, level)) == Ok::<Seq<u8>, InflateError>(data),
{
    if data.len() == 0 {
        lemma_empty_raw_round_trip();
        assert(data =~= Seq::<u8>::empty());
    } else {
        lemma_deflate_round_trip(data, level);
    }
}

/// Compresses, into a zlib stream, what `data` holds from the 1-based
/// position `pos` on. Empty `data` gives the eight bytes
/// `78 9C 03 00 00 00 00 01` whatever the other arguments are. Else the call
/// fails with `BadParam` when `pos` lies outside `data`, and with
/// `InvalidLevel` unless `level` is one from 0 to 9. `_size` is a hint and
/// has no effect.
pub fn compress(data: &[u8], level: i32, pos: i32, _size: Option<i32>) -> (r: Result<
    DeflateOutput,
    DeflateError,
>)
    ensures
        if data@.len() == 0 {
            r.is_ok() && r.unwrap().output@ == empty_zlib_stream() && r.unwrap().bytes_read == 0
                && r.unwrap().bytes_written == 8
        } else if pos < 1 || pos - 1 >= data@.len() {
            r.is_err() && r.unwrap_err() == DeflateError::BadParam
        } else if level < 0 || level > 9 {
            r.is_err() && r.unwrap_err() == DeflateError::InvalidLevel
        } else {
            r.is_ok() && r.unwrap().output@ == zlib_stream(data@.skip(pos - 1), level as int)
                && inflate_zlib(r.unwrap().output@) == Ok::<Seq<u8>, InflateError>(
                data@.skip(pos - 1),
            ) && r.unwrap().bytes_read == clamp_i32(data@.len() - (pos - 1))
                && r.unwrap().bytes_written == clamp_i32(r.unwrap().output@.len() as int)
        },
{
    if data.len() == 0 {
        return Ok(DeflateOutput { output: empty_zlib_bytes(), bytes_read: 0, bytes_written: 8 });
    }
    if pos < 1 {
        return Err(DeflateError::BadParam);
    }
    let pos_index: usize = (pos - 1) as usize;
    if pos_index >= data.len() {
        return Err(DeflateError::BadParam);
    }
    if level < 0 || level > 9 {
        return Err(DeflateError::InvalidLevel);
    }
    let input = vstd::slice::slice_subrange(data, pos_index, data.len());
    proof {
        assert(input@ =~= data@.skip(pos - 1));
    }
    let output = compress_zlib(input, level);
    let bytes_written: i32 = to_i32(output.len());
    Ok(DeflateOutput { output, bytes_read: to_i32(input.len()), bytes_written })
}

/// Compresses `data` into a zlib stream. `capacity` is a hint and has no
/// effect.
pub fn compress_to_buffer(data: &[u8], level: i32, capacity: usize) -> (r: Result<
    CompressResult,
    DeflateError,
>)
    ensures
        if data@.len() == 0 {
            r.is_ok() && r.unwrap().output@ == empty_zlib_stream() && r.unwrap().bytes_read == 0
                && r.unwrap().bytes_written == 8
        } else if level < 0 || level > 9 {
            r.is_err() && r.unwrap_err() == DeflateError::InvalidLevel
        } else {
            r.is_ok() && r.unwrap().output@ == zlib_stream(data@, level as int)
                && inflate_zlib(r.unwrap().output@) == Ok::<Seq<u8>, InflateError>(data@)
                && r.unwrap().bytes_read == clamp_i32(data@.len() as int)
                && r.unwrap().bytes_written == clamp_i32(r.unwrap().output@.len() as int)
        },
{
    proof {
        assert(data@.skip(0) =~= data@);
    }
    match compress(data, level, 1, Some(to_i32(capacity))) {
        Ok(result) => Ok(
            CompressResult {
                output: result.output,
                bytes_read: result.bytes_read as usize,
                bytes_written: result.bytes_written as usize,
            },
        ),
        Err(e) => Err(e),
    }
}

/// Compresses `data` into a raw DEFLATE stream, one without zlib header and
/// checksum. Empty `data` gives the two bytes `03 00`.
pub fn compress_raw(data: &[u8], level: i32) -> (r: Result<Vec<u8>, DeflateError>)
    ensures
        if data@.len() == 0 {
            r.is_ok() && r.unwrap()@ == empty_raw_stream()
        } else if level < 0 || level > 9 {
            r.is_err() && r.unwrap_err() == DeflateError::InvalidLevel
        } else {
            r.is_ok() && r.unwrap()@ == raw_stream(data@, level as int)
        },
        r.is_ok() ==> inflate_raw(r.unwrap()@) == Ok::<Seq<u8>, InflateError>(data@),
{
    if data.len() == 0 {
        proof {
            lemma_empty_raw_round_trip();
            assert(data@ =~= Seq::<u8>::empty());
        }
        return Ok(empty_raw_bytes());
    }
    if level < 0 || level > 9 {
        return Err(DeflateError::InvalidLevel);
    }
    Ok(deflate_compress(data, level))
}

} // verus!
