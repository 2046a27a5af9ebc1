//! The compression codec: bit I/O, checksums, Huffman coding, LZ77, and the
//! DEFLATE encoder and INFLATE decoder built on them.

use vstd::prelude::*;

pub mod bitstream;
pub mod crc32;
pub mod deflate;
pub mod deflate_fast;
pub mod huffman;
pub mod inflate;
pub mod lz77;

verus! {

/// The modulus of both Adler-32 sums: the largest prime below 2^16.
pub const ADLER_MOD: u32 = 65521;

/// The most bytes that are summed between two reductions.
pub const ADLER_BLOCK: usize = 5552;

/// The Adler-32 value of the empty stream.
pub const ADLER32_INIT: u32 = 1;

/// The two running sums after `data`, starting from `state`: the first sum
/// adds each byte, the second adds each value of the first; both modulo 65521.
pub open spec fn adler_sums(state: (int, int), data: Seq<u8>) -> (int, int)
    decreases data.len(),
{
    if data.len() == 0 {
        state
    } else {
        let prev = adler_sums(state, data.drop_last());
        let s1 = (prev.0 + data.last() as int) % 65521;
        (s1, (prev.1 + s1) % 65521)
    }
}

/// The Adler-32 checksum that continues the running value `adler` over
/// `data`: the second sum in the high half, the first in the low half.
pub open spec fn adler32_spec(adler: u32, data: Seq<u8>) -> int {
    let sums = adler_sums(((adler % 65536) as int, (adler / 65536) as int), data);
    sums.1 * 65536 + sums.0
}

/// Both sums stay below 65536 when they start there.
pub proof fn lemma_adler_sums_bounded(state: (int, int), data: Seq<u8>)
    requires
        0 <= state.0 < 65536,
        0 <= state.1 < 65536,
    ensures
        0 <= adler_sums(state, data).0 < 65536,
        0 <= adler_sums(state, data).1 < 65536,
        data.len() > 0 ==> adler_sums(state, data).0 < 65521 && adler_sums(state, data).1 < 65521,
    decreases data.len(),
{
    if data.len() > 0 {
        lemma_adler_sums_bounded(state, data.drop_last());
    }
}

/// Summing over a concatenation continues the sums of its first part.
pub proof fn lemma_adler_sums_concat(state: (int, int), a: Seq<u8>, b: Seq<u8>)
    ensures
        adler_sums(state, a + b) == adler_sums(adler_sums(state, a), b),
    decreases b.len(),
{
    if b.len() == 0 {
        assert(a + b =~= a);
    } else {
        assert((a + b).drop_last() =~= a + b.drop_last());
        lemma_adler_sums_concat(state, a, b.drop_last());
    }
}

/// The checksum of a stream can be computed in pieces: the value after the
/// first piece is the running value for the second.
pub proof fn lemma_adler32_chunks(adler: u32, a: Seq<u8>, b: Seq<u8>)
    ensures
        0 <= adler32_spec(adler, a) <= u32::MAX,
        adler32_spec(adler32_spec(adler, a) as u32, b) == adler32_spec(adler, a + b),
{
    let init = ((adler % 65536) as int, (adler / 65536) as int);
    lemma_adler_sums_bounded(init, a);
    lemma_adler_sums_concat(init, a, b);
    let mid = adler_sums(init, a);
    let v = (mid.1 * 65536 + mid.0) as u32;
    assert(v % 65536 == mid.0);
    assert(v / 65536 == mid.1);
}

/// Congruent numbers stay congruent when the same number is added.
proof fn lemma_mod_add(a: int, c: int, b: int)
    requires
        a % 65521 == c % 65521,
    ensures
        (a + b) % 65521 == (c + b) % 65521,
        (c % 65521) % 65521 == c % 65521,
{
    vstd::arithmetic::div_mod::lemma_add_mod_noop(a, b, 65521);
    vstd::arithmetic::div_mod::lemma_add_mod_noop(c, b, 65521);
}

/// Adler-32 of `data`, continuing from the running value `adler` (1 for a
/// fresh stream).
pub fn adler32(adler: u32, data: &[u8]) -> (r: u32)
    ensures
        r == adler32_spec(adler, data@),
{
    let mut s1: u64 = (adler & 0xFFFF) as u64;
    let mut s2: u64 = ((adler >> 16) & 0xFFFF) as u64;
    proof {
        assert(adler & 0xFFFF == adler % 65536) by (bit_vector);
        assert((adler >> 16) & 0xFFFF == adler / 65536) by (bit_vector);
    }
    let ghost init = (s1 as int, s2 as int);
    let mut done: usize = 0;
    while done < data.len()
        invariant
            done <= data.len(),
            0 <= init.0 < 65536,
            0 <= init.1 < 65536,
            s1 == adler_sums(init, data@.take(done as int)).0,
            s2 == adler_sums(init, data@.take(done as int)).1,
        decreases data.len() - done,
    {
        let left: usize = data.len() - done;
        let block_len: usize = if left < ADLER_BLOCK { left } else { ADLER_BLOCK };
        let ghost base = done;
        let mut i: usize = 0;
        proof {
            lemma_adler_sums_bounded(init, data@.take(done as int));
        }
        while i < block_len
            invariant
                i <= block_len <= 5552,
                base + block_len <= data.len(),
                done == base + i,
                0 <= init.0 < 65536,
                0 <= init.1 < 65536,
                s1 <= 65535 + 255 * i,
                s2 <= 65535 + 1481295 * i,
                s1 % 65521 == adler_sums(init, data@.take(done as int)).0 % 65521,
                s2 % 65521 == adler_sums(init, data@.take(done as int)).1 % 65521,
            decreases block_len - i,
        {
            proof {
                assert(data@.take(done + 1).drop_last() =~= data@.take(done as int));
                lemma_adler_sums_bounded(init, data@.take(done as int));
                let prev = adler_sums(init, data@.take(done as int));
                let b = data@[done as int] as int;
                lemma_mod_add(s1 as int, prev.0, b);
                lemma_mod_add(s2 as int, prev.1, s1 + b);
                lemma_mod_add(s1 + b, (prev.0 + b) % 65521, prev.1);
            }
            s1 = s1 + data[done] as u64;
            s2 = s2 + s1;
            i = i + 1;
            done = done + 1;
        }
        proof {
            lemma_adler_sums_bounded(init, data@.take(done as int));
        }
        s1 = s1 % (ADLER_MOD as u64);
        s2 = s2 % (ADLER_MOD as u64);
    }
    proof {
        assert(data@.take(done as int) =~= data@);
        lemma_adler_sums_bounded(init, data@);
        let a = s1 as u32;
        let b = s2 as u32;
        assert((b << 16) | a == b * 65536 + a) by (bit_vector)
            requires
                a < 65536,
                b < 65536,
        ;
    }
    ((s2 as u32) << 16) | (s1 as u32)
}

} // verus!
