//! CRC-32 with the reflected polynomial of zlib and PNG.

use vstd::prelude::*;

verus! {

/// The reflected CRC-32 polynomial.
pub const CRC32_POLY: u32 = 0xEDB8_8320;

/// One division step: shifts one bit out and subtracts the polynomial when
/// that bit was set.
pub open spec fn crc_step(x: u32) -> u32 {
    if x & 1 == 1 {
        (x >> 1) ^ 0xEDB8_8320u32
    } else {
        x >> 1
    }
}

/// Eight division steps.
pub open spec fn crc_step8(x: u32) -> u32 {
    crc_step(crc_step(crc_step(crc_step(crc_step(crc_step(crc_step(crc_step(x))))))))
}

/// The register after one more input byte.
pub open spec fn crc_update(reg: u32, byte: u8) -> u32 {
    crc_step8(reg ^ (byte as u32))
}

/// The register after all of `data`.
pub open spec fn crc_register(reg: u32, data: Seq<u8>) -> u32
    decreases data.len(),
{
    if data.len() == 0 {
        reg
    } else {
        crc_update(crc_register(reg, data.drop_last()), data.last())
    }
}

/// CRC-32 of `data`, continuing from the running value `crc` (0 for a fresh
/// stream). The register is the complement of the running value.
pub open spec fn crc32_spec(crc: u32, data: Seq<u8>) -> u32 {
    !crc_register(!crc, data)
}

/// Feeding a concatenation continues the register of its first part.
pub proof fn lemma_crc_register_concat(reg: u32, a: Seq<u8>, b: Seq<u8>)
    ensures
        crc_register(reg, a + b) == crc_register(crc_register(reg, a), b),
    decreases b.len(),
{
    if b.len() == 0 {
        assert(a + b =~= a);
    } else {
        assert((a + b).drop_last() =~= a + b.drop_last());
        lemma_crc_register_concat(reg, a, b.drop_last());
    }
}

/// No input leaves the running value as it is: the checksum of nothing,
/// for a fresh stream, is 0.
pub proof fn lemma_crc32_of_nothing(crc: u32)
    ensures
        crc32_spec(crc, Seq::empty()) == crc,
        crc32_spec(0, Seq::empty()) == 0,
{
    assert(!!crc == crc) by (bit_vector);
    assert(!!0u32 == 0u32) by (bit_vector);
}

/// The checksum of a stream can be computed in pieces: the value after the
/// first piece is the running value for the second.
pub proof fn lemma_crc32_chunks(crc: u32, a: Seq<u8>, b: Seq<u8>)
    ensures
        crc32_spec(crc32_spec(crc, a), b) == crc32_spec(crc, a + b),
{
    lemma_crc_register_concat(!crc, a, b);
    let r = crc_register(!crc, a);
    assert(!!r == r) by (bit_vector);
}

proof fn lemma_crc_step(x: u32)
    by (bit_vector)
    ensures
        crc_step(x) == (if x & 1 == 1 {
            (x >> 1) ^ 0xEDB8_8320u32
        } else {
            x >> 1
        }),
{
}

/// Eight steps on a register are the table entry of its low byte, combined
/// with the rest of the register.
proof fn lemma_crc_table_step(x: u32)
    by (bit_vector)
    ensures
        crc_step8(x) == crc_step8(x & 0xFF) ^ (x >> 8),
        (x & 0xFF) < 256,
{
}

/// The lookup table: entry `i` is eight division steps on `i`.
pub struct Crc32 {
    table: Vec<u32>,
}

impl Crc32 {
    /// The table has 256 entries, each eight division steps on its index.
    pub closed spec fn wf(&self) -> bool {
        &&& self.table@.len() == 256
        &&& forall|i: int| 0 <= i < 256 ==> #[trigger] self.table@[i] == crc_step8(i as u32)
    }

    /// Computes the table.
    pub fn new() -> (t: Self)
        ensures
            t.wf(),
    {
        let mut table: Vec<u32> = Vec::new();
        let mut i: u32 = 0;
        while i < 256
            invariant
                i <= 256,
                table@.len() == i,
                forall|j: int| 0 <= j < i ==> #[trigger] table@[j] == crc_step8(j as u32),
            decreases 256 - i,
        {
            let mut c: u32 = i;
            let c0: u32 = c;
            c = if c & 1 == 1 { (c >> 1) ^ CRC32_POLY } else { c >> 1 };
            let c1: u32 = c;
            c = if c & 1 == 1 { (c >> 1) ^ CRC32_POLY } else { c >> 1 };
            let c2: u32 = c;
            c = if c & 1 == 1 { (c >> 1) ^ CRC32_POLY } else { c >> 1 };
            let c3: u32 = c;
            c = if c & 1 == 1 { (c >> 1) ^ CRC32_POLY } else { c >> 1 };
            let c4: u32 = c;
            c = if c & 1 == 1 { (c >> 1) ^ CRC32_POLY } else { c >> 1 };
            let c5: u32 = c;
            c = if c & 1 == 1 { (c >> 1) ^ CRC32_POLY } else { c >> 1 };
            let c6: u32 = c;
            c = if c & 1 == 1 { (c >> 1) ^ CRC32_POLY } else { c >> 1 };
            let c7: u32 = c;
            c = if c & 1 == 1 { (c >> 1) ^ CRC32_POLY } else { c >> 1 };
            proof {
                lemma_crc_step(c0);
                lemma_crc_step(c1);
                lemma_crc_step(c2);
                lemma_crc_step(c3);
                lemma_crc_step(c4);
                lemma_crc_step(c5);
                lemma_crc_step(c6);
                lemma_crc_step(c7);
            }
            table.push(c);
            i = i + 1;
        }
        Self { table }
    }

    /// CRC-32 of `data`, continuing from the running value `crc`.
    pub fn update(&self, crc: u32, data: &[u8]) -> (r: u32)
        requires
            self.wf(),
        ensures
            r == crc32_spec(crc, data@),
    {
        let mut reg: u32 = !crc;
        let mut i: usize = 0;
        while i < data.len()
            invariant
                self.wf(),
                i <= data.len(),
                reg == crc_register(!crc, data@.take(i as int)),
            decreases data.len() - i,
        {
            let x: u32 = reg ^ (data[i] as u32);
            proof {
                lemma_crc_table_step(x);
                assert(data@.take(i + 1).drop_last() =~= data@.take(i as int));
                let b = data@[i as int] as u32;
                assert((reg ^ b) >> 8 == reg >> 8) by (bit_vector)
                    requires
                        b < 256,
                ;
            }
            reg = self.table[(x & 0xFF) as usize] ^ (reg >> 8);
            i = i + 1;
        }
        assert(data@.take(i as int) =~= data@);
        !reg
    }
}

/// CRC-32 of `data`, continuing from the running value `crc` (0 for a fresh
/// stream).
pub fn crc32(crc: u32, data: &[u8]) -> (r: u32)
    ensures
        r == crc32_spec(crc, data@),
{
    let table = Crc32::new();
    table.update(crc, data)
}

} // verus!
