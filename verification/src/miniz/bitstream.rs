//! Bit-level reader and writer over byte buffers, least significant bit first.

use vstd::prelude::*;

verus! {

/// Bit `i` of `v`, counted from the least significant end.
pub open spec fn bit_of(v: u64, i: u64) -> bool {
    (v >> i) & 1 == 1
}

/// The low `n` bits of `v` in stream order: least significant first.
pub open spec fn low_bits(v: u64, n: int) -> Seq<bool> {
    Seq::new(n as nat, |i: int| bit_of(v, i as u64))
}

/// The bits of a byte string in stream order: bytes in sequence, each byte
/// least significant bit first.
pub open spec fn bits_of_bytes(s: Seq<u8>) -> Seq<bool> {
    Seq::new(8 * s.len(), |i: int| bit_of(s[i / 8] as u64, (i % 8) as u64))
}

/// The number that a bit sequence spells when its first bit is the least
/// significant one.
pub open spec fn lsb_value(bits: Seq<bool>) -> nat
    decreases bits.len(),
{
    if bits.len() == 0 {
        0
    } else {
        (if bits[0] { 1nat } else { 0nat }) + 2 * lsb_value(bits.skip(1))
    }
}

/// The number that a bit sequence spells when its first bit is the most
/// significant one.
pub open spec fn msb_value(bits: Seq<bool>) -> nat
    decreases bits.len(),
{
    if bits.len() == 0 {
        0
    } else {
        2 * msb_value(bits.drop_last()) + (if bits.last() { 1nat } else { 0nat })
    }
}

pub proof fn lemma_bit_of_low_byte(v: u64, i: u64)
    by (bit_vector)
    requires
        i < 8,
    ensures
        bit_of(v & 0xFF, i) == bit_of(v, i),
{
}

pub proof fn lemma_bit_of_shr8(v: u64, i: u64)
    by (bit_vector)
    requires
        i < 56,
    ensures
        bit_of(v >> 8, i) == bit_of(v, (i + 8) as u64),
{
}

pub proof fn lemma_bit_of_masked(v: u64, n: u64, i: u64)
    by (bit_vector)
    requires
        n <= 32,
        i < 64,
    ensures
        bit_of(v & (((1u64 << n) - 1) as u64), i) == (i < n && bit_of(v, i)),
        (v & (((1u64 << n) - 1) as u64)) < (1u64 << n),
        (1u64 << n) >= 1,
{
}

pub proof fn lemma_bit_of_or_shl(a: u64, b: u64, k: u64, n: u64, i: u64)
    by (bit_vector)
    requires
        k <= 31,
        n <= 32,
        a < (1u64 << k),
        b < (1u64 << n),
        i < 64,
    ensures
        bit_of(a | (b << k), i) == (if i < k {
            bit_of(a, i)
        } else {
            bit_of(b, (i - k) as u64)
        }),
        (a | (b << k)) < (1u64 << ((k + n) as u64)),
{
}

pub proof fn lemma_shr8_bound(v: u64, m: u64)
    by (bit_vector)
    requires
        8 <= m <= 56,
        v < (1u64 << m),
    ensures
        (v >> 8) < (1u64 << ((m - 8) as u64)),
        (v & 0xFF) < 256,
{
}

pub proof fn lemma_bit_of_small(v: u64, m: u64, i: u64)
    by (bit_vector)
    requires
        m <= 56,
        v < (1u64 << m),
        m <= i < 64,
    ensures
        !bit_of(v, i),
{
}

pub proof fn lemma_bit_of_zero(i: u64)
    by (bit_vector)
    requires
        i < 64,
    ensures
        !bit_of(0, i),
{
}

/// A run of `n` zero bits.
pub open spec fn zero_bits(n: int) -> Seq<bool> {
    Seq::new(n as nat, |i: int| false)
}

/// The zero bits that bring a stream of `len` bits to a byte boundary.
pub open spec fn padding(len: int) -> Seq<bool> {
    zero_bits((8 - len % 8) % 8)
}

/// Splitting a byte string splits its bits.
pub proof fn lemma_bits_of_bytes_concat(a: Seq<u8>, b: Seq<u8>)
    ensures
        bits_of_bytes(a + b) =~= bits_of_bytes(a) + bits_of_bytes(b),
{
    assert forall|i: int| 0 <= i < 8 * (a.len() + b.len()) implies #[trigger] bits_of_bytes(a + b)[i]
        == (bits_of_bytes(a) + bits_of_bytes(b))[i] by {
        if i < 8 * a.len() {
            assert((a + b)[i / 8] == a[i / 8]);
        } else {
            assert((i - 8 * a.len()) / 8 == i / 8 - a.len());
            assert((i - 8 * a.len()) % 8 == i % 8);
            assert((a + b)[i / 8] == b[i / 8 - a.len()]);
        }
    }
}

/// The bits of one byte are its low eight bits.
pub proof fn lemma_bits_of_one_byte(b: u8)
    ensures
        bits_of_bytes(seq![b]) =~= low_bits(b as u64, 8),
{
    assert forall|i: int| 0 <= i < 8 implies #[trigger] bits_of_bytes(seq![b])[i] == low_bits(
        b as u64,
        8,
    )[i] by {
        assert(i / 8 == 0);
        assert(i % 8 == i);
    }
}

/// Accumulates bits and emits them as bytes, least significant bit first.
pub struct BitWriter {
    data: Vec<u8>,
    bit_buf: u64,
    num_bits: u8,
}

impl View for BitWriter {
    type V = Seq<bool>;

    /// Every bit written so far, in stream order.
    open spec fn view(&self) -> Seq<bool> {
        bits_of_bytes(self.bytes()) + self.pending()
    }
}

impl BitWriter {
    /// The complete bytes emitted so far.
    pub closed spec fn bytes(&self) -> Seq<u8> {
        self.data@
    }

    /// The bits written after the last complete byte.
    pub closed spec fn pending(&self) -> Seq<bool> {
        low_bits(self.bit_buf, self.num_bits as int)
    }

    /// Fewer than eight bits are pending, and the accumulator holds nothing
    /// above them.
    pub closed spec fn wf(&self) -> bool {
        &&& self.num_bits < 8
        &&& self.bit_buf < (1u64 << (self.num_bits as u64))
    }

    /// A well-formed writer has fewer than eight pending bits.
    pub proof fn lemma_pending_short(&self)
        requires
            self.wf(),
        ensures
            self.pending().len() < 8,
            self@.len() == 8 * self.bytes().len() + self.pending().len(),
    {
    }

    pub fn new() -> (w: Self)
        ensures
            w.wf(),
            w@ =~= Seq::<bool>::empty(),
            w.bytes() =~= Seq::<u8>::empty(),
    {
        assert(0u64 < (1u64 << 0u64)) by (bit_vector);
        Self { data: Vec::new(), bit_buf: 0, num_bits: 0 }
    }

    /// A writer that continues after the given bytes.
    pub fn from_bytes(data: &[u8]) -> (w: Self)
        ensures
            w.wf(),
            w@ =~= bits_of_bytes(data@),
            w.bytes() == data@,
    {
        assert(0u64 < (1u64 << 0u64)) by (bit_vector);
        Self { data: vstd::slice::slice_to_vec(data), bit_buf: 0, num_bits: 0 }
    }

    /// Appends the low `n` bits of `bits`, least significant first.
    pub fn write_bits(&mut self, bits: u32, n: u8)
        requires
            old(self).wf(),
            n <= 32,
        ensures
            final(self).wf(),
            final(self)@ =~= old(self)@ + low_bits(bits as u64, n as int),
    {
        if n == 0 {
            return ;
        }
        let ghost start = self@;
        let ghost added = low_bits(bits as u64, n as int);
        let ghost buf0 = self.bit_buf;
        let ghost k0 = self.num_bits as u64;
        proof {
            lemma_bit_of_masked(bits as u64, n as u64, 0);
        }
        let masked: u64 = (bits as u64) & ((1u64 << n) - 1);
        proof {
            lemma_bit_of_or_shl(buf0, masked, k0, n as u64, 0);
        }
        self.bit_buf = self.bit_buf | (masked << self.num_bits);
        self.num_bits = self.num_bits + n;
        proof {
            assert(low_bits(self.bit_buf, self.num_bits as int) =~= low_bits(buf0, k0 as int)
                + added) by {
                assert forall|i: int| 0 <= i < k0 + n implies #[trigger] low_bits(
                    self.bit_buf,
                    self.num_bits as int,
                )[i] == (low_bits(buf0, k0 as int) + added)[i] by {
                    lemma_bit_of_or_shl(buf0, masked, k0, n as u64, i as u64);
                    if i >= k0 {
                        lemma_bit_of_masked(bits as u64, n as u64, (i - k0) as u64);
                    }
                }
            }
        }
        while self.num_bits >= 8
            invariant
                self.num_bits <= 39,
                self.bit_buf < (1u64 << (self.num_bits as u64)),
                bits_of_bytes(self.data@) + low_bits(self.bit_buf, self.num_bits as int) =~= start
                    + added,
            decreases self.num_bits,
        {
            let ghost buf = self.bit_buf;
            let ghost nb = self.num_bits as int;
            let ghost data = self.data@;
            proof {
                lemma_shr8_bound(buf, nb as u64);
            }
            let byte: u8 = (self.bit_buf & 0xFF) as u8;
            self.data.push(byte);
            self.bit_buf = self.bit_buf >> 8;
            self.num_bits = self.num_bits - 8;
            proof {
                lemma_bits_of_bytes_concat(data, seq![byte]);
                lemma_bits_of_one_byte(byte);
                assert(self.data@ =~= data + seq![byte]);
                assert(low_bits(byte as u64, 8) + low_bits(self.bit_buf, nb - 8) =~= low_bits(
                    buf,
                    nb,
                )) by {
                    assert forall|i: int| 0 <= i < nb implies #[trigger] (low_bits(byte as u64, 8)
                        + low_bits(self.bit_buf, nb - 8))[i] == low_bits(buf, nb)[i] by {
                        if i < 8 {
                            lemma_bit_of_low_byte(buf, i as u64);
                        } else {
                            lemma_bit_of_shr8(buf, (i - 8) as u64);
                        }
                    }
                }
            }
        }
    }

    /// Appends one bit.
    pub fn write_bit(&mut self, bit: bool)
        requires
            old(self).wf(),
        ensures
            final(self).wf(),
            final(self)@ =~= old(self)@.push(bit),
    {
        let v: u32 = if bit { 1 } else { 0 };
        proof {
            assert(bit_of(1u64, 0) && !bit_of(0u64, 0)) by (bit_vector);
            assert(low_bits(v as u64, 1) =~= seq![bit]);
        }
        self.write_bits(v, 1);
    }

    /// Appends the eight bits of `byte`.
    pub fn write_byte(&mut self, byte: u8)
        requires
            old(self).wf(),
        ensures
            final(self).wf(),
            final(self)@ =~= old(self)@ + low_bits(byte as u64, 8),
    {
        self.write_bits(byte as u32, 8);
    }

    /// Appends the bits of every byte of `data`.
    pub fn write_bytes(&mut self, data: &[u8])
        requires
            old(self).wf(),
        ensures
            final(self).wf(),
            final(self)@ =~= old(self)@ + bits_of_bytes(data@),
    {
        let mut i: usize = 0;
        while i < data.len()
            invariant
                i <= data.len(),
                self.wf(),
                self@ =~= old(self)@ + bits_of_bytes(data@.take(i as int)),
            decreases data.len() - i,
        {
            let byte: u8 = data[i];
            proof {
                lemma_bits_of_bytes_concat(data@.take(i as int), seq![byte]);
                lemma_bits_of_one_byte(byte);
                assert(data@.take(i + 1) =~= data@.take(i as int) + seq![byte]);
            }
            self.write_bits(byte as u32, 8);
            i = i + 1;
        }
        assert(data@.take(i as int) =~= data@);
    }

    /// Pads with zero bits up to the next byte boundary.
    pub fn align_to_byte(&mut self)
        requires
            old(self).wf(),
        ensures
            final(self).wf(),
            final(self)@ =~= old(self)@ + padding(old(self)@.len() as int),
            final(self).pending().len() == 0,
    {
        let bits_to_pad: u8 = 8 - (self.num_bits % 8);
        if bits_to_pad < 8 {
            proof {
                assert forall|i: int| 0 <= i < bits_to_pad implies !#[trigger] low_bits(
                    0u64,
                    bits_to_pad as int,
                )[i] by {
                    lemma_bit_of_zero(i as u64);
                }
                assert(low_bits(0u64, bits_to_pad as int) =~= padding(self@.len() as int));
            }
            self.write_bits(0, bits_to_pad);
            proof {
                assert(self@.len() % 8 == 0);
            }
        } else {
            assert(padding(self@.len() as int) =~= Seq::<bool>::empty());
        }
    }

    /// The number of complete bytes written.
    pub fn len(&self) -> (n: usize)
        requires
            self.wf(),
        ensures
            n == self.bytes().len(),
            n == self@.len() / 8,
    {
        self.data.len()
    }

    /// Pads to a byte boundary and hands out the bytes.
    pub fn into_bytes(self) -> (out: Vec<u8>)
        requires
            self.wf(),
        ensures
            bits_of_bytes(out@) =~= self@ + padding(self@.len() as int),
    {
        let mut w = self;
        w.align_to_byte();
        w.data
    }

    /// The complete bytes written so far.
    pub fn as_bytes(&self) -> (out: &[u8])
        ensures
            out@ == self.bytes(),
    {
        self.data.as_slice()
    }

    /// Forgets everything written.
    pub fn clear(&mut self)
        ensures
            final(self).wf(),
            final(self)@ =~= Seq::<bool>::empty(),
            final(self).bytes() =~= Seq::<u8>::empty(),
    {
        assert(0u64 < (1u64 << 0u64)) by (bit_vector);
        self.data.clear();
        self.bit_buf = 0;
        self.num_bits = 0;
    }

    /// The number of bits pending after the last complete byte.
    pub fn buffered_bits(&self) -> (n: u8)
        ensures
            n == self.pending().len(),
    {
        self.num_bits
    }

    /// The number of whole bytes held, complete bytes and whole bytes among
    /// the pending bits together.
    pub fn buffered_bytes(&self) -> (n: usize)
        requires
            self.wf(),
        ensures
            n == self@.len() / 8,
    {
        self.data.len() + (self.num_bits / 8) as usize
    }
}

pub proof fn lemma_bit_of_shr(v: u64, n: u64, i: u64)
    by (bit_vector)
    requires
        n < 64,
        i < 64 - n,
    ensures
        bit_of(v >> n, i) == bit_of(v, (i + n) as u64),
{
}

pub proof fn lemma_shr_bound(v: u64, k: u64, n: u64)
    by (bit_vector)
    requires
        n <= k <= 63,
        v < (1u64 << k),
    ensures
        (v >> n) < (1u64 << ((k - n) as u64)),
{
}

pub proof fn lemma_mask_step(v: u64, n: u64)
    by (bit_vector)
    requires
        1 <= n <= 63,
    ensures
        v & (((1u64 << n) - 1) as u64) == (v & 1) + 2 * ((v >> 1) & (((1u64 << ((n - 1) as u64))
            - 1) as u64)),
        (v >> 1) & (((1u64 << ((n - 1) as u64)) - 1) as u64) < 0x8000_0000_0000_0000,
        v & 1 <= 1,
        v & (((1u64 << 0) - 1) as u64) == 0,
{
}

/// The low `n` bits of `v`, read least significant first, spell `v` masked
/// to `n` bits.
pub proof fn lemma_lsb_value_low_bits(v: u64, n: int)
    requires
        0 <= n <= 63,
    ensures
        lsb_value(low_bits(v, n)) == (v & (((1u64 << (n as u64)) - 1) as u64)),
    decreases n,
{
    if n == 0 {
        lemma_mask_step(v, 1);
        assert(low_bits(v, 0).len() == 0);
    } else {
        lemma_mask_step(v, n as u64);
        lemma_lsb_value_low_bits(v >> 1, n - 1);
        assert(low_bits(v, n).skip(1) =~= low_bits(v >> 1, n - 1)) by {
            assert forall|i: int| 0 <= i < n - 1 implies #[trigger] low_bits(v, n).skip(1)[i]
                == low_bits(v >> 1, n - 1)[i] by {
                lemma_bit_of_shr(v, 1, i as u64);
            }
        }
        assert(low_bits(v, n)[0] == bit_of(v, 0));
        assert(bit_of(v, 0) == (v & 1 == 1)) by (bit_vector);
    }
}

/// A value below `2^n` is the number its low `n` bits spell.
pub proof fn lemma_lsb_value_small(v: u64, n: int)
    requires
        0 <= n <= 63,
        v < (1u64 << (n as u64)),
    ensures
        lsb_value(low_bits(v, n)) == v,
{
    lemma_lsb_value_low_bits(v, n);
    let m = n as u64;
    assert(v & (((1u64 << m) - 1) as u64) == v) by (bit_vector)
        requires
            m <= 63,
            v < (1u64 << m),
    ;
}

/// A number spelt by `n` bits is below `2^n`.
pub proof fn lemma_lsb_value_bound(bits: Seq<bool>)
    ensures
        lsb_value(bits) < vstd::arithmetic::power2::pow2(bits.len()),
    decreases bits.len(),
{
    vstd::arithmetic::power2::lemma2_to64();
    if bits.len() > 0 {
        lemma_lsb_value_bound(bits.skip(1));
        vstd::arithmetic::power2::lemma_pow2_unfold(bits.len());
    }
}

/// Eight stream bits starting at a byte boundary are that byte.
pub proof fn lemma_bits_of_bytes_at(s: Seq<u8>, p: int)
    requires
        0 <= p < s.len(),
    ensures
        bits_of_bytes(s).subrange(8 * p, 8 * p + 8) =~= low_bits(s[p] as u64, 8),
{
    assert forall|i: int| 0 <= i < 8 implies #[trigger] bits_of_bytes(s).subrange(
        8 * p,
        8 * p + 8,
    )[i] == low_bits(s[p] as u64, 8)[i] by {
        assert((8 * p + i) / 8 == p);
        assert((8 * p + i) % 8 == i);
    }
}

/// The bytes that a stream of whole bytes spells: each group of eight bits
/// one byte, least significant bit first.
pub open spec fn bytes_of_bits(bits: Seq<bool>) -> Seq<u8> {
    Seq::new((bits.len() / 8) as nat, |i: int| lsb_value(bits.subrange(8 * i, 8 * i + 8)) as u8)
}

/// Bytes are what their bits spell.
pub proof fn lemma_bytes_of_bits(s: Seq<u8>)
    ensures
        bytes_of_bits(bits_of_bytes(s)) == s,
{
    assert forall|i: int| 0 <= i < s.len() implies #[trigger] bytes_of_bits(bits_of_bytes(s))[i]
        == s[i] by {
        lemma_bits_of_bytes_at(s, i);
        let b = s[i] as u64;
        assert(b < (1u64 << 8u64)) by (bit_vector)
            requires
                b < 256,
        ;
        lemma_lsb_value_small(b, 8);
    }
    assert(bytes_of_bits(bits_of_bytes(s)) =~= s);
}

/// Two bit sequences of one length that spell the same number are equal.
pub proof fn lemma_lsb_value_injective(a: Seq<bool>, b: Seq<bool>)
    requires
        a.len() == b.len(),
        lsb_value(a) == lsb_value(b),
    ensures
        a =~= b,
    decreases a.len(),
{
    if a.len() > 0 {
        lemma_lsb_value_injective(a.skip(1), b.skip(1));
        assert forall|i: int| 0 <= i < a.len() implies a[i] == b[i] by {
            if i > 0 {
                assert(a[i] == a.skip(1)[i - 1]);
                assert(b[i] == b.skip(1)[i - 1]);
            }
        }
    }
}

/// A stream of whole bytes is the bits of the bytes that it spells.
pub proof fn lemma_bits_of_bytes_of_bits(bits: Seq<bool>)
    requires
        bits.len() % 8 == 0,
    ensures
        bits_of_bytes(bytes_of_bits(bits)) == bits,
{
    let s = bytes_of_bits(bits);
    assert forall|j: int| 0 <= j < bits.len() implies #[trigger] bits_of_bytes(s)[j]
        == bits[j] by {
        let i = j / 8;
        let group = bits.subrange(8 * i, 8 * i + 8);
        lemma_lsb_value_bound(group);
        vstd::arithmetic::power2::lemma2_to64();
        let v = lsb_value(group) as u64;
        assert(v < (1u64 << 8u64)) by (bit_vector)
            requires
                v < 256,
        ;
        lemma_lsb_value_small(v, 8);
        lemma_lsb_value_injective(group, low_bits(v, 8));
        assert(group[j % 8] == low_bits(v, 8)[j % 8]);
        assert(s[i] == v as u8);
    }
    assert(bits_of_bytes(s) =~= bits);
}

/// Padded bits are a stream of whole bytes.
pub proof fn lemma_padded_whole(bits: Seq<bool>)
    ensures
        (bits + padding(bits.len() as int)).len() % 8 == 0,
{
}

/// The index of the next byte to be loaded once the bits before `bit_end`
/// are at hand, when it was `byte_pos` before: bytes are loaded one by one,
/// only as far as the bits asked for need them, and no further than the
/// `len` bytes of the input.
pub open spec fn loaded_to(byte_pos: int, bit_end: int, len: int) -> int {
    let needed = (bit_end + 7) / 8;
    if needed <= byte_pos {
        byte_pos
    } else if needed <= len {
        needed
    } else {
        len
    }
}

/// Reads bits from a byte buffer, least significant bit first.
pub struct BitReader {
    data: Vec<u8>,
    pos: usize,
    bit_buf: u64,
    num_bits: u8,
}

impl BitReader {
    /// The bytes being read.
    pub closed spec fn data(&self) -> Seq<u8> {
        self.data@
    }

    /// The index of the next byte that has not been loaded into the buffer.
    pub closed spec fn byte_pos(&self) -> int {
        self.pos as int
    }

    /// The number of loaded bits that have not been consumed.
    pub closed spec fn buffered(&self) -> int {
        self.num_bits as int
    }

    /// The loaded bits that have not been consumed, as a number.
    pub closed spec fn buffer(&self) -> u64 {
        self.bit_buf
    }

    /// The whole input as bits in stream order.
    pub open spec fn bits(&self) -> Seq<bool> {
        bits_of_bytes(self.data())
    }

    /// The index in `bits()` of the next bit to be consumed.
    pub open spec fn bit_pos(&self) -> int {
        8 * self.byte_pos() - self.buffered()
    }

    /// The buffer holds exactly the stream bits between the read position and
    /// the next unloaded byte.
    pub closed spec fn wf(&self) -> bool {
        &&& self.pos <= self.data@.len()
        &&& self.num_bits <= 39
        &&& self.num_bits as int <= 8 * self.pos
        &&& self.bit_buf < (1u64 << (self.num_bits as u64))
        &&& low_bits(self.bit_buf, self.num_bits as int) =~= bits_of_bytes(self.data@).subrange(
            8 * self.pos - self.num_bits,
            8 * self.pos as int,
        )
    }

    /// In a well-formed reader the read position lies within the input.
    pub proof fn lemma_bit_pos_in_range(&self)
        requires
            self.wf(),
        ensures
            0 <= self.bit_pos() <= self.bits().len(),
            0 <= self.buffered() <= 39,
            0 <= self.byte_pos() <= self.data().len(),
            self.bits().len() == 8 * self.data().len(),
            low_bits(self.buffer(), self.buffered()) =~= self.bits().subrange(
                self.bit_pos(),
                self.bit_pos() + self.buffered(),
            ),
            self.buffer() < (1u64 << (self.buffered() as u64)),
    {
    }

    pub fn new(data: Vec<u8>) -> (r: Self)
        ensures
            r.wf(),
            r.data() == data@,
            r.bit_pos() == 0,
            r.byte_pos() == 0,
    {
        assert(0u64 < (1u64 << 0u64)) by (bit_vector);
        Self { data, pos: 0, bit_buf: 0, num_bits: 0 }
    }

    pub fn from_slice(data: &[u8]) -> (r: Self)
        ensures
            r.wf(),
            r.data() == data@,
            r.bit_pos() == 0,
            r.byte_pos() == 0,
    {
        assert(0u64 < (1u64 << 0u64)) by (bit_vector);
        Self { data: vstd::slice::slice_to_vec(data), pos: 0, bit_buf: 0, num_bits: 0 }
    }

    /// Loads bytes until `n` bits are buffered or the input is exhausted.
    /// The read position does not move.
    pub fn fill_bits(&mut self, n: u8)
        requires
            old(self).wf(),
            n <= 32,
        ensures
            final(self).wf(),
            final(self).data() == old(self).data(),
            final(self).bit_pos() == old(self).bit_pos(),
            final(self).buffered() >= old(self).buffered(),
            final(self).buffered() >= n || final(self).byte_pos() == final(self).data().len(),
            final(self).buffered() >= n <==> old(self).bit_pos() + n <= old(self).bits().len(),
            final(self).byte_pos() == loaded_to(
                old(self).byte_pos(),
                old(self).bit_pos() + n,
                old(self).data().len() as int,
            ),
    {
        while self.num_bits < n && self.pos < self.data.len()
            invariant
                self.wf(),
                n <= 32,
                self.data@ == old(self).data@,
                self.bit_pos() == old(self).bit_pos(),
                self.num_bits >= old(self).num_bits,
                self.pos >= old(self).pos,
                self.pos > old(self).pos ==> self.num_bits < n + 8,
            decreases self.data.len() - self.pos,
        {
            let ghost buf = self.bit_buf;
            let ghost k = self.num_bits as u64;
            let ghost p = self.pos as int;
            let byte: u64 = self.data[self.pos] as u64;
            proof {
                assert(byte < (1u64 << 8u64)) by (bit_vector)
                    requires
                        byte < 256,
                ;
                lemma_bit_of_or_shl(buf, byte, k, 8, 0);
                lemma_bits_of_bytes_at(self.data@, p);
            }
            self.pos = self.pos + 1;
            self.bit_buf = self.bit_buf | (byte << self.num_bits);
            self.num_bits = self.num_bits + 8;
            proof {
                let all = bits_of_bytes(self.data@);
                assert(low_bits(self.bit_buf, k + 8) =~= low_bits(buf, k as int) + low_bits(
                    byte,
                    8,
                )) by {
                    assert forall|i: int| 0 <= i < k + 8 implies #[trigger] low_bits(
                        self.bit_buf,
                        k + 8,
                    )[i] == (low_bits(buf, k as int) + low_bits(byte, 8))[i] by {
                        lemma_bit_of_or_shl(buf, byte, k, 8, i as u64);
                    }
                }
                assert(all.subrange(8 * p - k, 8 * p + 8) =~= all.subrange(8 * p - k, 8 * p)
                    + all.subrange(8 * p, 8 * p + 8));
            }
        }
    }

    /// Drops `n` buffered bits.
    fn consume(&mut self, n: u8)
        requires
            old(self).wf(),
            n <= old(self).buffered(),
        ensures
            final(self).wf(),
            final(self).data() == old(self).data(),
            final(self).bit_pos() == old(self).bit_pos() + n,
            final(self).byte_pos() == old(self).byte_pos(),
    {
        let ghost buf = self.bit_buf;
        let ghost k = self.num_bits as int;
        proof {
            lemma_shr_bound(buf, k as u64, n as u64);
        }
        self.bit_buf = self.bit_buf >> n;
        self.num_bits = self.num_bits - n;
        proof {
            let all = bits_of_bytes(self.data@);
            let p = self.pos as int;
            assert(low_bits(self.bit_buf, k - n) =~= low_bits(buf, k).skip(n as int)) by {
                assert forall|i: int| 0 <= i < k - n implies #[trigger] low_bits(
                    self.bit_buf,
                    k - n,
                )[i] == low_bits(buf, k).skip(n as int)[i] by {
                    lemma_bit_of_shr(buf, n as u64, i as u64);
                }
            }
            assert(all.subrange(8 * p - k, 8 * p).skip(n as int) =~= all.subrange(
                8 * p - (k - n),
                8 * p,
            ));
        }
    }

    /// The low `n` buffered bits as a number.
    fn low(&self, n: u8) -> (v: u32)
        requires
            self.wf(),
            n <= 32,
            n <= self.buffered(),
        ensures
            v == lsb_value(self.bits().subrange(self.bit_pos(), self.bit_pos() + n)),
    {
        proof {
            lemma_bit_of_masked(self.bit_buf, n as u64, 0);
            lemma_lsb_value_low_bits(self.bit_buf, n as int);
            let all = bits_of_bytes(self.data@);
            let bp = self.bit_pos();
            assert(low_bits(self.bit_buf, n as int) =~= low_bits(
                self.bit_buf,
                self.num_bits as int,
            ).take(n as int));
            assert(all.subrange(bp, bp + self.num_bits).take(n as int) =~= all.subrange(
                bp,
                bp + n,
            ));
            let m = n as u64;
            let b = self.bit_buf;
            assert((b & (((1u64 << m) - 1) as u64)) <= 0xFFFF_FFFF) by (bit_vector)
                requires
                    m <= 32,
            ;
        }
        (self.bit_buf & ((1u64 << n) - 1)) as u32
    }

    /// Reads `n` bits as a number whose least significant bit came first.
    /// Returns `None`, and reads nothing, when `n` exceeds 32 or fewer than
    /// `n` bits remain.
    pub fn read_bits(&mut self, n: u8) -> (r: Option<u32>)
        requires
            old(self).wf(),
        ensures
            final(self).wf(),
            final(self).data() == old(self).data(),
            r.is_some() <==> n <= 32 && old(self).bit_pos() + n <= old(self).bits().len(),
            r.is_some() ==> final(self).bit_pos() == old(self).bit_pos() + n && r.unwrap()
                == lsb_value(
                old(self).bits().subrange(old(self).bit_pos(), old(self).bit_pos() + n),
            ),
            r.is_none() ==> final(self).bit_pos() == old(self).bit_pos(),
            final(self).byte_pos() == (if n <= 32 {
                loaded_to(
                    old(self).byte_pos(),
                    old(self).bit_pos() + n,
                    old(self).data().len() as int,
                )
            } else {
                old(self).byte_pos()
            }),
    {
        if n == 0 {
            proof {
                self.lemma_bit_pos_in_range();
                assert(self.bits().subrange(self.bit_pos(), self.bit_pos() + 0).len() == 0);
            }
            return Some(0);
        }
        if n > 32 {
            return None;
        }
        self.fill_bits(n);
        if self.num_bits < n {
            return None;
        }
        let result: u32 = self.low(n);
        self.consume(n);
        Some(result)
    }

    /// As `read_bits`, with the failure as an error value.
    pub fn read_bits_checked(&mut self, n: u8) -> (r: Result<u32, ()>)
        requires
            old(self).wf(),
        ensures
            final(self).wf(),
            final(self).data() == old(self).data(),
            r.is_ok() <==> n <= 32 && old(self).bit_pos() + n <= old(self).bits().len(),
            r.is_ok() ==> final(self).bit_pos() == old(self).bit_pos() + n && r.unwrap()
                == lsb_value(
                old(self).bits().subrange(old(self).bit_pos(), old(self).bit_pos() + n),
            ),
            r.is_err() ==> final(self).bit_pos() == old(self).bit_pos(),
            final(self).byte_pos() == (if n <= 32 {
                loaded_to(
                    old(self).byte_pos(),
                    old(self).bit_pos() + n,
                    old(self).data().len() as int,
                )
            } else {
                old(self).byte_pos()
            }),
    {
        match self.read_bits(n) {
            Some(v) => Ok(v),
            None => Err(()),
        }
    }

    /// Reads one bit, or `None` at the end of the input.
    pub fn read_bit(&mut self) -> (r: Option<bool>)
        requires
            old(self).wf(),
        ensures
            final(self).wf(),
            final(self).data() == old(self).data(),
            r.is_some() <==> old(self).bit_pos() < old(self).bits().len(),
            r.is_some() ==> final(self).bit_pos() == old(self).bit_pos() + 1 && r.unwrap() == old(
                self,
            ).bits()[old(self).bit_pos()],
            r.is_none() ==> final(self).bit_pos() == old(self).bit_pos(),
            final(self).byte_pos() == loaded_to(
                old(self).byte_pos(),
                old(self).bit_pos() + 1,
                old(self).data().len() as int,
            ),
    {
        let ghost bp = self.bit_pos();
        let ghost all = self.bits();
        match self.read_bits(1) {
            Some(v) => {
                proof {
                    let one = all.subrange(bp, bp + 1);
                    assert(one.skip(1).len() == 0);
                    assert(lsb_value(one.skip(1)) == 0);
                    assert(one[0] == all[bp]);
                }
                Some(v != 0)
            },
            None => None,
        }
    }

    /// Skips to the next byte boundary; does nothing at one.
    pub fn align_to_byte(&mut self)
        requires
            old(self).wf(),
        ensures
            final(self).wf(),
            final(self).data() == old(self).data(),
            final(self).bit_pos() % 8 == 0,
            old(self).bit_pos() <= final(self).bit_pos() < old(self).bit_pos() + 8,
            final(self).byte_pos() == old(self).byte_pos(),
    {
        let bits_to_skip: u8 = self.num_bits % 8;
        if bits_to_skip > 0 {
            self.consume(bits_to_skip);
        }
    }

    /// Skips to the next byte boundary and reads one byte.
    pub fn read_byte(&mut self) -> (r: Option<u8>)
        requires
            old(self).wf(),
        ensures
            final(self).wf(),
            final(self).data() == old(self).data(),
            final(self).bit_pos() % 8 == 0,
            old(self).bit_pos() <= final(self).bit_pos() < old(self).bit_pos() + 16,
            r.is_some() <==> (old(self).bit_pos() + 7) / 8 < old(self).data().len(),
            r.is_some() ==> final(self).bit_pos() == 8 * ((old(self).bit_pos() + 7) / 8) + 8
                && r.unwrap() == old(self).data()[(old(self).bit_pos() + 7) / 8],
            r.is_none() ==> final(self).bit_pos() == 8 * ((old(self).bit_pos() + 7) / 8),
            final(self).byte_pos() == loaded_to(
                old(self).byte_pos(),
                8 * ((old(self).bit_pos() + 7) / 8) + 8,
                old(self).data().len() as int,
            ),
    {
        self.align_to_byte();
        let ghost bp = self.bit_pos();
        let ghost d = self.data@;
        proof {
            self.lemma_bit_pos_in_range();
        }
        match self.read_bits(8) {
            Some(v) => {
                proof {
                    lemma_bits_of_bytes_at(d, bp / 8);
                    let b = d[bp / 8] as u64;
                    assert(b < (1u64 << 8u64)) by (bit_vector)
                        requires
                            b < 256,
                    ;
                    lemma_lsb_value_small(b, 8);
                }
                Some(v as u8)
            },
            None => None,
        }
    }

    /// Skips to the next byte boundary and appends the `count` bytes that
    /// follow to `buf`. Fails, at the boundary, when fewer than `count` remain.
    pub fn read_bytes(&mut self, buf: &mut Vec<u8>, count: usize) -> (r: Result<(), ()>)
        requires
            old(self).wf(),
        ensures
            final(self).wf(),
            final(self).data() == old(self).data(),
            r.is_ok() <==> (old(self).bit_pos() + 7) / 8 + count <= old(self).data().len(),
            r.is_ok() ==> final(self).bit_pos() == 8 * ((old(self).bit_pos() + 7) / 8 + count)
                && final(buf)@ =~= old(buf)@ + old(self).data().subrange(
                (old(self).bit_pos() + 7) / 8,
                (old(self).bit_pos() + 7) / 8 + count,
            ),
            r.is_err() ==> final(self).bit_pos() == 8 * ((old(self).bit_pos() + 7) / 8)
                && final(buf)@ == old(buf)@,
            final(self).byte_pos() == (if r.is_ok() {
                loaded_to(
                    old(self).byte_pos(),
                    8 * ((old(self).bit_pos() + 7) / 8 + count),
                    old(self).data().len() as int,
                )
            } else {
                old(self).byte_pos()
            }),
    {
        self.align_to_byte();
        proof {
            self.lemma_bit_pos_in_range();
        }
        if self.remaining() < count {
            return Err(());
        }
        let ghost start = self.bit_pos() / 8;
        let mut i: usize = 0;
        while i < count
            invariant
                self.wf(),
                self.data@ == old(self).data@,
                i <= count,
                start + count <= self.data@.len(),
                0 <= start,
                start == (old(self).bit_pos() + 7) / 8,
                self.bit_pos() == 8 * (start + i),
                self.byte_pos() == loaded_to(
                    old(self).byte_pos(),
                    8 * (start + i),
                    self.data@.len() as int,
                ),
                buf@ =~= old(buf)@ + self.data@.subrange(start, start + i),
            decreases count - i,
        {
            let b = self.read_byte();
            buf.push(b.unwrap());
            proof {
                assert(self.data@.subrange(start, start + i + 1) =~= self.data@.subrange(
                    start,
                    start + i,
                ).push(self.data@[start + i]));
            }
            i = i + 1;
        }
        Ok(())
    }

    /// The next `n` bits as `read_bits` would return them, without
    /// consuming them.
    pub fn peek_bits(&mut self, n: u8) -> (r: Option<u32>)
        requires
            old(self).wf(),
        ensures
            final(self).wf(),
            final(self).data() == old(self).data(),
            final(self).bit_pos() == old(self).bit_pos(),
            r.is_some() <==> n <= 32 && old(self).bit_pos() + n <= old(self).bits().len(),
            r.is_some() ==> r.unwrap() == lsb_value(
                old(self).bits().subrange(old(self).bit_pos(), old(self).bit_pos() + n),
            ),
            final(self).byte_pos() == (if n <= 32 {
                loaded_to(
                    old(self).byte_pos(),
                    old(self).bit_pos() + n,
                    old(self).data().len() as int,
                )
            } else {
                old(self).byte_pos()
            }),
    {
        if n == 0 {
            proof {
                self.lemma_bit_pos_in_range();
                assert(self.bits().subrange(self.bit_pos(), self.bit_pos() + 0).len() == 0);
            }
            return Some(0);
        }
        if n > 32 {
            return None;
        }
        self.fill_bits(n);
        if self.num_bits < n {
            return None;
        }
        Some(self.low(n))
    }

    /// Skips `n` bits, or to the end of the input when fewer remain.
    pub fn skip_bits(&mut self, n: u8)
        requires
            old(self).wf(),
        ensures
            final(self).wf(),
            final(self).data() == old(self).data(),
            final(self).bit_pos() == if old(self).bit_pos() + n <= old(self).bits().len() {
                old(self).bit_pos() + n
            } else {
                old(self).bits().len() as int
            },
            final(self).byte_pos() == loaded_to(
                old(self).byte_pos(),
                old(self).bit_pos() + n,
                old(self).data().len() as int,
            ),
    {
        let mut left: u8 = n;
        proof {
            self.lemma_bit_pos_in_range();
        }
        while left > 0
            invariant
                self.wf(),
                self.data@ == old(self).data@,
                left <= n,
                self.byte_pos() == loaded_to(
                    old(self).byte_pos(),
                    old(self).bit_pos() + (n - left),
                    self.data@.len() as int,
                ),
                self.bit_pos() == if old(self).bit_pos() + (n - left) <= old(self).bits().len() {
                    old(self).bit_pos() + (n - left)
                } else {
                    old(self).bits().len() as int
                },
                old(self).bit_pos() + (n - left) > old(self).bits().len() ==> left == 0,
            decreases left,
        {
            let step: u8 = if left < 32 { left } else { 32 };
            self.fill_bits(step);
            if self.num_bits < step {
                let held: u8 = self.num_bits;
                self.consume(held);
                left = 0;
            } else {
                self.consume(step);
                left = left - step;
            }
        }
    }

    /// The buffered bits as a number: bit `i` of it is the stream bit at
    /// `bit_pos() + i`.
    pub fn get_bit_buf(&self) -> (v: u64)
        ensures
            v == self.buffer(),
    {
        self.bit_buf
    }

    /// The number of buffered bits.
    pub fn get_num_bits(&self) -> (n: u8)
        ensures
            n == self.buffered(),
    {
        self.num_bits
    }

    /// Whether `n` more bits can be read.
    pub fn has_more_bits(&self, n: u8) -> (b: bool)
        requires
            self.wf(),
        ensures
            b <==> self.bit_pos() + n <= self.bits().len(),
    {
        if n == 0 {
            return true;
        }
        if n > self.num_bits {
            let needed_bytes: usize = ((n - self.num_bits) as usize + 7) / 8;
            needed_bytes <= self.data.len() - self.pos
        } else {
            true
        }
    }

    /// Whether `n` bytes follow the last loaded byte.
    pub fn has_more_bytes(&self, n: usize) -> (b: bool)
        requires
            self.wf(),
        ensures
            b <==> self.byte_pos() + n <= self.data().len(),
    {
        n <= self.data.len() - self.pos
    }

    /// The index of the next byte to be loaded.
    pub fn get_pos(&self) -> (p: usize)
        ensures
            p == self.byte_pos(),
    {
        self.pos
    }

    /// Moves to the start of byte `pos`, or to the end of the input when
    /// `pos` lies beyond it.
    pub fn set_pos(&mut self, pos: usize)
        requires
            old(self).wf(),
        ensures
            final(self).wf(),
            final(self).data() == old(self).data(),
            final(self).bit_pos() == 8 * (if pos <= old(self).data().len() {
                pos as int
            } else {
                old(self).data().len() as int
            }),
            final(self).byte_pos() == (if pos < old(self).data().len() {
                pos + 1
            } else {
                old(self).data().len() as int
            }),
    {
        assert(0u64 < (1u64 << 0u64)) by (bit_vector);
        self.pos = if pos < self.data.len() { pos } else { self.data.len() };
        self.bit_buf = 0;
        self.num_bits = 0;
        assert(bits_of_bytes(self.data@).subrange(8 * self.pos, 8 * self.pos as int) =~= low_bits(0, 0));
        if self.pos < self.data.len() {
            self.fill_bits(1);
        }
    }

    /// The index of the first byte with no consumed bit.
    pub fn position(&self) -> (p: usize)
        requires
            self.wf(),
        ensures
            p == (self.bit_pos() + 7) / 8,
    {
        self.pos - (self.num_bits / 8) as usize
    }

    /// The number of bytes with no consumed bit.
    pub fn remaining(&self) -> (n: usize)
        requires
            self.wf(),
        ensures
            n == self.data().len() - (self.bit_pos() + 7) / 8,
    {
        self.data.len() - self.position()
    }

    /// Whether any bit is left to read.
    pub fn has_more(&self) -> (b: bool)
        requires
            self.wf(),
        ensures
            b <==> self.bit_pos() < self.bits().len(),
    {
        self.pos < self.data.len() || self.num_bits > 0
    }

    /// The number of buffered bits.
    pub fn buffered_bits(&self) -> (n: u8)
        ensures
            n == self.buffered(),
    {
        self.num_bits
    }

    /// The bytes being read.
    pub fn as_bytes(&self) -> (out: &[u8])
        ensures
            out@ == self.data(),
    {
        self.data.as_slice()
    }
}

} // verus!
