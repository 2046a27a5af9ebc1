//! Canonical Huffman codes as DEFLATE uses them: construction from code
//! lengths, and decoding through a lookup table for short codes and a binary
//! tree for long ones.

use vstd::prelude::*;
use crate::miniz::bitstream::{
    bit_of, lemma_lsb_value_small, low_bits, lsb_value, msb_value,
};

verus! {

/// Why a Huffman table could not be built or used.
#[derive(Debug, Clone, Copy, PartialEq, Eq)]
pub enum HuffmanError {
    /// A code length exceeds 15.
    InvalidCodeLength,
    /// No code matches the bits.
    InvalidCode,
    /// More codes of some length than that length has room for.
    Overflow,
    /// The table cannot hold another entry.
    TableFull,
    /// More symbols than a table can hold.
    InvalidSymbol,
}

impl HuffmanError {
    /// The message of the error.
    pub fn message(&self) -> (s: &'static str)
        ensures
            s@ == (match *self {
                HuffmanError::InvalidCodeLength => "invalid code length"@,
                HuffmanError::InvalidCode => "invalid huffman code"@,
                HuffmanError::Overflow => "overflow"@,
                HuffmanError::TableFull => "table full"@,
                HuffmanError::InvalidSymbol => "invalid symbol"@,
            }),
    {
        match self {
            HuffmanError::InvalidCodeLength => "invalid code length",
            HuffmanError::InvalidCode => "invalid huffman code",
            HuffmanError::Overflow => "overflow",
            HuffmanError::TableFull => "table full",
            HuffmanError::InvalidSymbol => "invalid symbol",
        }
    }
}

/// The first match length that each length symbol, from 257 on, stands for.
pub const LENGTH_BASE: [u16; 29] = [
    3, 4, 5, 6, 7, 8, 9, 10, 11, 13, 15, 17, 19, 23, 27, 31, 35, 43, 51, 59, 67, 83, 99, 115, 131,
    163, 195, 227, 258,
];

/// The number of extra bits that follow each length symbol.
pub const LENGTH_EXTRA: [u8; 29] = [
    0, 0, 0, 0, 0, 0, 0, 0, 1, 1, 1, 1, 2, 2, 2, 2, 3, 3, 3, 3, 4, 4, 4, 4, 5, 5, 5, 5, 0,
];

/// The first distance that each distance symbol stands for.
pub const DIST_BASE: [u16; 30] = [
    1, 2, 3, 4, 5, 7, 9, 13, 17, 25, 33, 49, 65, 97, 129, 193, 257, 385, 513, 769, 1025, 1537,
    2049, 3073, 4097, 6145, 8193, 12289, 16385, 24577,
];

/// The number of extra bits that follow each distance symbol.
pub const DIST_EXTRA: [u8; 30] = [
    0, 0, 0, 0, 1, 1, 2, 2, 3, 3, 4, 4, 5, 5, 6, 6, 7, 7, 8, 8, 9, 9, 10, 10, 11, 11, 12, 12, 13,
    13,
];

/// The order in which a dynamic block lists the lengths of the code-length
/// code.
pub const LENGTH_DEZIGZAG: [usize; 19] = [
    16, 17, 18, 0, 8, 7, 9, 6, 10, 5, 11, 4, 12, 3, 13, 2, 14, 1, 15,
];

/// The code lengths of the fixed literal/length code: 8 bits for the symbols
/// 0 to 143, 9 for 144 to 255, 7 for 256 to 279, 8 for 280 to 287.
pub const FIXED_LITLEN_CODE_LENGTHS: [u8; 288] = [
    8, 8, 8, 8, 8, 8, 8, 8, 8, 8, 8, 8, 8, 8, 8, 8,
    8, 8, 8, 8, 8, 8, 8, 8, 8, 8, 8, 8, 8, 8, 8, 8,
    8, 8, 8, 8, 8, 8, 8, 8, 8, 8, 8, 8, 8, 8, 8, 8,
    8, 8, 8, 8, 8, 8, 8, 8, 8, 8, 8, 8, 8, 8, 8, 8,
    8, 8, 8, 8, 8, 8, 8, 8, 8, 8, 8, 8, 8, 8, 8, 8,
    8, 8, 8, 8, 8, 8, 8, 8, 8, 8, 8, 8, 8, 8, 8, 8,
    8, 8, 8, 8, 8, 8, 8, 8, 8, 8, 8, 8, 8, 8, 8, 8,
    8, 8, 8, 8, 8, 8, 8, 8, 8, 8, 8, 8, 8, 8, 8, 8,
    8, 8, 8, 8, 8, 8, 8, 8, 8, 8, 8, 8, 8, 8, 8, 8,
    9, 9, 9, 9, 9, 9, 9, 9, 9, 9, 9, 9, 9, 9, 9, 9,
    9, 9, 9, 9, 9, 9, 9, 9, 9, 9, 9, 9, 9, 9, 9, 9,
    9, 9, 9, 9, 9, 9, 9, 9, 9, 9, 9, 9, 9, 9, 9, 9,
    9, 9, 9, 9, 9, 9, 9, 9, 9, 9, 9, 9, 9, 9, 9, 9,
    9, 9, 9, 9, 9, 9, 9, 9, 9, 9, 9, 9, 9, 9, 9, 9,
    9, 9, 9, 9, 9, 9, 9, 9, 9, 9, 9, 9, 9, 9, 9, 9,
    9, 9, 9, 9, 9, 9, 9, 9, 9, 9, 9, 9, 9, 9, 9, 9,
    7, 7, 7, 7, 7, 7, 7, 7, 7, 7, 7, 7, 7, 7, 7, 7,
    7, 7, 7, 7, 7, 7, 7, 7, 8, 8, 8, 8, 8, 8, 8, 8,
];

/// The code lengths of the fixed distance code: 5 bits for each of the 30
/// distance symbols.
pub const FIXED_DISTANCE_CODE_LENGTHS: [u8; 30] = [
    5, 5, 5, 5, 5, 5, 5, 5, 5, 5, 5, 5, 5, 5, 5,
    5, 5, 5, 5, 5, 5, 5, 5, 5, 5, 5, 5, 5, 5, 5,
];

/// The code length of literal/length symbol `i` in the fixed code.
pub open spec fn fixed_litlen_length(i: int) -> u8 {
    if i <= 143 {
        8
    } else if i <= 255 {
        9
    } else if i <= 279 {
        7
    } else {
        8
    }
}

/// The lengths of the fixed literal/length code for its first `n` symbols,
/// and none for the others.
pub open spec fn static_lengths(n: int) -> Seq<u8> {
    Seq::new(288, |i: int| if i < n { fixed_litlen_length(i) } else { 0u8 })
}

/// The code lengths of the fixed literal/length code.
pub open spec fn fixed_litlen_lengths() -> Seq<u8> {
    Seq::new(288, |i: int| fixed_litlen_length(i))
}

/// The code lengths of the fixed distance code.
pub open spec fn fixed_distance_lengths() -> Seq<u8> {
    Seq::new(30, |i: int| 5u8)
}

/// The longest code that DEFLATE admits.
pub const MAX_BITS: usize = 15;

/// The most symbols a table can hold.
pub const MAX_SYMBOLS: usize = 512;

/// The number of symbols below `upto` whose code length is `l`.
pub open spec fn count_len(lengths: Seq<u8>, l: int, upto: int) -> int
    decreases upto,
{
    if upto <= 0 {
        0
    } else {
        count_len(lengths, l, upto - 1) + (if lengths[upto - 1] == l { 1int } else { 0int })
    }
}

/// The number of codes of length `l`; length 0 marks an unused symbol and
/// counts no code.
pub open spec fn len_count(lengths: Seq<u8>, l: int) -> int {
    if l <= 0 {
        0
    } else {
        count_len(lengths, l, lengths.len() as int)
    }
}

/// The first code of length `l`: twice the code that follows the last one of
/// length `l - 1`.
pub open spec fn first_code(lengths: Seq<u8>, l: int) -> int
    decreases l,
{
    if l <= 0 {
        0
    } else {
        2 * (first_code(lengths, l - 1) + len_count(lengths, l - 1))
    }
}

/// The canonical code of symbol `s`: codes of one length are consecutive, in
/// symbol order.
pub open spec fn canonical_code(lengths: Seq<u8>, s: int) -> int {
    first_code(lengths, lengths[s] as int) + count_len(lengths, lengths[s] as int, s)
}

/// Two to the power `l`.
pub open spec fn two_pow(l: int) -> int
    decreases l,
{
    if l <= 0 {
        1
    } else {
        2 * two_pow(l - 1)
    }
}

/// No code length exceeds 15.
pub open spec fn lengths_valid(lengths: Seq<u8>) -> bool {
    forall|s: int| 0 <= s < lengths.len() ==> #[trigger] lengths[s] <= 15
}

/// The codes of length `l` do not all fit in `l` bits.
pub open spec fn oversubscribed_at(lengths: Seq<u8>, l: int) -> bool {
    first_code(lengths, l) + len_count(lengths, l) > two_pow(l)
}

/// The codes of some length do not fit: the lengths violate the Kraft
/// inequality.
pub open spec fn oversubscribed(lengths: Seq<u8>) -> bool {
    exists|l: int| 1 <= l <= 15 && #[trigger] oversubscribed_at(lengths, l)
}

/// The error with which construction from `lengths` fails, if it does.
pub open spec fn build_error(lengths: Seq<u8>) -> Option<HuffmanError> {
    if lengths.len() > 512 {
        Some(HuffmanError::InvalidSymbol)
    } else if !lengths_valid(lengths) {
        Some(HuffmanError::InvalidCodeLength)
    } else if oversubscribed(lengths) {
        Some(HuffmanError::Overflow)
    } else {
        None
    }
}

/// Symbol `s` has a code of length `d` with value `v`.
pub open spec fn has_code(lengths: Seq<u8>, s: int, d: int, v: int) -> bool {
    &&& 0 <= s < lengths.len()
    &&& d >= 1
    &&& lengths[s] == d
    &&& canonical_code(lengths, s) == v
}

/// The symbol whose code has length `d` and value `v`, if there is one.
pub open spec fn symbol_with(lengths: Seq<u8>, d: int, v: int) -> Option<int> {
    if exists|s: int| has_code(lengths, s, d, v) {
        Some(choose|s: int| has_code(lengths, s, d, v))
    } else {
        None
    }
}

/// The symbol with the shortest code, of a length from `lo` to `hi`, that the
/// bits begin with, and that length. The first bit is the code's most
/// significant one.
pub open spec fn decode_range(lengths: Seq<u8>, bits: Seq<bool>, lo: int, hi: int) -> Option<
    (int, int),
>
    decreases hi - lo + 1,
{
    if lo > hi || lo > bits.len() || lo < 1 {
        None
    } else {
        match symbol_with(lengths, lo, msb_value(bits.take(lo)) as int) {
            Some(s) => Some((s, lo)),
            None => decode_range(lengths, bits, lo + 1, hi),
        }
    }
}

/// The symbol that the bits decode to under the canonical code of `lengths`,
/// and the length of its code.
pub open spec fn decode_spec(lengths: Seq<u8>, bits: Seq<bool>) -> Option<(int, int)> {
    decode_range(lengths, bits, 1, 15)
}

pub proof fn lemma_count_len_bounds(lengths: Seq<u8>, l: int, upto: int)
    requires
        0 <= upto,
    ensures
        0 <= count_len(lengths, l, upto) <= upto,
    decreases upto,
{
    if upto > 0 {
        lemma_count_len_bounds(lengths, l, upto - 1);
    }
}

pub proof fn lemma_count_len_mono(lengths: Seq<u8>, l: int, a: int, b: int)
    requires
        0 <= a <= b,
    ensures
        count_len(lengths, l, a) <= count_len(lengths, l, b),
    decreases b - a,
{
    if a < b {
        lemma_count_len_mono(lengths, l, a, b - 1);
    }
}

/// A symbol of length `l` is counted after the symbols before it.
pub proof fn lemma_count_len_strict(lengths: Seq<u8>, s: int, t: int)
    requires
        0 <= s < t,
        s < lengths.len(),
    ensures
        count_len(lengths, lengths[s] as int, s) < count_len(lengths, lengths[s] as int, t),
{
    lemma_count_len_mono(lengths, lengths[s] as int, s + 1, t);
}

/// Two symbols with the same code length and the same code are one symbol.
pub proof fn lemma_code_unique(lengths: Seq<u8>, s: int, t: int, d: int, v: int)
    requires
        has_code(lengths, s, d, v),
        has_code(lengths, t, d, v),
    ensures
        s == t,
{
    if s < t {
        lemma_count_len_strict(lengths, s, t);
    } else if t < s {
        lemma_count_len_strict(lengths, t, s);
    }
}

/// The symbol with a given code is the one that has it.
pub proof fn lemma_symbol_with(lengths: Seq<u8>, s: int, d: int, v: int)
    requires
        has_code(lengths, s, d, v),
    ensures
        symbol_with(lengths, d, v) == Some(s),
{
    let c = choose|t: int| has_code(lengths, t, d, v);
    lemma_code_unique(lengths, s, c, d, v);
}

pub proof fn lemma_two_pow_values()
    ensures
        two_pow(0) == 1,
        two_pow(1) == 2,
        two_pow(2) == 4,
        two_pow(3) == 8,
        two_pow(4) == 16,
        two_pow(5) == 32,
        two_pow(6) == 64,
        two_pow(7) == 128,
        two_pow(8) == 256,
        two_pow(9) == 512,
        two_pow(10) == 1024,
        two_pow(11) == 2048,
        two_pow(12) == 4096,
        two_pow(13) == 8192,
        two_pow(14) == 16384,
        two_pow(15) == 32768,
{
    reveal_with_fuel(two_pow, 17);
}

/// What construction derives from the lengths before it fills the tables:
/// per length the number of codes, the first code and the place of its
/// symbols in `sorted`, which lists the symbols by length and then by number.
pub struct CodeIndex {
    pub lengths: Vec<u8>,
    pub counts: Vec<u32>,
    pub first: Vec<u32>,
    pub offsets: Vec<u32>,
    pub sorted: Vec<u16>,
}

impl CodeIndex {
    pub open spec fn wf(&self) -> bool {
        let lengths = self.lengths@;
        &&& lengths.len() <= 512
        &&& lengths_valid(lengths)
        &&& !oversubscribed(lengths)
        &&& self.counts@.len() == 16
        &&& self.first@.len() == 16
        &&& self.offsets@.len() == 16
        &&& self.sorted@.len() == lengths.len()
        &&& forall|l: int| 0 <= l <= 15 ==> #[trigger] self.counts@[l] == len_count(lengths, l)
        &&& forall|l: int| 0 <= l <= 15 ==> #[trigger] self.first@[l] == first_code(lengths, l)
        &&& forall|l: int|
            1 <= l <= 15 ==> #[trigger] self.offsets@[l] == count_upto(lengths, l - 1)
        &&& forall|l: int, k: int|
            1 <= l <= 15 && 0 <= k < self.counts@[l] ==> has_code(
                lengths,
                #[trigger] self.sorted@[self.offsets@[l] + k] as int,
                l,
                first_code(lengths, l) + k,
            )
    }

    /// The symbol whose code has length `d` and value `v`.
    pub fn find_symbol(&self, d: usize, v: u32) -> (r: Option<u16>)
        requires
            self.wf(),
            1 <= d <= 15,
        ensures
            match r {
                Some(s) => symbol_with(self.lengths@, d as int, v as int) == Some(s as int),
                None => symbol_with(self.lengths@, d as int, v as int).is_none(),
            },
    {
        let ghost lengths = self.lengths@;
        let first: u32 = self.first[d];
        let count: u32 = self.counts[d];
        proof {
            lemma_count_len_bounds(lengths, d as int, lengths.len() as int);
            lemma_count_upto(lengths, d as int);
            lemma_count_upto(lengths, d - 1);
        }
        if v >= first && v - first < count {
            let k: u32 = v - first;
            let s: u16 = self.sorted[(self.offsets[d] + k) as usize];
            proof {
                assert(has_code(
                    lengths,
                    self.sorted@[self.offsets@[d as int] + k] as int,
                    d as int,
                    first_code(lengths, d as int) + k,
                ));
                lemma_symbol_with(lengths, s as int, d as int, v as int);
            }
            Some(s)
        } else {
            proof {
                if exists|s: int| has_code(lengths, s, d as int, v as int) {
                    let s = choose|s: int| has_code(lengths, s, d as int, v as int);
                    lemma_count_len_strict(lengths, s, lengths.len() as int);
                    lemma_count_len_bounds(lengths, d as int, s);
                    assert(false);
                }
            }
            None
        }
    }

    /// Counts the codes of each length, assigns the first code of each
    /// length, and lists the symbols by length.
    pub fn new(code_lengths: &[u8], num_symbols: usize) -> (r: Result<Self, HuffmanError>)
        requires
            num_symbols <= code_lengths@.len(),
        ensures
            match r {
                Ok(index) => build_error(code_lengths@.take(num_symbols as int)).is_none()
                    && index.wf() && index.lengths@ == code_lengths@.take(num_symbols as int),
                Err(e) => build_error(code_lengths@.take(num_symbols as int)) == Some(e),
            },
    {
        let ghost lengths = code_lengths@.take(num_symbols as int);
        if num_symbols > MAX_SYMBOLS {
            return Err(HuffmanError::InvalidSymbol);
        }
        let mut counts: Vec<u32> = vec![0u32; 16];
        let mut kept: Vec<u8> = Vec::new();
        let mut s: usize = 0;
        while s < num_symbols
            invariant
                s <= num_symbols <= 512,
                num_symbols <= code_lengths@.len(),
                lengths == code_lengths@.take(num_symbols as int),
                kept@ =~= lengths.take(s as int),
                counts@.len() == 16,
                counts@[0] == 0,
                forall|l: int| 1 <= l <= 15 ==> #[trigger] counts@[l] == count_len(lengths, l, s as int),
                forall|j: int| 0 <= j < s ==> #[trigger] lengths[j] <= 15,
            decreases num_symbols - s,
        {
            let cl: u8 = code_lengths[s];
            if cl > 15 {
                proof {
                    assert(lengths[s as int] > 15);
                }
                return Err(HuffmanError::InvalidCodeLength);
            }
            if cl > 0 {
                proof {
                    lemma_count_len_bounds(lengths, cl as int, s as int);
                }
                let c: u32 = counts[cl as usize];
                counts.set(cl as usize, c + 1);
            }
            kept.push(cl);
            s = s + 1;
        }
        assert(lengths_valid(lengths));
        assert(kept@ =~= lengths);
        let mut first: Vec<u32> = vec![0u32; 16];
        let mut offsets: Vec<u32> = vec![0u32; 16];
        let mut code: u32 = 0;
        let mut limit: u32 = 1;
        let mut offset: u32 = 0;
        let mut bits: usize = 1;
        proof {
            lemma_two_pow_values();
        }
        while bits <= 15
            invariant
                1 <= bits <= 16,
                counts@.len() == 16,
                first@.len() == 16,
                offsets@.len() == 16,
                lengths.len() == num_symbols,
                num_symbols <= 512,
                forall|l: int| 0 <= l <= 15 ==> #[trigger] counts@[l] == len_count(lengths, l),
                forall|l: int| 0 <= l < bits ==> #[trigger] first@[l] == first_code(lengths, l),
                forall|l: int| 1 <= l < bits ==> !#[trigger] oversubscribed_at(lengths, l),
                code == first_code(lengths, bits - 1),
                limit == two_pow(bits - 1),
                code + counts@[bits - 1] <= limit,
                limit <= 32768,
                lengths_valid(lengths),
                lengths == code_lengths@.take(num_symbols as int),
                forall|l: int| 1 <= l < bits ==> #[trigger] offsets@[l] == count_upto(lengths, l - 1),
                offset == count_upto(lengths, bits - 1),
            decreases 16 - bits,
        {
            proof {
                lemma_count_len_bounds(lengths, bits as int, lengths.len() as int);
                assert(two_pow(bits as int) == 2 * two_pow(bits - 1));
                lemma_two_pow_values();
                lemma_count_upto(lengths, bits as int);
                lemma_count_upto(lengths, bits - 1);
            }
            code = (code + counts[bits - 1]) * 2;
            limit = limit * 2;
            if code + counts[bits] > limit {
                proof {
                    assert(oversubscribed_at(lengths, bits as int));
                }
                return Err(HuffmanError::Overflow);
            }
            first.set(bits, code);
            offsets.set(bits, offset);
            offset = offset + counts[bits];
            bits = bits + 1;
        }
        assert(!oversubscribed(lengths));
        let mut cursor: Vec<u32> = vec![0u32; 16];
        let mut sorted: Vec<u16> = vec![0u16; num_symbols];
        let mut s: usize = 0;
        while s < num_symbols
            invariant
                s <= num_symbols <= 512,
                num_symbols <= code_lengths@.len(),
                lengths == code_lengths@.take(num_symbols as int),
                lengths_valid(lengths),
                counts@.len() == 16,
                first@.len() == 16,
                offsets@.len() == 16,
                cursor@.len() == 16,
                sorted@.len() == num_symbols,
                forall|l: int| 0 <= l <= 15 ==> #[trigger] counts@[l] == len_count(lengths, l),
                forall|l: int| 0 <= l <= 15 ==> #[trigger] first@[l] == first_code(lengths, l),
                forall|l: int| 1 <= l <= 15 ==> #[trigger] offsets@[l] == count_upto(lengths, l - 1),
                forall|l: int| 1 <= l <= 15 ==> #[trigger] cursor@[l] == count_len(lengths, l, s as int),
                forall|l: int, k: int|
                    1 <= l <= 15 && 0 <= k < cursor@[l] ==> has_code(
                        lengths,
                        #[trigger] sorted@[offsets@[l] + k] as int,
                        l,
                        first_code(lengths, l) + k,
                    ),
            decreases num_symbols - s,
        {
            let len: usize = code_lengths[s] as usize;
            assert(lengths[s as int] <= 15);
            if len > 0 {
                proof {
                    lemma_count_len_strict(lengths, s as int, lengths.len() as int);
                    lemma_count_len_bounds(lengths, len as int, s as int);
                }
                let k: u32 = cursor[len];
                proof {
                    lemma_count_upto(lengths, len as int);
                    lemma_count_upto(lengths, len - 1);
                }
                let at: usize = (offsets[len] + k) as usize;
                let ghost before = sorted@;
                sorted.set(at, s as u16);
                cursor.set(len, k + 1);
                proof {
                    assert forall|l: int, j: int|
                        1 <= l <= 15 && 0 <= j < cursor@[l] implies has_code(
                        lengths,
                        #[trigger] sorted@[offsets@[l] + j] as int,
                        l,
                        first_code(lengths, l) + j,
                    ) by {
                        lemma_count_upto(lengths, l);
                        lemma_count_upto(lengths, l - 1);
                        if l == len && j == k {
                        } else {
                            if l != len {
                                lemma_count_len_mono(lengths, l, s as int, lengths.len() as int);
                                lemma_count_len_bounds(lengths, l, s as int);
                                if l < len {
                                    lemma_count_upto_mono(lengths, l, len - 1);
                                } else {
                                    lemma_count_upto_mono(lengths, len as int, l - 1);
                                }
                            }
                            assert(offsets@[l] + j != at);
                            assert(sorted@[offsets@[l] + j] == before[offsets@[l] + j]);
                        }
                    }
                }
            }
            s = s + 1;
        }
        Ok(CodeIndex { lengths: kept, counts, first, offsets, sorted })
    }
}

/// The number of symbols with any one of the lengths 1 to `l`.
pub open spec fn count_upto(lengths: Seq<u8>, l: int) -> int
    decreases l,
{
    if l <= 0 {
        0
    } else {
        count_upto(lengths, l - 1) + len_count(lengths, l)
    }
}

/// The number of symbols below `upto` with a length from 1 to `l`.
pub open spec fn count_range(lengths: Seq<u8>, l: int, upto: int) -> int
    decreases upto,
{
    if upto <= 0 {
        0
    } else {
        count_range(lengths, l, upto - 1) + (if 1 <= lengths[upto - 1] <= l { 1int } else { 0int })
    }
}

pub proof fn lemma_count_range_step(lengths: Seq<u8>, l: int, upto: int)
    requires
        l >= 1,
        0 <= upto,
    ensures
        count_range(lengths, l, upto) == count_range(lengths, l - 1, upto) + count_len(
            lengths,
            l,
            upto,
        ),
        0 <= count_range(lengths, l, upto) <= upto,
    decreases upto,
{
    if upto > 0 {
        lemma_count_range_step(lengths, l, upto - 1);
    }
}

pub proof fn lemma_count_range_zero(lengths: Seq<u8>, upto: int)
    ensures
        count_range(lengths, 0, upto) == 0,
    decreases upto,
{
    if upto > 0 {
        lemma_count_range_zero(lengths, upto - 1);
    }
}

/// The symbols of the lengths 1 to `l` are no more than all symbols.
pub proof fn lemma_count_upto(lengths: Seq<u8>, l: int)
    requires
        0 <= l,
    ensures
        count_upto(lengths, l) == count_range(lengths, l, lengths.len() as int),
        0 <= count_upto(lengths, l) <= lengths.len(),
    decreases l,
{
    if l > 0 {
        lemma_count_upto(lengths, l - 1);
        lemma_count_range_step(lengths, l, lengths.len() as int);
    } else {
        lemma_count_range_zero(lengths, lengths.len() as int);
    }
}

pub proof fn lemma_count_upto_mono(lengths: Seq<u8>, a: int, b: int)
    requires
        0 <= a <= b,
    ensures
        count_upto(lengths, a) <= count_upto(lengths, b),
    decreases b - a,
{
    if a < b {
        lemma_count_upto_mono(lengths, a, b - 1);
        lemma_count_len_bounds(lengths, b, lengths.len() as int);
    }
}

/// Appending a bit doubles the value and adds the bit.
pub proof fn lemma_msb_value_push(bits: Seq<bool>, b: bool)
    ensures
        msb_value(bits.push(b)) == 2 * msb_value(bits) + (if b { 1nat } else { 0nat }),
{
    assert(bits.push(b).drop_last() =~= bits);
}

/// A number spelt by `n` bits is below `2^n`.
pub proof fn lemma_msb_value_bound(bits: Seq<bool>)
    ensures
        msb_value(bits) < two_pow(bits.len() as int),
    decreases bits.len(),
{
    if bits.len() > 0 {
        lemma_msb_value_bound(bits.drop_last());
    }
}

/// Decoding within lengths up to `hi` reads no bit after the first `hi`.
pub proof fn lemma_decode_range_prefix(
    lengths: Seq<u8>,
    a: Seq<bool>,
    b: Seq<bool>,
    lo: int,
    hi: int,
)
    requires
        hi <= a.len(),
        hi <= b.len(),
        a.take(hi) =~= b.take(hi),
    ensures
        decode_range(lengths, a, lo, hi) == decode_range(lengths, b, lo, hi),
    decreases hi - lo + 1,
{
    if lo > hi || lo < 1 {
    } else {
        assert(a.take(lo) =~= a.take(hi).take(lo));
        assert(b.take(lo) =~= b.take(hi).take(lo));
        lemma_decode_range_prefix(lengths, a, b, lo + 1, hi);
    }
}

/// Decoding over a range of lengths tries its lower part first.
pub proof fn lemma_decode_range_split(
    lengths: Seq<u8>,
    bits: Seq<bool>,
    lo: int,
    mid: int,
    hi: int,
)
    requires
        1 <= lo <= mid + 1,
        mid <= hi <= bits.len(),
    ensures
        decode_range(lengths, bits, lo, hi) == (match decode_range(lengths, bits, lo, mid) {
            Some(r) => Some(r),
            None => decode_range(lengths, bits, mid + 1, hi),
        }),
    decreases mid - lo + 1,
{
    if lo <= mid {
        lemma_decode_range_split(lengths, bits, lo + 1, mid, hi);
    }
}

/// The most tree nodes that the codes extending one prefix of `d` bits need.
pub open spec fn max_nodes(d: int) -> int
    decreases 15 - d,
{
    if d >= 15 {
        0
    } else {
        2 * max_nodes(d + 1) + 1
    }
}

pub proof fn lemma_max_nodes_nonneg(d: int)
    ensures
        max_nodes(d) >= 0,
    decreases 15 - d,
{
    if d < 15 {
        lemma_max_nodes_nonneg(d + 1);
    }
}

pub proof fn lemma_max_nodes_values()
    ensures
        max_nodes(15) == 0,
        max_nodes(14) == 1,
        max_nodes(13) == 3,
        max_nodes(12) == 7,
        max_nodes(11) == 15,
        max_nodes(10) == 31,
        max_nodes(9) == 63,
{
    reveal_with_fuel(max_nodes, 8);
}

/// Where a walk from tree node `node` ends. The node stands for the first
/// `d` bits; each further bit selects one of the node's two slots. A slot
/// holds 0 for nothing, a symbol marked with the high bit, or a node with a
/// smaller index. Node 0 is the empty tree.
pub open spec fn node_walk(tree: Seq<u16>, node: int, bits: Seq<bool>, d: int) -> Option<
    (int, int),
>
    decreases 15 - d,
{
    if node <= 0 || d >= 15 || d >= bits.len() || d < 0 || 2 * node + 1 >= tree.len() {
        None
    } else {
        let slot = tree[2 * node + (if bits[d] { 1int } else { 0int })];
        if slot >= 0x8000 {
            Some((slot - 0x8000, d + 1))
        } else if slot >= node {
            None
        } else {
            node_walk(tree, slot as int, bits, d + 1)
        }
    }
}

/// Under `node`, every continuation of `prefix` decodes as the canonical
/// code prescribes for lengths above the prefix's.
pub open spec fn node_ok(lengths: Seq<u8>, tree: Seq<u16>, node: int, prefix: Seq<bool>) -> bool {
    &&& node == 0 || (0 < node && 2 * node + 2 <= tree.len())
    &&& forall|bits: Seq<bool>|
        #![trigger node_walk(tree, node, bits, prefix.len() as int)]
        bits.len() == 15 && bits.take(prefix.len() as int) == prefix ==> node_walk(
            tree,
            node,
            bits,
            prefix.len() as int,
        ) == decode_range(lengths, bits, (prefix.len() + 1) as int, 15)
}

/// A slot for the bits `prefix` holds the symbol with exactly that code, or
/// else the tree for the longer codes.
pub open spec fn slot_ok(lengths: Seq<u8>, tree: Seq<u16>, slot: u16, prefix: Seq<bool>) -> bool {
    if slot >= 0x8000 {
        symbol_with(lengths, prefix.len() as int, msb_value(prefix) as int) == Some(
            (slot - 0x8000) as int,
        )
    } else {
        symbol_with(lengths, prefix.len() as int, msb_value(prefix) as int).is_none() && node_ok(
            lengths,
            tree,
            slot as int,
            prefix,
        )
    }
}

/// The first tree is an initial part of the second.
pub open spec fn tree_extends(t1: Seq<u16>, t2: Seq<u16>) -> bool {
    &&& t1.len() <= t2.len()
    &&& forall|i: int| 0 <= i < t1.len() ==> t1[i] == t2[i]
}

/// A walk reads only nodes up to the one it starts from.
pub proof fn lemma_node_walk_frame(t1: Seq<u16>, t2: Seq<u16>, node: int, bits: Seq<bool>, d: int)
    requires
        node <= 0 || 2 * node + 2 <= t1.len(),
        tree_extends(t1, t2),
    ensures
        node_walk(t1, node, bits, d) == node_walk(t2, node, bits, d),
    decreases 15 - d,
{
    if node <= 0 || d >= 15 || d >= bits.len() || d < 0 {
    } else {
        let slot = t1[2 * node + (if bits[d] { 1int } else { 0int })];
        if slot < 0x8000 && slot < node {
            lemma_node_walk_frame(t1, t2, slot as int, bits, d + 1);
        }
    }
}

/// A tree that is right for a prefix stays right when nodes are added.
pub proof fn lemma_node_ok_frame(
    lengths: Seq<u8>,
    t1: Seq<u16>,
    t2: Seq<u16>,
    node: int,
    prefix: Seq<bool>,
)
    requires
        node_ok(lengths, t1, node, prefix),
        tree_extends(t1, t2),
    ensures
        node_ok(lengths, t2, node, prefix),
{
    let d = prefix.len() as int;
    assert forall|bits: Seq<bool>|
        #![trigger node_walk(t2, node, bits, d)]
        bits.len() == 15 && bits.take(d) == prefix implies node_walk(t2, node, bits, d)
        == decode_range(lengths, bits, d + 1, 15) by {
        lemma_node_walk_frame(t1, t2, node, bits, d);
        assert(node_walk(t1, node, bits, d) == decode_range(lengths, bits, d + 1, 15));
    }
}

pub proof fn lemma_slot_ok_frame(
    lengths: Seq<u8>,
    t1: Seq<u16>,
    t2: Seq<u16>,
    slot: u16,
    prefix: Seq<bool>,
)
    requires
        slot_ok(lengths, t1, slot, prefix),
        tree_extends(t1, t2),
    ensures
        slot_ok(lengths, t2, slot, prefix),
{
    if slot < 0x8000 {
        lemma_node_ok_frame(lengths, t1, t2, slot as int, prefix);
    }
}

/// No code is longer than 15 bits: a prefix of 15 bits has no tree.
pub proof fn lemma_node_ok_deepest(lengths: Seq<u8>, tree: Seq<u16>, prefix: Seq<bool>)
    requires
        prefix.len() >= 15,
    ensures
        node_ok(lengths, tree, 0, prefix),
{
}

/// What one slot decodes to, for bits that reach it.
pub proof fn lemma_slot_decodes(
    lengths: Seq<u8>,
    tree: Seq<u16>,
    slot: u16,
    prefix: Seq<bool>,
    bits: Seq<bool>,
)
    requires
        slot_ok(lengths, tree, slot, prefix),
        1 <= prefix.len() <= 15,
        bits.len() == 15,
        bits.take(prefix.len() as int) == prefix,
    ensures
        decode_range(lengths, bits, prefix.len() as int, 15) == (if slot >= 0x8000 {
            Some(((slot - 0x8000) as int, prefix.len() as int))
        } else {
            node_walk(tree, slot as int, bits, prefix.len() as int)
        }),
{
    if slot < 0x8000 {
        assert(node_walk(tree, slot as int, bits, prefix.len() as int) == decode_range(
            lengths,
            bits,
            (prefix.len() + 1) as int,
            15,
        ));
    }
}

/// Two empty slots make an empty tree.
pub proof fn lemma_node_ok_empty(lengths: Seq<u8>, tree: Seq<u16>, prefix: Seq<bool>)
    requires
        prefix.len() < 15,
        slot_ok(lengths, tree, 0, prefix.push(false)),
        slot_ok(lengths, tree, 0, prefix.push(true)),
    ensures
        node_ok(lengths, tree, 0, prefix),
{
    let d = prefix.len() as int;
    assert forall|bits: Seq<bool>|
        #![trigger node_walk(tree, 0, bits, d)]
        bits.len() == 15 && bits.take(d) == prefix implies node_walk(tree, 0, bits, d)
        == decode_range(lengths, bits, d + 1, 15) by {
        let b = bits[d];
        assert(bits.take(d + 1) =~= prefix.push(b));
        lemma_slot_decodes(lengths, tree, 0, prefix.push(b), bits);
    }
}

/// A node whose two slots are right is right.
pub proof fn lemma_node_ok_push(
    lengths: Seq<u8>,
    tree: Seq<u16>,
    slot0: u16,
    slot1: u16,
    prefix: Seq<bool>,
)
    requires
        prefix.len() < 15,
        tree.len() >= 2,
        tree.len() % 2 == 0,
        slot_ok(lengths, tree, slot0, prefix.push(false)),
        slot_ok(lengths, tree, slot1, prefix.push(true)),
    ensures
        node_ok(lengths, tree.push(slot0).push(slot1), tree.len() as int / 2, prefix),
{
    let d = prefix.len() as int;
    let node = tree.len() as int / 2;
    let t3 = tree.push(slot0).push(slot1);
    assert(tree_extends(tree, t3));
    assert(t3[2 * node] == slot0);
    assert(t3[2 * node + 1] == slot1);
    assert forall|bits: Seq<bool>|
        #![trigger node_walk(t3, node, bits, d)]
        bits.len() == 15 && bits.take(d) == prefix implies node_walk(t3, node, bits, d)
        == decode_range(lengths, bits, d + 1, 15) by {
        let b = bits[d];
        assert(bits.take(d + 1) =~= prefix.push(b));
        let slot = if b { slot1 } else { slot0 };
        lemma_slot_ok_frame(lengths, tree, t3, slot, prefix.push(b));
        lemma_slot_decodes(lengths, t3, slot, prefix.push(b), bits);
        assert(t3[2 * node + (if bits[d] { 1int } else { 0int })] == slot);
        if slot < 0x8000 {
            assert(slot == 0 || 2 * slot + 2 <= tree.len());
            assert(slot < node);
        }
    }
}

/// The entry of the lookup table for the nine bits `idx`: a symbol and its
/// length when a code of at most nine bits matches, else the root of the
/// tree for the longer codes that begin with those bits.
pub open spec fn lookup_ok(lengths: Seq<u8>, tree: Seq<u16>, entry: u16, idx: int) -> bool {
    let prefix = low_bits(idx as u64, 9);
    match decode_range(lengths, prefix, 1, 9) {
        Some((s, l)) => entry == l * 512 + s,
        None => entry >= 0x8000 && node_ok(lengths, tree, entry - 0x8000, prefix),
    }
}

pub proof fn lemma_lookup_ok_frame(
    lengths: Seq<u8>,
    t1: Seq<u16>,
    t2: Seq<u16>,
    entry: u16,
    idx: int,
)
    requires
        lookup_ok(lengths, t1, entry, idx),
        tree_extends(t1, t2),
    ensures
        lookup_ok(lengths, t2, entry, idx),
{
    let prefix = low_bits(idx as u64, 9);
    if decode_range(lengths, prefix, 1, 9).is_none() {
        lemma_node_ok_frame(lengths, t1, t2, entry - 0x8000, prefix);
    }
}

proof fn lemma_bit_u32(x: u32, d: u32)
    by (bit_vector)
    requires
        d < 32,
    ensures
        ((x >> d) & 1 == 1) == bit_of(x as u64, d as u64),
        (x >> d) & 1 <= 1,
{
}

proof fn lemma_bit_low9(x: u32, i: u64)
    by (bit_vector)
    requires
        i < 9,
    ensures
        bit_of((x & 0x1FF) as u64, i) == bit_of(x as u64, i),
        (x & 0x1FF) < 512,
{
}

/// The slot for the bits `prefix`, whose value is `v`: the symbol with that
/// code, or the tree of the longer codes, built here.
fn build_slot(index: &CodeIndex, tree: &mut Vec<u16>, v: u32, d: usize, Ghost(prefix): Ghost<
    Seq<bool>,
>) -> (slot: u16)
    requires
        index.wf(),
        10 <= d <= 15,
        prefix.len() == d,
        v == msb_value(prefix),
        old(tree)@.len() >= 2,
        old(tree)@.len() % 2 == 0,
        old(tree)@.len() + 2 * max_nodes(d as int) <= 65534,
    ensures
        final(tree)@.len() % 2 == 0,
        final(tree)@.len() <= old(tree)@.len() + 2 * max_nodes(d as int),
        tree_extends(old(tree)@, final(tree)@),
        slot_ok(index.lengths@, final(tree)@, slot, prefix),
    decreases 15 - d, 1int,
{
    match index.find_symbol(d, v) {
        Some(s) => {
            proof {
                lemma_symbol_with_is(index.lengths@, d as int, v as int);
                lemma_max_nodes_nonneg(d as int);
            }
            0x8000 + s
        },
        None => build_node(index, tree, v, d, Ghost(prefix)),
    }
}

/// Builds the tree for the codes that extend `prefix` and returns its root,
/// 0 when there are none.
fn build_node(index: &CodeIndex, tree: &mut Vec<u16>, v: u32, d: usize, Ghost(prefix): Ghost<
    Seq<bool>,
>) -> (node: u16)
    requires
        index.wf(),
        9 <= d <= 15,
        prefix.len() == d,
        v == msb_value(prefix),
        old(tree)@.len() >= 2,
        old(tree)@.len() % 2 == 0,
        old(tree)@.len() + 2 * max_nodes(d as int) <= 65534,
    ensures
        final(tree)@.len() % 2 == 0,
        final(tree)@.len() <= old(tree)@.len() + 2 * max_nodes(d as int),
        tree_extends(old(tree)@, final(tree)@),
        node < 0x8000,
        node_ok(index.lengths@, final(tree)@, node as int, prefix),
    decreases 15 - d, 0int,
{
    let ghost lengths = index.lengths@;
    if d >= 15 {
        proof {
            lemma_node_ok_deepest(lengths, tree@, prefix);
        }
        return 0;
    }
    proof {
        lemma_msb_value_bound(prefix);
        lemma_two_pow_values();
        lemma_msb_value_push(prefix, false);
        lemma_msb_value_push(prefix, true);
        assert(max_nodes(d as int) == 2 * max_nodes(d + 1) + 1);
        lemma_max_nodes_nonneg(d + 1);
    }
    let slot0: u16 = build_slot(index, tree, 2 * v, d + 1, Ghost(prefix.push(false)));
    let ghost t1 = tree@;
    let slot1: u16 = build_slot(index, tree, 2 * v + 1, d + 1, Ghost(prefix.push(true)));
    proof {
        lemma_slot_ok_frame(lengths, t1, tree@, slot0, prefix.push(false));
    }
    if slot0 == 0 && slot1 == 0 {
        proof {
            lemma_node_ok_empty(lengths, tree@, prefix);
        }
        return 0;
    }
    let node: u16 = (tree.len() / 2) as u16;
    proof {
        lemma_node_ok_push(lengths, tree@, slot0, slot1, prefix);
    }
    tree.push(slot0);
    tree.push(slot1);
    node
}

/// The symbol and length that the nine bits `idx` decode to with a code of
/// at most nine bits; without one, the value of the nine bits.
fn short_match(index: &CodeIndex, idx: u32) -> (r: (Option<(u16, usize)>, u32))
    requires
        index.wf(),
        idx < 512,
    ensures
        match r.0 {
            Some((s, l)) => decode_range(index.lengths@, low_bits(idx as u64, 9), 1, 9) == Some(
                (s as int, l as int),
            ) && 1 <= l <= 9 && s < 512,
            None => decode_range(index.lengths@, low_bits(idx as u64, 9), 1, 9).is_none() && r.1
                == msb_value(low_bits(idx as u64, 9)),
        },
{
    let ghost lengths = index.lengths@;
    let ghost prefix = low_bits(idx as u64, 9);
    let mut d: usize = 1;
    let mut v: u32 = 0;
    proof {
        assert(prefix.take(0) =~= Seq::<bool>::empty());
        lemma_two_pow_values();
    }
    while d <= 9
        invariant
            index.wf(),
            lengths == index.lengths@,
            idx < 512,
            prefix == low_bits(idx as u64, 9),
            1 <= d <= 10,
            v == msb_value(prefix.take(d - 1)),
            v < two_pow(d - 1),
            decode_range(lengths, prefix, 1, 9) == decode_range(lengths, prefix, d as int, 9),
        decreases 10 - d,
    {
        let bit: u32 = (idx >> ((d - 1) as u32)) & 1;
        proof {
            lemma_bit_u32(idx, (d - 1) as u32);
            assert(prefix.take(d as int) =~= prefix.take(d - 1).push(prefix[d - 1]));
            lemma_msb_value_push(prefix.take(d - 1), prefix[d - 1]);
            lemma_two_pow_values();
        }
        v = v * 2 + bit;
        match index.find_symbol(d, v) {
            Some(s) => {
                proof {
                    lemma_symbol_with_is(lengths, d as int, v as int);
                }
                return (Some((s, d)), v);
            },
            None => {
                d = d + 1;
            },
        }
    }
    proof {
        assert(prefix.take(9) =~= prefix);
    }
    (None, v)
}

/// A decoding table for one canonical Huffman code, with the codes for
/// encoding.
#[derive(Debug)]
pub struct HuffmanTable {
    /// One entry for each value of the next nine bits.
    lookup: Vec<u16>,
    /// The tree for codes of ten bits and more, two slots to a node.
    tree: Vec<u16>,
    lengths: Vec<u8>,
    codes: Vec<u16>,
}

impl HuffmanTable {
    /// The code length of each symbol, 0 for a symbol without a code.
    pub closed spec fn lengths(&self) -> Seq<u8> {
        self.lengths@
    }

    /// The tables decode, and the codes are, the canonical code of
    /// `lengths()`.
    pub closed spec fn wf(&self) -> bool {
        &&& self.lookup@.len() == 512
        &&& self.lengths@.len() <= 512
        &&& lengths_valid(self.lengths@)
        &&& !oversubscribed(self.lengths@)
        &&& forall|idx: int|
            0 <= idx < 512 ==> lookup_ok(self.lengths@, self.tree@, #[trigger] self.lookup@[idx], idx)
        &&& self.codes@.len() == self.lengths@.len()
        &&& forall|s: int|
            0 <= s < self.lengths@.len() && self.lengths@[s] > 0 ==> #[trigger] self.codes@[s]
                == canonical_code(self.lengths@, s)
    }

    /// What a well-formed table guarantees of its lengths.
    pub proof fn lemma_wf(&self)
        requires
            self.wf(),
        ensures
            build_error(self.lengths()).is_none(),
    {
    }

    /// A table without codes: nothing decodes.
    pub fn new() -> (t: Self)
        ensures
            t.wf(),
            t.lengths() =~= Seq::<u8>::empty(),
    {
        let t = Self {
            lookup: vec![0x8000u16; 512],
            tree: Vec::new(),
            lengths: Vec::new(),
            codes: Vec::new(),
        };
        proof {
            assert forall|idx: int| 0 <= idx < 512 implies lookup_ok(
                t.lengths@,
                t.tree@,
                #[trigger] t.lookup@[idx],
                idx,
            ) by {
                let prefix = low_bits(idx as u64, 9);
                lemma_nothing_decodes(t.lengths@, prefix, 1, 9);
                assert forall|bits: Seq<bool>|
                    #![trigger node_walk(t.tree@, 0, bits, 9)]
                    bits.len() == 15 && bits.take(9) == prefix implies node_walk(
                    t.tree@,
                    0,
                    bits,
                    9,
                ) == decode_range(t.lengths@, bits, 10, 15) by {
                    lemma_nothing_decodes(t.lengths@, bits, 10, 15);
                }
            }
            assert(!oversubscribed(t.lengths@)) by {
                lemma_two_pow_values();
                assert forall|l: int| 1 <= l <= 15 implies !#[trigger] oversubscribed_at(
                    t.lengths@,
                    l,
                ) by {
                    lemma_no_codes(t.lengths@, l);
                }
            }
        }
        t
    }

    /// Builds the table of the canonical code with the given lengths, of which
    /// the first `num_symbols` count. Fails with `InvalidSymbol` for more than
    /// 512 symbols, else with `InvalidCodeLength` when a length exceeds 15,
    /// else with `Overflow` when the codes of some length do not fit.
    pub fn build(code_lengths: &[u8], num_symbols: usize) -> (r: Result<Self, HuffmanError>)
        requires
            num_symbols <= code_lengths@.len(),
        ensures
            match r {
                Ok(t) => build_error(code_lengths@.take(num_symbols as int)).is_none() && t.wf()
                    && t.lengths() == code_lengths@.take(num_symbols as int),
                Err(e) => build_error(code_lengths@.take(num_symbols as int)) == Some(e),
            },
    {
        let index = match CodeIndex::new(code_lengths, num_symbols) {
            Ok(index) => index,
            Err(e) => {
                return Err(e);
            },
        };
        let ghost lengths = index.lengths@;
        // The code of each symbol.
        let mut codes: Vec<u16> = Vec::new();
        let mut next: Vec<u32> = vec![0u32; 16];
        let mut s: usize = 0;
        while s < num_symbols
            invariant
                index.wf(),
                lengths == index.lengths@,
                lengths.len() == num_symbols,
                s <= num_symbols,
                codes@.len() == s,
                next@.len() == 16,
                forall|l: int| 1 <= l <= 15 ==> #[trigger] next@[l] == count_len(lengths, l, s as int),
                forall|j: int|
                    0 <= j < s && lengths[j] > 0 ==> #[trigger] codes@[j] == canonical_code(
                        lengths,
                        j,
                    ),
            decreases num_symbols - s,
        {
            let len: usize = index.lengths[s] as usize;
            assert(lengths[s as int] <= 15);
            if len > 0 {
                proof {
                    lemma_count_len_strict(lengths, s as int, lengths.len() as int);
                    lemma_count_len_bounds(lengths, len as int, s as int);
                    lemma_two_pow_values();
                    assert(!oversubscribed_at(lengths, len as int));
                }
                let k: u32 = next[len];
                codes.push((index.first[len] + k) as u16);
                next.set(len, k + 1);
            } else {
                codes.push(0);
            }
            s = s + 1;
        }
        // The lookup table and the tree.
        let mut lookup: Vec<u16> = Vec::new();
        let mut tree: Vec<u16> = Vec::new();
        tree.push(0);
        tree.push(0);
        let mut idx: u32 = 0;
        proof {
            lemma_max_nodes_values();
        }
        while idx < 512
            invariant
                index.wf(),
                lengths == index.lengths@,
                idx <= 512,
                lookup@.len() == idx,
                tree@.len() >= 2,
                tree@.len() % 2 == 0,
                tree@.len() <= 2 + 126 * idx,
                max_nodes(9) == 63,
                forall|j: int| 0 <= j < idx ==> lookup_ok(lengths, tree@, #[trigger] lookup@[j], j),
            decreases 512 - idx,
        {
            let ghost before = tree@;
            let ghost prefix = low_bits(idx as u64, 9);
            let found = short_match(&index, idx);
            let entry: u16 = match found.0 {
                Some((s, l)) => (l * 512) as u16 + s,
                None => {
                    let node: u16 = build_node(&index, &mut tree, found.1, 9, Ghost(prefix));
                    0x8000 + node
                },
            };
            lookup.push(entry);
            proof {
                assert forall|j: int| 0 <= j < idx + 1 implies lookup_ok(
                    lengths,
                    tree@,
                    #[trigger] lookup@[j],
                    j,
                ) by {
                    if j < idx {
                        lemma_lookup_ok_frame(lengths, before, tree@, lookup@[j], j);
                    }
                }
            }
            idx = idx + 1;
        }
        Ok(HuffmanTable { lookup, tree, lengths: index.lengths, codes })
    }

    /// Builds a table for the first `codes.len()` symbols, at most 288, of
    /// the fixed literal/length code: each of them gets the length that the
    /// fixed code gives it, every other symbol none. The values in `codes`
    /// do not matter.
    pub fn build_static_table(&self, codes: &[u16]) -> (r: Result<HuffmanTable, HuffmanError>)
        ensures
            match r {
                Ok(t) => build_error(static_lengths(codes@.len() as int)).is_none() && t.wf()
                    && t.lengths() == static_lengths(codes@.len() as int),
                Err(e) => build_error(static_lengths(codes@.len() as int)) == Some(e),
            },
    {
        let mut code_lengths: Vec<u8> = Vec::new();
        let mut i: usize = 0;
        while i < 288
            invariant
                i <= 288,
                code_lengths@.len() == i,
                forall|j: int|
                    0 <= j < i ==> #[trigger] code_lengths@[j] == static_lengths(
                        codes@.len() as int,
                    )[j],
            decreases 288 - i,
        {
            let len: u8 = if i >= codes.len() {
                0
            } else if i <= 143 {
                8
            } else if i <= 255 {
                9
            } else if i <= 279 {
                7
            } else {
                8
            };
            code_lengths.push(len);
            i = i + 1;
        }
        proof {
            assert(code_lengths@ =~= static_lengths(codes@.len() as int));
            assert(code_lengths@.take(288) =~= code_lengths@);
        }
        HuffmanTable::build(code_lengths.as_slice(), 288)
    }

    /// The code of `symbol` and its length in bits; the length is 0 when the
    /// symbol has no code.
    pub fn encode(&self, symbol: usize) -> (r: (u16, u8))
        requires
            self.wf(),
            symbol < self.lengths().len(),
        ensures
            r.1 == self.lengths()[symbol as int],
            r.1 <= 15,
            r.1 > 0 ==> r.0 == canonical_code(self.lengths(), symbol as int),
            r.0 < two_pow(r.1 as int) || r.1 == 0,
    {
        proof {
            let l = self.lengths@[symbol as int] as int;
            if l > 0 {
                lemma_count_len_strict(self.lengths@, symbol as int, self.lengths@.len() as int);
                assert(!oversubscribed_at(self.lengths@, l));
            }
        }
        (self.codes[symbol], self.lengths[symbol])
    }

    /// Decodes the code at the low end of `bit_buf`, whose bit 0 is the first
    /// bit of the stream. Returns the symbol and the length of its code, or
    /// `(0, 0)` when no code matches the low 15 bits.
    pub fn decode(&self, bit_buf: u32) -> (r: (u16, u8))
        requires
            self.wf(),
        ensures
            match decode_spec(self.lengths(), low_bits(bit_buf as u64, 15)) {
                Some((s, l)) => r.0 == s && r.1 == l && 1 <= l <= 15 && s < self.lengths().len(),
                None => r == (0u16, 0u8),
            },
    {
        let ghost lengths = self.lengths@;
        let ghost bits = low_bits(bit_buf as u64, 15);
        let idx: usize = (bit_buf & 0x1FF) as usize;
        let ghost prefix = low_bits(idx as u64, 9);
        proof {
            lemma_bit_low9(bit_buf, 0);
            assert(bits.take(9) =~= prefix) by {
                assert forall|i: int| 0 <= i < 9 implies bits.take(9)[i] == prefix[i] by {
                    lemma_bit_low9(bit_buf, i as u64);
                }
            }
            assert(prefix.take(9) =~= prefix);
            lemma_decode_range_prefix(lengths, bits, prefix, 1, 9);
            lemma_decode_range_split(lengths, bits, 1, 9, 15);
            lemma_decode_range_result(lengths, bits, 1, 9);
            lemma_decode_range_result(lengths, bits, 10, 15);
        }
        let entry: u16 = self.lookup[idx];
        assert(lookup_ok(lengths, self.tree@, entry, idx as int));
        if entry < 0x8000 {
            return (entry % 512, (entry / 512) as u8);
        }
        let mut node: u16 = entry - 0x8000;
        let mut d: u32 = 9;
        loop
            invariant
                self.wf(),
                9 <= d <= 15,
                bits == low_bits(bit_buf as u64, 15),
                node_walk(self.tree@, node as int, bits, d as int) == decode_spec(
                    self.lengths@,
                    bits,
                ),
                decode_spec(self.lengths@, bits) == decode_range(self.lengths@, bits, 10, 15),
                decode_range(self.lengths@, bits, 10, 15).is_some() ==> {
                    let r = decode_range(self.lengths@, bits, 10, 15).unwrap();
                    10 <= r.1 <= 15 && 0 <= r.0 < self.lengths@.len()
                },
            decreases 15 - d,
        {
            if node == 0 || d >= 15 || 2 * (node as usize) + 1 >= self.tree.len() {
                return (0, 0);
            }
            let bit: usize = ((bit_buf >> d) & 1) as usize;
            proof {
                lemma_bit_u32(bit_buf, d);
            }
            let slot: u16 = self.tree[2 * (node as usize) + bit];
            if slot >= 0x8000 {
                return (slot - 0x8000, (d + 1) as u8);
            }
            if slot >= node {
                return (0, 0);
            }
            node = slot;
            d = d + 1;
        }
    }

    /// Whether `num_bits` buffered bits suffice to decode a code of up to
    /// `max_bits` bits.
    pub fn has_enough_bits(&self, _bit_buf: u64, num_bits: u8, max_bits: u8) -> (b: bool)
        ensures
            b == (num_bits >= max_bits),
    {
        num_bits >= max_bits
    }

    /// As `decode`, on the low 32 bits of a wider buffer.
    pub fn decode_with_bits(&self, bit_buf: u64, _num_bits: u8) -> (r: (u16, u8))
        requires
            self.wf(),
        ensures
            match decode_spec(self.lengths(), low_bits(bit_buf, 15)) {
                Some((s, l)) => r.0 == s && r.1 == l && 1 <= l <= 15 && s < self.lengths().len(),
                None => r == (0u16, 0u8),
            },
    {
        proof {
            assert(low_bits(bit_buf, 15) =~= low_bits((bit_buf as u32) as u64, 15)) by {
                assert forall|i: int| 0 <= i < 15 implies low_bits(bit_buf, 15)[i] == low_bits(
                    (bit_buf as u32) as u64,
                    15,
                )[i] by {
                    lemma_bit_trunc(bit_buf, i as u64);
                }
            }
        }
        self.decode(bit_buf as u32)
    }
}

proof fn lemma_bit_trunc(x: u64, i: u64)
    by (bit_vector)
    requires
        i < 32,
    ensures
        bit_of((x as u32) as u64, i) == bit_of(x, i),
{
}

/// The symbol found for a code has that code.
pub proof fn lemma_symbol_with_is(lengths: Seq<u8>, d: int, v: int)
    ensures
        symbol_with(lengths, d, v).is_some() ==> has_code(
            lengths,
            symbol_with(lengths, d, v).unwrap(),
            d,
            v,
        ),
{
}

/// Without symbols nothing has a code.
pub proof fn lemma_nothing_decodes(lengths: Seq<u8>, bits: Seq<bool>, lo: int, hi: int)
    requires
        lengths.len() == 0,
    ensures
        decode_range(lengths, bits, lo, hi).is_none(),
    decreases hi - lo + 1,
{
    if lo > hi || lo > bits.len() || lo < 1 {
    } else {
        lemma_nothing_decodes(lengths, bits, lo + 1, hi);
    }
}

/// Without symbols every first code is 0.
pub proof fn lemma_no_codes(lengths: Seq<u8>, l: int)
    requires
        lengths.len() == 0,
    ensures
        first_code(lengths, l) == 0,
        len_count(lengths, l) == 0,
    decreases l,
{
    if l > 0 {
        lemma_no_codes(lengths, l - 1);
    }
}

/// What decoding returns is a symbol with a code of the returned length.
pub proof fn lemma_decode_range_result(lengths: Seq<u8>, bits: Seq<bool>, lo: int, hi: int)
    ensures
        decode_range(lengths, bits, lo, hi).is_some() ==> {
            let r = decode_range(lengths, bits, lo, hi).unwrap();
            &&& lo <= r.1 <= hi
            &&& r.1 <= bits.len()
            &&& has_code(lengths, r.0, r.1, msb_value(bits.take(r.1)) as int)
        },
    decreases hi - lo + 1,
{
    if lo > hi || lo > bits.len() || lo < 1 {
    } else {
        lemma_decode_range_result(lengths, bits, lo + 1, hi);
    }
}

/// The first length of a length symbol and the number of its extra bits.
pub open spec fn length_entry_ok(i: int) -> bool {
    &&& 3 <= LENGTH_BASE[i] <= 258
    &&& LENGTH_EXTRA[i] <= 5
    &&& LENGTH_BASE[i] + two_pow(LENGTH_EXTRA[i] as int) <= 259
    &&& i < 28 ==> LENGTH_BASE[i] + two_pow(LENGTH_EXTRA[i] as int) == LENGTH_BASE[i + 1] || i == 27
}

/// Every entry of the length tables is in range, and the ranges of
/// consecutive symbols adjoin.
pub proof fn lemma_length_tables(i: int)
    requires
        0 <= i < 29,
    ensures
        length_entry_ok(i),
{
    lemma_two_pow_values();
    if i == 0 {
        assert(LENGTH_BASE[0] == 3 && LENGTH_EXTRA[0] == 0 && LENGTH_BASE[1] == 4);
    } else if i == 1 {
        assert(LENGTH_BASE[1] == 4 && LENGTH_EXTRA[1] == 0 && LENGTH_BASE[2] == 5);
    } else if i == 2 {
        assert(LENGTH_BASE[2] == 5 && LENGTH_EXTRA[2] == 0 && LENGTH_BASE[3] == 6);
    } else if i == 3 {
        assert(LENGTH_BASE[3] == 6 && LENGTH_EXTRA[3] == 0 && LENGTH_BASE[4] == 7);
    } else if i == 4 {
        assert(LENGTH_BASE[4] == 7 && LENGTH_EXTRA[4] == 0 && LENGTH_BASE[5] == 8);
    } else if i == 5 {
        assert(LENGTH_BASE[5] == 8 && LENGTH_EXTRA[5] == 0 && LENGTH_BASE[6] == 9);
    } else if i == 6 {
        assert(LENGTH_BASE[6] == 9 && LENGTH_EXTRA[6] == 0 && LENGTH_BASE[7] == 10);
    } else if i == 7 {
        assert(LENGTH_BASE[7] == 10 && LENGTH_EXTRA[7] == 0 && LENGTH_BASE[8] == 11);
    } else if i == 8 {
        assert(LENGTH_BASE[8] == 11 && LENGTH_EXTRA[8] == 1 && LENGTH_BASE[9] == 13);
    } else if i == 9 {
        assert(LENGTH_BASE[9] == 13 && LENGTH_EXTRA[9] == 1 && LENGTH_BASE[10] == 15);
    } else if i == 10 {
        assert(LENGTH_BASE[10] == 15 && LENGTH_EXTRA[10] == 1 && LENGTH_BASE[11] == 17);
    } else if i == 11 {
        assert(LENGTH_BASE[11] == 17 && LENGTH_EXTRA[11] == 1 && LENGTH_BASE[12] == 19);
    } else if i == 12 {
        assert(LENGTH_BASE[12] == 19 && LENGTH_EXTRA[12] == 2 && LENGTH_BASE[13] == 23);
    } else if i == 13 {
        assert(LENGTH_BASE[13] == 23 && LENGTH_EXTRA[13] == 2 && LENGTH_BASE[14] == 27);
    } else if i == 14 {
        assert(LENGTH_BASE[14] == 27 && LENGTH_EXTRA[14] == 2 && LENGTH_BASE[15] == 31);
    } else if i == 15 {
        assert(LENGTH_BASE[15] == 31 && LENGTH_EXTRA[15] == 2 && LENGTH_BASE[16] == 35);
    } else if i == 16 {
        assert(LENGTH_BASE[16] == 35 && LENGTH_EXTRA[16] == 3 && LENGTH_BASE[17] == 43);
    } else if i == 17 {
        assert(LENGTH_BASE[17] == 43 && LENGTH_EXTRA[17] == 3 && LENGTH_BASE[18] == 51);
    } else if i == 18 {
        assert(LENGTH_BASE[18] == 51 && LENGTH_EXTRA[18] == 3 && LENGTH_BASE[19] == 59);
    } else if i == 19 {
        assert(LENGTH_BASE[19] == 59 && LENGTH_EXTRA[19] == 3 && LENGTH_BASE[20] == 67);
    } else if i == 20 {
        assert(LENGTH_BASE[20] == 67 && LENGTH_EXTRA[20] == 4 && LENGTH_BASE[21] == 83);
    } else if i == 21 {
        assert(LENGTH_BASE[21] == 83 && LENGTH_EXTRA[21] == 4 && LENGTH_BASE[22] == 99);
    } else if i == 22 {
        assert(LENGTH_BASE[22] == 99 && LENGTH_EXTRA[22] == 4 && LENGTH_BASE[23] == 115);
    } else if i == 23 {
        assert(LENGTH_BASE[23] == 115 && LENGTH_EXTRA[23] == 4 && LENGTH_BASE[24] == 131);
    } else if i == 24 {
        assert(LENGTH_BASE[24] == 131 && LENGTH_EXTRA[24] == 5 && LENGTH_BASE[25] == 163);
    } else if i == 25 {
        assert(LENGTH_BASE[25] == 163 && LENGTH_EXTRA[25] == 5 && LENGTH_BASE[26] == 195);
    } else if i == 26 {
        assert(LENGTH_BASE[26] == 195 && LENGTH_EXTRA[26] == 5 && LENGTH_BASE[27] == 227);
    } else if i == 27 {
        assert(LENGTH_BASE[27] == 227 && LENGTH_EXTRA[27] == 5 && LENGTH_BASE[28] == 258);
    } else if i == 28 {
        assert(LENGTH_BASE[28] == 258 && LENGTH_EXTRA[28] == 0);
    }
}

/// The first distance of a distance symbol and the number of its extra bits.
pub open spec fn dist_entry_ok(i: int) -> bool {
    &&& 1 <= DIST_BASE[i] <= 24577
    &&& DIST_EXTRA[i] <= 13
    &&& DIST_BASE[i] + two_pow(DIST_EXTRA[i] as int) <= 32769
    &&& i < 29 ==> DIST_BASE[i] + two_pow(DIST_EXTRA[i] as int) == DIST_BASE[i + 1]
}

/// Every entry of the distance tables is in range, and the ranges of
/// consecutive symbols adjoin.
pub proof fn lemma_dist_tables(i: int)
    requires
        0 <= i < 30,
    ensures
        dist_entry_ok(i),
{
    lemma_two_pow_values();
    if i == 0 {
        assert(DIST_BASE[0] == 1 && DIST_EXTRA[0] == 0 && DIST_BASE[1] == 2);
    } else if i == 1 {
        assert(DIST_BASE[1] == 2 && DIST_EXTRA[1] == 0 && DIST_BASE[2] == 3);
    } else if i == 2 {
        assert(DIST_BASE[2] == 3 && DIST_EXTRA[2] == 0 && DIST_BASE[3] == 4);
    } else if i == 3 {
        assert(DIST_BASE[3] == 4 && DIST_EXTRA[3] == 0 && DIST_BASE[4] == 5);
    } else if i == 4 {
        assert(DIST_BASE[4] == 5 && DIST_EXTRA[4] == 1 && DIST_BASE[5] == 7);
    } else if i == 5 {
        assert(DIST_BASE[5] == 7 && DIST_EXTRA[5] == 1 && DIST_BASE[6] == 9);
    } else if i == 6 {
        assert(DIST_BASE[6] == 9 && DIST_EXTRA[6] == 2 && DIST_BASE[7] == 13);
    } else if i == 7 {
        assert(DIST_BASE[7] == 13 && DIST_EXTRA[7] == 2 && DIST_BASE[8] == 17);
    } else if i == 8 {
        assert(DIST_BASE[8] == 17 && DIST_EXTRA[8] == 3 && DIST_BASE[9] == 25);
    } else if i == 9 {
        assert(DIST_BASE[9] == 25 && DIST_EXTRA[9] == 3 && DIST_BASE[10] == 33);
    } else if i == 10 {
        assert(DIST_BASE[10] == 33 && DIST_EXTRA[10] == 4 && DIST_BASE[11] == 49);
    } else if i == 11 {
        assert(DIST_BASE[11] == 49 && DIST_EXTRA[11] == 4 && DIST_BASE[12] == 65);
    } else if i == 12 {
        assert(DIST_BASE[12] == 65 && DIST_EXTRA[12] == 5 && DIST_BASE[13] == 97);
    } else if i == 13 {
        assert(DIST_BASE[13] == 97 && DIST_EXTRA[13] == 5 && DIST_BASE[14] == 129);
    } else if i == 14 {
        assert(DIST_BASE[14] == 129 && DIST_EXTRA[14] == 6 && DIST_BASE[15] == 193);
    } else if i == 15 {
        assert(DIST_BASE[15] == 193 && DIST_EXTRA[15] == 6 && DIST_BASE[16] == 257);
    } else if i == 16 {
        assert(DIST_BASE[16] == 257 && DIST_EXTRA[16] == 7 && DIST_BASE[17] == 385);
    } else if i == 17 {
        assert(DIST_BASE[17] == 385 && DIST_EXTRA[17] == 7 && DIST_BASE[18] == 513);
    } else if i == 18 {
        assert(DIST_BASE[18] == 513 && DIST_EXTRA[18] == 8 && DIST_BASE[19] == 769);
    } else if i == 19 {
        assert(DIST_BASE[19] == 769 && DIST_EXTRA[19] == 8 && DIST_BASE[20] == 1025);
    } else if i == 20 {
        assert(DIST_BASE[20] == 1025 && DIST_EXTRA[20] == 9 && DIST_BASE[21] == 1537);
    } else if i == 21 {
        assert(DIST_BASE[21] == 1537 && DIST_EXTRA[21] == 9 && DIST_BASE[22] == 2049);
    } else if i == 22 {
        assert(DIST_BASE[22] == 2049 && DIST_EXTRA[22] == 10 && DIST_BASE[23] == 3073);
    } else if i == 23 {
        assert(DIST_BASE[23] == 3073 && DIST_EXTRA[23] == 10 && DIST_BASE[24] == 4097);
    } else if i == 24 {
        assert(DIST_BASE[24] == 4097 && DIST_EXTRA[24] == 11 && DIST_BASE[25] == 6145);
    } else if i == 25 {
        assert(DIST_BASE[25] == 6145 && DIST_EXTRA[25] == 11 && DIST_BASE[26] == 8193);
    } else if i == 26 {
        assert(DIST_BASE[26] == 8193 && DIST_EXTRA[26] == 12 && DIST_BASE[27] == 12289);
    } else if i == 27 {
        assert(DIST_BASE[27] == 12289 && DIST_EXTRA[27] == 12 && DIST_BASE[28] == 16385);
    } else if i == 28 {
        assert(DIST_BASE[28] == 16385 && DIST_EXTRA[28] == 13 && DIST_BASE[29] == 24577);
    } else if i == 29 {
        assert(DIST_BASE[29] == 24577 && DIST_EXTRA[29] == 13);
    }
}

/// Every entry of the order of the code-length code is a symbol of it.
pub proof fn lemma_dezigzag(i: int)
    requires
        0 <= i < 19,
    ensures
        LENGTH_DEZIGZAG[i] < 19,
{
    if i == 0 {
        assert(LENGTH_DEZIGZAG[0] == 16);
    } else if i == 1 {
        assert(LENGTH_DEZIGZAG[1] == 17);
    } else if i == 2 {
        assert(LENGTH_DEZIGZAG[2] == 18);
    } else if i == 3 {
        assert(LENGTH_DEZIGZAG[3] == 0);
    } else if i == 4 {
        assert(LENGTH_DEZIGZAG[4] == 8);
    } else if i == 5 {
        assert(LENGTH_DEZIGZAG[5] == 7);
    } else if i == 6 {
        assert(LENGTH_DEZIGZAG[6] == 9);
    } else if i == 7 {
        assert(LENGTH_DEZIGZAG[7] == 6);
    } else if i == 8 {
        assert(LENGTH_DEZIGZAG[8] == 10);
    } else if i == 9 {
        assert(LENGTH_DEZIGZAG[9] == 5);
    } else if i == 10 {
        assert(LENGTH_DEZIGZAG[10] == 11);
    } else if i == 11 {
        assert(LENGTH_DEZIGZAG[11] == 4);
    } else if i == 12 {
        assert(LENGTH_DEZIGZAG[12] == 12);
    } else if i == 13 {
        assert(LENGTH_DEZIGZAG[13] == 3);
    } else if i == 14 {
        assert(LENGTH_DEZIGZAG[14] == 13);
    } else if i == 15 {
        assert(LENGTH_DEZIGZAG[15] == 2);
    } else if i == 16 {
        assert(LENGTH_DEZIGZAG[16] == 14);
    } else if i == 17 {
        assert(LENGTH_DEZIGZAG[17] == 1);
    } else if i == 18 {
        assert(LENGTH_DEZIGZAG[18] == 15);
    }
}

/// The number of symbols below `upto` with length `l` in the fixed
/// literal/length code.
pub open spec fn fixed_count(l: int, upto: int) -> int {
    if l == 8 {
        (if upto < 144 { upto } else { 144 }) + (if upto > 280 { upto - 280 } else { 0 })
    } else if l == 9 {
        if upto < 144 { 0 } else if upto < 256 { upto - 144 } else { 112 }
    } else if l == 7 {
        if upto < 256 { 0 } else if upto < 280 { upto - 256 } else { 24 }
    } else {
        0
    }
}

pub proof fn lemma_fixed_count(l: int, upto: int)
    requires
        0 <= upto <= 288,
    ensures
        count_len(fixed_litlen_lengths(), l, upto) == fixed_count(l, upto),
    decreases upto,
{
    if upto > 0 {
        lemma_fixed_count(l, upto - 1);
    }
}

pub proof fn lemma_fixed_dist_count(l: int, upto: int)
    requires
        0 <= upto <= 30,
    ensures
        count_len(fixed_distance_lengths(), l, upto) == (if l == 5 { upto } else { 0 }),
    decreases upto,
{
    if upto > 0 {
        lemma_fixed_dist_count(l, upto - 1);
    }
}

/// The first codes of the fixed literal/length code: 0 for seven bits, 48
/// for eight, 400 for nine.
pub proof fn lemma_fixed_first_codes()
    ensures
        first_code(fixed_litlen_lengths(), 7) == 0,
        first_code(fixed_litlen_lengths(), 8) == 48,
        first_code(fixed_litlen_lengths(), 9) == 400,
        first_code(fixed_distance_lengths(), 5) == 0,
        build_error(fixed_litlen_lengths()).is_none(),
        build_error(fixed_distance_lengths()).is_none(),
{
    let lit = fixed_litlen_lengths();
    let dist = fixed_distance_lengths();
    lemma_two_pow_values();
    assert forall|l: int| 0 <= l <= 15 implies #[trigger] len_count(lit, l) == fixed_count(l, 288) by {
        lemma_fixed_count(l, 288);
    }
    assert forall|l: int| 0 <= l <= 15 implies #[trigger] len_count(dist, l) == (if l == 5 {
        30int
    } else {
        0int
    }) by {
        lemma_fixed_dist_count(l, 30);
    }
    assert(first_code(lit, 0) == 0) by {
        assert(len_count(lit, 0) == fixed_count(0, 288));
    }
    assert(first_code(lit, 1) == 0) by {
        assert(len_count(lit, 0) == fixed_count(0, 288));
    }
    assert(first_code(lit, 2) == 0) by {
        assert(len_count(lit, 1) == fixed_count(1, 288));
    }
    assert(first_code(lit, 3) == 0) by {
        assert(len_count(lit, 2) == fixed_count(2, 288));
    }
    assert(first_code(lit, 4) == 0) by {
        assert(len_count(lit, 3) == fixed_count(3, 288));
    }
    assert(first_code(lit, 5) == 0) by {
        assert(len_count(lit, 4) == fixed_count(4, 288));
    }
    assert(first_code(lit, 6) == 0) by {
        assert(len_count(lit, 5) == fixed_count(5, 288));
    }
    assert(first_code(lit, 7) == 0) by {
        assert(len_count(lit, 6) == fixed_count(6, 288));
    }
    assert(first_code(lit, 8) == 48) by {
        assert(len_count(lit, 7) == fixed_count(7, 288));
    }
    assert(first_code(lit, 9) == 400) by {
        assert(len_count(lit, 8) == fixed_count(8, 288));
    }
    assert(first_code(lit, 10) == 1024) by {
        assert(len_count(lit, 9) == fixed_count(9, 288));
    }
    assert(first_code(lit, 11) == 2048) by {
        assert(len_count(lit, 10) == fixed_count(10, 288));
    }
    assert(first_code(lit, 12) == 4096) by {
        assert(len_count(lit, 11) == fixed_count(11, 288));
    }
    assert(first_code(lit, 13) == 8192) by {
        assert(len_count(lit, 12) == fixed_count(12, 288));
    }
    assert(first_code(lit, 14) == 16384) by {
        assert(len_count(lit, 13) == fixed_count(13, 288));
    }
    assert(first_code(lit, 15) == 32768) by {
        assert(len_count(lit, 14) == fixed_count(14, 288));
    }
    assert(first_code(dist, 0) == 0) by {
        assert(len_count(dist, 0) == (if 0 == 5 { 30int } else { 0int }));
    }
    assert(first_code(dist, 1) == 0) by {
        assert(len_count(dist, 0) == (if 0 == 5 { 30int } else { 0int }));
    }
    assert(first_code(dist, 2) == 0) by {
        assert(len_count(dist, 1) == (if 1 == 5 { 30int } else { 0int }));
    }
    assert(first_code(dist, 3) == 0) by {
        assert(len_count(dist, 2) == (if 2 == 5 { 30int } else { 0int }));
    }
    assert(first_code(dist, 4) == 0) by {
        assert(len_count(dist, 3) == (if 3 == 5 { 30int } else { 0int }));
    }
    assert(first_code(dist, 5) == 0) by {
        assert(len_count(dist, 4) == (if 4 == 5 { 30int } else { 0int }));
    }
    assert(first_code(dist, 6) == 60) by {
        assert(len_count(dist, 5) == (if 5 == 5 { 30int } else { 0int }));
    }
    assert(first_code(dist, 7) == 120) by {
        assert(len_count(dist, 6) == (if 6 == 5 { 30int } else { 0int }));
    }
    assert(first_code(dist, 8) == 240) by {
        assert(len_count(dist, 7) == (if 7 == 5 { 30int } else { 0int }));
    }
    assert(first_code(dist, 9) == 480) by {
        assert(len_count(dist, 8) == (if 8 == 5 { 30int } else { 0int }));
    }
    assert(first_code(dist, 10) == 960) by {
        assert(len_count(dist, 9) == (if 9 == 5 { 30int } else { 0int }));
    }
    assert(first_code(dist, 11) == 1920) by {
        assert(len_count(dist, 10) == (if 10 == 5 { 30int } else { 0int }));
    }
    assert(first_code(dist, 12) == 3840) by {
        assert(len_count(dist, 11) == (if 11 == 5 { 30int } else { 0int }));
    }
    assert(first_code(dist, 13) == 7680) by {
        assert(len_count(dist, 12) == (if 12 == 5 { 30int } else { 0int }));
    }
    assert(first_code(dist, 14) == 15360) by {
        assert(len_count(dist, 13) == (if 13 == 5 { 30int } else { 0int }));
    }
    assert(first_code(dist, 15) == 30720) by {
        assert(len_count(dist, 14) == (if 14 == 5 { 30int } else { 0int }));
    }
    assert forall|l: int| 1 <= l <= 15 implies !#[trigger] oversubscribed_at(lit, l) by {
        assert(len_count(lit, l) == fixed_count(l, 288));
    }
    assert forall|l: int| 1 <= l <= 15 implies !#[trigger] oversubscribed_at(dist, l) by {
        assert(len_count(dist, l) == (if l == 5 { 30int } else { 0int }));
    }
}

/// The code lengths of the fixed literal/length code.
pub fn fixed_litlen_code_lengths() -> (v: Vec<u8>)
    ensures
        v@ == fixed_litlen_lengths(),
{
    let mut v: Vec<u8> = Vec::new();
    let mut i: usize = 0;
    while i < 288
        invariant
            i <= 288,
            v@.len() == i,
            forall|j: int| 0 <= j < i ==> #[trigger] v@[j] == fixed_litlen_length(j),
        decreases 288 - i,
    {
        let len: u8 = if i <= 143 {
            8
        } else if i <= 255 {
            9
        } else if i <= 279 {
            7
        } else {
            8
        };
        v.push(len);
        i = i + 1;
    }
    assert(v@ =~= fixed_litlen_lengths());
    v
}

/// The code lengths of the fixed distance code.
pub fn fixed_distance_code_lengths() -> (v: Vec<u8>)
    ensures
        v@ == fixed_distance_lengths(),
{
    let v: Vec<u8> = vec![5u8; 30];
    assert(v@ =~= fixed_distance_lengths());
    v
}

/// The table of the fixed literal/length code.
pub fn fixed_litlen_table() -> (t: HuffmanTable)
    ensures
        t.wf(),
        t.lengths() == fixed_litlen_lengths(),
{
    let lengths = fixed_litlen_code_lengths();
    proof {
        lemma_fixed_first_codes();
        assert(lengths@.take(288) =~= lengths@);
    }
    match HuffmanTable::build(lengths.as_slice(), 288) {
        Ok(t) => t,
        Err(_) => HuffmanTable::new(),
    }
}

/// The table of the fixed distance code.
pub fn fixed_distance_table() -> (t: HuffmanTable)
    ensures
        t.wf(),
        t.lengths() == fixed_distance_lengths(),
{
    let lengths = fixed_distance_code_lengths();
    proof {
        lemma_fixed_first_codes();
        assert(lengths@.take(30) =~= lengths@);
    }
    match HuffmanTable::build(lengths.as_slice(), 30) {
        Ok(t) => t,
        Err(_) => HuffmanTable::new(),
    }
}

/// The low `n` bits of `v`, most significant first.
pub open spec fn msb_seq(v: int, n: int) -> Seq<bool>
    decreases n,
{
    if n <= 0 {
        Seq::empty()
    } else {
        msb_seq(v / 2, n - 1).push(v % 2 == 1)
    }
}

/// The code of symbol `s` as the stream holds it: most significant bit
/// first.
pub open spec fn code_bits(lengths: Seq<u8>, s: int) -> Seq<bool> {
    msb_seq(canonical_code(lengths, s), lengths[s] as int)
}

pub proof fn lemma_msb_seq_len(v: int, n: int)
    requires
        0 <= n,
    ensures
        msb_seq(v, n).len() == n,
    decreases n,
{
    if n > 0 {
        lemma_msb_seq_len(v / 2, n - 1);
    }
}

/// The bits of a number that fits spell it.
pub proof fn lemma_msb_seq_value(v: int, n: int)
    requires
        0 <= n,
        0 <= v < two_pow(n),
    ensures
        msb_value(msb_seq(v, n)) == v,
    decreases n,
{
    if n > 0 {
        lemma_msb_seq_value(v / 2, n - 1);
        lemma_msb_value_push(msb_seq(v / 2, n - 1), v % 2 == 1);
    }
}

/// `1 << n` is two to the power `n`.
pub proof fn lemma_shl_two_pow(n: u64)
    requires
        n <= 62,
    ensures
        (1u64 << n) == two_pow(n as int),
    decreases n,
{
    if n == 0 {
        assert((1u64 << 0u64) == 1) by (bit_vector);
    } else {
        lemma_shl_two_pow((n - 1) as u64);
        let m = (n - 1) as u64;
        assert((1u64 << ((m + 1) as u64)) == 2 * (1u64 << m)) by (bit_vector)
            requires
                m < 62,
        ;
    }
}

/// The number that the low bits of a small value spell is that value.
pub proof fn lemma_low_bits_value(v: u64, n: int)
    requires
        0 <= n <= 62,
        v < two_pow(n),
    ensures
        lsb_value(low_bits(v, n)) == v,
{
    lemma_shl_two_pow(n as u64);
    lemma_lsb_value_small(v, n);
}

/// The first code of a longer length lies beyond all codes of a shorter
/// length, extended to the longer one.
pub proof fn lemma_first_code_growth(lengths: Seq<u8>, d: int, n: int)
    requires
        1 <= d < n,
    ensures
        first_code(lengths, n) >= two_pow(n - d) * (first_code(lengths, d) + len_count(lengths, d)),
    decreases n - d,
{
    let x = first_code(lengths, d) + len_count(lengths, d);
    lemma_count_len_bounds(lengths, d, lengths.len() as int);
    lemma_first_code_nonneg(lengths, d);
    if n == d + 1 {
        assert(two_pow(1) == 2) by {
            lemma_two_pow_values();
        }
    } else {
        lemma_first_code_growth(lengths, d, n - 1);
        lemma_count_len_bounds(lengths, n - 1, lengths.len() as int);
        let t = two_pow(n - 1 - d);
        let f = first_code(lengths, n - 1);
        assert(two_pow(n - d) == 2 * t);
        assert(first_code(lengths, n) >= 2 * f);
        assert(2 * f >= (2 * t) * x) by (nonlinear_arith)
            requires
                f >= t * x,
        ;
    }
}

pub proof fn lemma_first_code_nonneg(lengths: Seq<u8>, l: int)
    ensures
        first_code(lengths, l) >= 0,
    decreases l,
{
    if l > 0 {
        lemma_first_code_nonneg(lengths, l - 1);
        lemma_count_len_bounds(lengths, l - 1, lengths.len() as int);
    }
}

pub proof fn lemma_two_pow_positive(n: int)
    ensures
        two_pow(n) >= 1,
    decreases n,
{
    if n > 0 {
        lemma_two_pow_positive(n - 1);
    }
}

/// The number that a bit sequence spells lies below the number that its
/// first `d` bits spell, plus one, extended to the full length.
pub proof fn lemma_msb_value_prefix(c: Seq<bool>, d: int)
    requires
        0 <= d <= c.len(),
    ensures
        msb_value(c) < two_pow(c.len() - d) * (msb_value(c.take(d)) + 1),
    decreases c.len() - d,
{
    if d == c.len() {
        assert(c.take(d) =~= c);
    } else {
        let shorter = c.drop_last();
        lemma_msb_value_prefix(shorter, d);
        assert(shorter.take(d) =~= c.take(d));
        let t = two_pow(c.len() - 1 - d);
        let p = msb_value(c.take(d)) as int + 1;
        let m = msb_value(shorter) as int;
        assert(two_pow(c.len() - d) == 2 * t);
        assert(2 * m + 1 < (2 * t) * p) by (nonlinear_arith)
            requires
                m < t * p,
        ;
    }
}

/// The canonical code of a symbol fits in its length.
pub proof fn lemma_code_fits(lengths: Seq<u8>, s: int)
    requires
        build_error(lengths).is_none(),
        0 <= s < lengths.len(),
        lengths[s] > 0,
    ensures
        0 <= canonical_code(lengths, s) < two_pow(lengths[s] as int),
{
    let l = lengths[s] as int;
    lemma_count_len_strict(lengths, s, lengths.len() as int);
    lemma_count_len_bounds(lengths, l, s);
    lemma_first_code_nonneg(lengths, l);
    assert(!oversubscribed_at(lengths, l));
}

/// No code is the beginning of a longer code.
pub proof fn lemma_prefix_free(lengths: Seq<u8>, s: int, t: int, c: Seq<bool>)
    requires
        build_error(lengths).is_none(),
        0 <= s < lengths.len(),
        0 <= t < lengths.len(),
        0 < lengths[t] < lengths[s],
        c.len() == lengths[s],
        msb_value(c) == canonical_code(lengths, s),
    ensures
        msb_value(c.take(lengths[t] as int)) != canonical_code(lengths, t),
{
    let n = lengths[s] as int;
    let d = lengths[t] as int;
    lemma_msb_value_prefix(c, d);
    lemma_first_code_growth(lengths, d, n);
    lemma_count_len_strict(lengths, t, lengths.len() as int);
    lemma_count_len_bounds(lengths, n, s);
    lemma_two_pow_positive(n - d);
    let tp = two_pow(n - d);
    let x = first_code(lengths, d) + len_count(lengths, d);
    let ct = canonical_code(lengths, t);
    if msb_value(c.take(d)) == ct {
        assert(tp * (ct + 1) <= tp * x) by (nonlinear_arith)
            requires
                ct + 1 <= x,
                tp >= 1,
        ;
        assert(false);
    }
}

/// Bits that begin with the code of a symbol decode to that symbol.
pub proof fn lemma_decode_code(lengths: Seq<u8>, s: int, bits: Seq<bool>)
    requires
        build_error(lengths).is_none(),
        0 <= s < lengths.len(),
        lengths[s] > 0,
        bits.len() == 15,
        bits.take(lengths[s] as int) == code_bits(lengths, s),
    ensures
        decode_spec(lengths, bits) == Some((s, lengths[s] as int)),
{
    lemma_code_fits(lengths, s);
    lemma_msb_seq_value(canonical_code(lengths, s), lengths[s] as int);
    lemma_msb_seq_len(canonical_code(lengths, s), lengths[s] as int);
    lemma_decode_from(lengths, s, bits, 1);
}

proof fn lemma_decode_from(lengths: Seq<u8>, s: int, bits: Seq<bool>, d: int)
    requires
        build_error(lengths).is_none(),
        0 <= s < lengths.len(),
        lengths[s] > 0,
        bits.len() == 15,
        msb_value(bits.take(lengths[s] as int)) == canonical_code(lengths, s),
        1 <= d <= lengths[s],
    ensures
        decode_range(lengths, bits, d, 15) == Some((s, lengths[s] as int)),
    decreases lengths[s] - d,
{
    let n = lengths[s] as int;
    let c = bits.take(n);
    let v = msb_value(bits.take(d)) as int;
    if d == n {
        lemma_symbol_with(lengths, s, n, v);
    } else {
        assert(c.take(d) =~= bits.take(d));
        if symbol_with(lengths, d, v).is_some() {
            lemma_symbol_with_is(lengths, d, v);
            let t = symbol_with(lengths, d, v).unwrap();
            lemma_prefix_free(lengths, s, t, c);
            assert(false);
        }
        lemma_decode_from(lengths, s, bits, d + 1);
    }
}

/// Reverses the low `len` bits of `code`.
pub fn reverse_bits(code: u32, len: u8) -> (r: u32)
    requires
        len <= 16,
    ensures
        r == lsb_value(msb_seq(code as int, len as int)),
        r < two_pow(len as int),
{
    let ghost s = msb_seq(code as int, len as int);
    let mut r: u32 = 0;
    let mut c: u32 = code;
    let mut i: u8 = 0;
    proof {
        lemma_msb_seq_len(code as int, len as int);
        assert(s.take(len as int) =~= s);
        assert(s.skip(len as int).len() == 0);
        lemma_two_pow_values();
    }
    while i < len
        invariant
            i <= len <= 16,
            s.len() == len,
            s.take(len - i) == msb_seq(c as int, len - i),
            r == lsb_value(s.skip(len - i)),
            r < two_pow(i as int),
            two_pow(i as int) <= 65536,
        decreases len - i,
    {
        proof {
            let m = len - i;
            assert(s.take(m).drop_last() =~= s.take(m - 1));
            assert(s.take(m).last() == s[m - 1]);
            assert(s.skip(m - 1).skip(1) =~= s.skip(m));
            assert(s.skip(m - 1)[0] == s[m - 1]);
            lemma_two_pow_values();
            assert(two_pow(i + 1) == 2 * two_pow(i as int));
        }
        r = r * 2 + c % 2;
        c = c / 2;
        i = i + 1;
    }
    proof {
        assert(s.skip(0) =~= s);
    }
    r
}

impl Default for HuffmanTable {
    fn default() -> (t: Self)
        ensures
            t.wf(),
            t.lengths() =~= Seq::<u8>::empty(),
    {
        Self::new()
    }
}

} // verus!
