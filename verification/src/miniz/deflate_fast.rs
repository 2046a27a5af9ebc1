//! The fixed-Huffman block encoder over an LZ77 parse, and the proof that
//! the decoder undoes it.

use vstd::prelude::*;
use crate::miniz::bitstream::{
    bits_of_bytes, bytes_of_bits, lemma_bits_of_bytes_of_bits, lemma_bytes_of_bits,
    lemma_lsb_value_injective, lemma_padded_whole, low_bits, lsb_value, padding, BitWriter,
};
use crate::miniz::huffman::{
    build_error, code_bits, fixed_distance_lengths, fixed_distance_table, fixed_litlen_lengths,
    fixed_litlen_table, lemma_decode_code, lemma_dist_tables, lemma_fixed_first_codes,
    lemma_length_tables, lemma_low_bits_value, lemma_msb_seq_len,
    lemma_two_pow_values, reverse_bits, two_pow, HuffmanTable, DIST_BASE, DIST_EXTRA, LENGTH_BASE,
    LENGTH_EXTRA,
};
use crate::miniz::inflate::{
    inflate_block, inflate_blocks, inflate_raw, inflate_symbols, peek15, read_num, read_symbol,
    InflateError,
};
use crate::miniz::lz77;
use crate::miniz::lz77::{
    apply_symbol, expand, expand_from, greedy_parse, lemma_greedy_parse, lemma_parse_cons,
    lz77_scan, match_in_range, parse_valid, parse_valid_from,
};

verus! {

/// The greatest index up to `i` whose first length is at most `len`.
pub open spec fn length_index_from(len: int, i: int) -> int
    decreases i,
{
    if i <= 0 {
        0
    } else if LENGTH_BASE[i] <= len {
        i
    } else {
        length_index_from(len, i - 1)
    }
}

/// The length symbol for a match of `len` bytes, counted from symbol 257.
pub open spec fn length_index(len: int) -> int {
    length_index_from(len, 28)
}

/// The greatest index up to `i` whose first distance is at most `dist`.
pub open spec fn dist_index_from(dist: int, i: int) -> int
    decreases i,
{
    if i <= 0 {
        0
    } else if DIST_BASE[i] <= dist {
        i
    } else {
        dist_index_from(dist, i - 1)
    }
}

/// The distance symbol for a match from `dist` bytes back.
pub open spec fn dist_index(dist: int) -> int {
    dist_index_from(dist, 29)
}

/// The bits of one symbol: the code of a literal; for a match the code of
/// its length symbol, the extra bits of the length, the code of its distance
/// symbol and the extra bits of the distance.
pub open spec fn symbol_bits(lit: Seq<u8>, dist: Seq<u8>, sym: lz77::LZSymbol) -> Seq<bool> {
    match sym {
        lz77::LZSymbol::Literal(b) => code_bits(lit, b as int),
        lz77::LZSymbol::Match(m) => {
            let li = length_index(m.length as int);
            let di = dist_index(m.distance as int);
            code_bits(lit, 257 + li) + low_bits(
                (m.length - LENGTH_BASE[li]) as u64,
                LENGTH_EXTRA[li] as int,
            ) + code_bits(dist, di) + low_bits(
                (m.distance - DIST_BASE[di]) as u64,
                DIST_EXTRA[di] as int,
            )
        },
    }
}

/// The bits of a parse, symbol after symbol.
pub open spec fn encode_bits(lit: Seq<u8>, dist: Seq<u8>, symbols: Seq<lz77::LZSymbol>) -> Seq<
    bool,
>
    decreases symbols.len(),
{
    if symbols.len() == 0 {
        Seq::empty()
    } else {
        encode_bits(lit, dist, symbols.drop_last()) + symbol_bits(lit, dist, symbols.last())
    }
}

/// The body of a compressed block: the bits of the parse and the
/// end-of-block code.
pub open spec fn block_bits(lit: Seq<u8>, dist: Seq<u8>, symbols: Seq<lz77::LZSymbol>) -> Seq<
    bool,
> {
    encode_bits(lit, dist, symbols) + code_bits(lit, 256)
}

/// A final block in the fixed code: the final flag, block type 1, and the
/// body.
pub open spec fn fixed_block_bits(symbols: Seq<lz77::LZSymbol>) -> Seq<bool> {
    seq![true, true, false] + block_bits(
        fixed_litlen_lengths(),
        fixed_distance_lengths(),
        symbols,
    )
}

/// Every match of the parse has a length and a distance that DEFLATE can
/// express.
pub open spec fn symbols_in_range(symbols: Seq<lz77::LZSymbol>) -> bool {
    forall|i: int|
        0 <= i < symbols.len() ==> match #[trigger] symbols[i] {
            lz77::LZSymbol::Literal(_) => true,
            lz77::LZSymbol::Match(m) => match_in_range(m.length as int, m.distance as int),
        }
}

/// Both codes are valid and have a code for every symbol that a block can
/// hold.
pub open spec fn codes_cover(lit: Seq<u8>, dist: Seq<u8>) -> bool {
    &&& build_error(lit).is_none()
    &&& build_error(dist).is_none()
    &&& lit.len() >= 286
    &&& dist.len() >= 30
    &&& forall|s: int| 0 <= s < 286 ==> #[trigger] lit[s] > 0
    &&& forall|s: int| 0 <= s < 30 ==> #[trigger] dist[s] > 0
}

/// The length symbol of a match, counted from 257.
fn length_code(length: u16) -> (i: usize)
    requires
        3 <= length <= 258,
    ensures
        i == length_index(length as int),
        i < 29,
        LENGTH_BASE[i as int] <= length,
        length - LENGTH_BASE[i as int] < two_pow(LENGTH_EXTRA[i as int] as int),
{
    let mut i: usize = 28;
    proof {
        lemma_length_tables(28);
        lemma_two_pow_values();
    }
    while i > 0 && LENGTH_BASE[i] > length
        invariant
            i <= 28,
            3 <= length <= 258,
            length_index(length as int) == length_index_from(length as int, i as int),
            i < 28 ==> length < LENGTH_BASE[i + 1],
        decreases i,
    {
        i = i - 1;
    }
    proof {
        lemma_length_tables(i as int);
        lemma_length_tables(0);
        lemma_two_pow_values();
    }
    i
}

/// The distance symbol of a match.
fn dist_code(distance: u16) -> (i: usize)
    requires
        1 <= distance <= 32768,
    ensures
        i == dist_index(distance as int),
        i < 30,
        DIST_BASE[i as int] <= distance,
        distance - DIST_BASE[i as int] < two_pow(DIST_EXTRA[i as int] as int),
{
    let mut i: usize = 29;
    proof {
        lemma_dist_tables(29);
        lemma_two_pow_values();
    }
    while i > 0 && DIST_BASE[i] > distance
        invariant
            i <= 29,
            1 <= distance <= 32768,
            dist_index(distance as int) == dist_index_from(distance as int, i as int),
            i < 29 ==> distance < DIST_BASE[i + 1],
            i == 29 ==> distance < 32769,
        decreases i,
    {
        i = i - 1;
    }
    proof {
        lemma_dist_tables(i as int);
        lemma_dist_tables(0);
        lemma_two_pow_values();
    }
    i
}

/// Writes the code of `symbol`, most significant bit first.
fn write_code(writer: &mut BitWriter, table: &HuffmanTable, symbol: usize)
    requires
        old(writer).wf(),
        table.wf(),
        symbol < table.lengths().len(),
        table.lengths()[symbol as int] > 0,
    ensures
        final(writer).wf(),
        final(writer)@ =~= old(writer)@ + code_bits(table.lengths(), symbol as int),
{
    let entry = table.encode(symbol);
    let code: u16 = entry.0;
    let len: u8 = entry.1;
    let rev: u32 = reverse_bits(code as u32, len);
    proof {
        lemma_msb_seq_len(code as int, len as int);
        lemma_low_bits_value(rev as u64, len as int);
        lemma_lsb_value_injective(
            low_bits(rev as u64, len as int),
            code_bits(table.lengths(), symbol as int),
        );
    }
    writer.write_bits(rev, len);
}

/// Writes the bits of one symbol.
fn write_symbol(
    writer: &mut BitWriter,
    lit: &HuffmanTable,
    dist: &HuffmanTable,
    sym: &lz77::LZSymbol,
)
    requires
        old(writer).wf(),
        lit.wf(),
        dist.wf(),
        codes_cover(lit.lengths(), dist.lengths()),
        match *sym {
            lz77::LZSymbol::Literal(_) => true,
            lz77::LZSymbol::Match(m) => match_in_range(m.length as int, m.distance as int),
        },
    ensures
        final(writer).wf(),
        final(writer)@ =~= old(writer)@ + symbol_bits(lit.lengths(), dist.lengths(), *sym),
{
    match sym {
        lz77::LZSymbol::Literal(b) => {
            write_code(writer, lit, *b as usize);
        },
        lz77::LZSymbol::Match(m) => {
            let li: usize = length_code(m.length);
            proof {
                lemma_length_tables(li as int);
            }
            write_code(writer, lit, 257 + li);
            writer.write_bits((m.length - LENGTH_BASE[li]) as u32, LENGTH_EXTRA[li]);
            let di: usize = dist_code(m.distance);
            proof {
                lemma_dist_tables(di as int);
            }
            write_code(writer, dist, di);
            writer.write_bits((m.distance - DIST_BASE[di]) as u32, DIST_EXTRA[di]);
        },
    }
}

/// Writes the bits of a parse.
fn write_symbols(
    writer: &mut BitWriter,
    lit: &HuffmanTable,
    dist: &HuffmanTable,
    symbols: &[lz77::LZSymbol],
)
    requires
        old(writer).wf(),
        lit.wf(),
        dist.wf(),
        codes_cover(lit.lengths(), dist.lengths()),
        symbols_in_range(symbols@),
    ensures
        final(writer).wf(),
        final(writer)@ =~= old(writer)@ + encode_bits(lit.lengths(), dist.lengths(), symbols@),
{
    let mut i: usize = 0;
    while i < symbols.len()
        invariant
            i <= symbols@.len(),
            writer.wf(),
            lit.wf(),
            dist.wf(),
            codes_cover(lit.lengths(), dist.lengths()),
            symbols_in_range(symbols@),
            writer@ =~= old(writer)@ + encode_bits(
                lit.lengths(),
                dist.lengths(),
                symbols@.take(i as int),
            ),
        decreases symbols@.len() - i,
    {
        proof {
            assert(symbols@.take(i + 1).drop_last() =~= symbols@.take(i as int));
            assert(symbols@.take(i + 1).last() == symbols@[i as int]);
        }
        write_symbol(writer, lit, dist, &symbols[i]);
        i = i + 1;
    }
    proof {
        assert(symbols@.take(i as int) =~= symbols@);
    }
}

/// The fixed codes have a code for every symbol.
pub proof fn lemma_fixed_codes_cover()
    ensures
        codes_cover(fixed_litlen_lengths(), fixed_distance_lengths()),
{
    lemma_fixed_first_codes();
}

/// Encodes a parse as one final block in the fixed code, padded with zero
/// bits to whole bytes.
pub fn encode_fixed_block(symbols: &[lz77::LZSymbol]) -> (out: Vec<u8>)
    requires
        symbols_in_range(symbols@),
    ensures
        out@ == fixed_block_bytes(symbols@),
        bits_of_bytes(out@) =~= fixed_block_bits(symbols@) + padding(
            fixed_block_bits(symbols@).len() as int,
        ),
{
    let lit = fixed_litlen_table();
    let dist = fixed_distance_table();
    let mut writer = BitWriter::new();
    proof {
        lemma_fixed_codes_cover();
        assert(low_bits(3, 3) =~= seq![true, true, false]) by {
            assert(crate::miniz::bitstream::bit_of(3, 0) && crate::miniz::bitstream::bit_of(3, 1)
                && !crate::miniz::bitstream::bit_of(3, 2)) by (bit_vector);
        }
    }
    writer.write_bits(3, 3);
    write_symbols(&mut writer, &lit, &dist, symbols);
    write_code(&mut writer, &lit, 256);
    let out = writer.into_bytes();
    proof {
        lemma_bytes_of_bits(out@);
        assert(bits_of_bytes(out@) == fixed_block_bits(symbols@) + padding(
            fixed_block_bits(symbols@).len() as int,
        ));
    }
    out
}

/// The bits of a parse are the bits of its first symbol and then those of
/// the rest.
pub proof fn lemma_encode_cons(
    lit: Seq<u8>,
    dist: Seq<u8>,
    sym: lz77::LZSymbol,
    rest: Seq<lz77::LZSymbol>,
)
    ensures
        encode_bits(lit, dist, seq![sym] + rest) =~= symbol_bits(lit, dist, sym) + encode_bits(
            lit,
            dist,
            rest,
        ),
    decreases rest.len(),
{
    let all = seq![sym] + rest;
    if rest.len() == 0 {
        assert(all.drop_last() =~= Seq::<lz77::LZSymbol>::empty());
        assert(all.last() == sym);
        assert(encode_bits(lit, dist, all.drop_last()) =~= Seq::<bool>::empty());
    } else {
        assert(all.drop_last() =~= seq![sym] + rest.drop_last());
        assert(all.last() == rest.last());
        lemma_encode_cons(lit, dist, sym, rest.drop_last());
    }
}

/// Where the code of a symbol stands, that symbol is read.
pub proof fn lemma_read_symbol_code(lengths: Seq<u8>, bits: Seq<bool>, pos: int, s: int)
    requires
        build_error(lengths).is_none(),
        0 <= s < lengths.len(),
        lengths[s] > 0,
        0 <= pos,
        pos + lengths[s] <= bits.len(),
        bits.subrange(pos, pos + lengths[s]) == code_bits(lengths, s),
    ensures
        read_symbol(lengths, bits, pos) == Ok::<(int, int), InflateError>((s, pos + lengths[s])),
        code_bits(lengths, s).len() == lengths[s],
        1 <= lengths[s] <= 15,
{
    let l = lengths[s] as int;
    assert(lengths[s] <= 15);
    lemma_msb_seq_len(crate::miniz::huffman::canonical_code(lengths, s), l);
    assert(peek15(bits, pos).take(l) =~= bits.subrange(pos, pos + l));
    lemma_decode_code(lengths, s, peek15(bits, pos));
}

/// Where the low bits of a small number stand, that number is read.
pub proof fn lemma_read_num_low_bits(bits: Seq<bool>, pos: int, v: u64, k: int)
    requires
        0 <= k <= 32,
        v < two_pow(k),
        0 <= pos,
        pos + k <= bits.len(),
        bits.subrange(pos, pos + k) == low_bits(v, k),
    ensures
        read_num(bits, pos, k) == Some(v as int),
{
    lemma_low_bits_value(v, k);
}

/// The length symbol of a match covers its length.
pub proof fn lemma_length_index(len: int, i: int)
    requires
        3 <= len <= 258,
        0 <= i <= 28,
        i < 28 ==> len < LENGTH_BASE[i + 1],
    ensures
        0 <= length_index_from(len, i) <= 28,
        LENGTH_BASE[length_index_from(len, i)] <= len,
        len - LENGTH_BASE[length_index_from(len, i)] < two_pow(
            LENGTH_EXTRA[length_index_from(len, i)] as int,
        ),
    decreases i,
{
    lemma_length_tables(i);
    lemma_length_tables(0);
    lemma_two_pow_values();
    if i > 0 && LENGTH_BASE[i] > len {
        lemma_length_index(len, i - 1);
    }
}

/// The distance symbol of a match covers its distance.
pub proof fn lemma_dist_index(dist: int, i: int)
    requires
        1 <= dist <= 32768,
        0 <= i <= 29,
        i < 29 ==> dist < DIST_BASE[i + 1],
    ensures
        0 <= dist_index_from(dist, i) <= 29,
        DIST_BASE[dist_index_from(dist, i)] <= dist,
        dist - DIST_BASE[dist_index_from(dist, i)] < two_pow(
            DIST_EXTRA[dist_index_from(dist, i)] as int,
        ),
    decreases i,
{
    lemma_dist_tables(i);
    lemma_dist_tables(0);
    lemma_two_pow_values();
    if i > 0 && DIST_BASE[i] > dist {
        lemma_dist_index(dist, i - 1);
    }
}

/// The decoder undoes the encoding of one match: where the bits of a match
/// stand, its length and distance are read.
pub proof fn lemma_match_round_trip(
    lit: Seq<u8>,
    dist: Seq<u8>,
    bits: Seq<bool>,
    pos: int,
    m: lz77::Match,
)
    requires
        codes_cover(lit, dist),
        match_in_range(m.length as int, m.distance as int),
        0 <= pos,
        pos + symbol_bits(lit, dist, lz77::LZSymbol::Match(m)).len() <= bits.len(),
        bits.subrange(pos, pos + symbol_bits(lit, dist, lz77::LZSymbol::Match(m)).len())
            == symbol_bits(lit, dist, lz77::LZSymbol::Match(m)),
    ensures
        ({
            let li = length_index(m.length as int);
            let di = dist_index(m.distance as int);
            let at1 = pos + lit[257 + li];
            let at2 = at1 + LENGTH_EXTRA[li];
            let at3 = at2 + dist[di];
            let at4 = at3 + DIST_EXTRA[di];
            &&& 0 <= li <= 28
            &&& 0 <= di <= 29
            &&& read_symbol(lit, bits, pos) == Ok::<(int, int), InflateError>((257 + li, at1))
            &&& read_num(bits, at1, LENGTH_EXTRA[li] as int) == Some(m.length - LENGTH_BASE[li])
            &&& read_symbol(dist, bits, at2) == Ok::<(int, int), InflateError>((di, at3))
            &&& read_num(bits, at3, DIST_EXTRA[di] as int) == Some(m.distance - DIST_BASE[di])
            &&& at4 == pos + symbol_bits(lit, dist, lz77::LZSymbol::Match(m)).len()
            &&& pos < at1
        }),
{
    let li = length_index(m.length as int);
    let di = dist_index(m.distance as int);
    lemma_length_index(m.length as int, 28);
    lemma_dist_index(m.distance as int, 29);
    lemma_length_tables(li);
    lemma_dist_tables(di);
    let a = code_bits(lit, 257 + li);
    let b = low_bits((m.length - LENGTH_BASE[li]) as u64, LENGTH_EXTRA[li] as int);
    let c = code_bits(dist, di);
    let d = low_bits((m.distance - DIST_BASE[di]) as u64, DIST_EXTRA[di] as int);
    let all = symbol_bits(lit, dist, lz77::LZSymbol::Match(m));
    assert(all == a + b + c + d);
    lemma_msb_seq_len(crate::miniz::huffman::canonical_code(lit, 257 + li), lit[257 + li] as int);
    lemma_msb_seq_len(crate::miniz::huffman::canonical_code(dist, di), dist[di] as int);
    let na = a.len() as int;
    let nb = b.len() as int;
    let nc = c.len() as int;
    let nd = d.len() as int;
    let at1 = pos + na;
    let at2 = at1 + nb;
    let at3 = at2 + nc;
    let at4 = at3 + nd;
    let window = bits.subrange(pos, pos + all.len());
    assert(bits.subrange(pos, at1) =~= window.subrange(0, na));
    assert(bits.subrange(at1, at2) =~= window.subrange(na, na + nb));
    assert(bits.subrange(at2, at3) =~= window.subrange(na + nb, na + nb + nc));
    assert(bits.subrange(at3, at4) =~= window.subrange(na + nb + nc, na + nb + nc + nd));
    assert(all.subrange(0, na) =~= a);
    assert(all.subrange(na, na + nb) =~= b);
    assert(all.subrange(na + nb, na + nb + nc) =~= c);
    assert(all.subrange(na + nb + nc, na + nb + nc + nd) =~= d);
    lemma_read_symbol_code(lit, bits, pos, 257 + li);
    lemma_read_num_low_bits(
        bits,
        at1,
        (m.length - LENGTH_BASE[li]) as u64,
        LENGTH_EXTRA[li] as int,
    );
    lemma_read_symbol_code(dist, bits, at2, di);
    lemma_read_num_low_bits(
        bits,
        at3,
        (m.distance - DIST_BASE[di]) as u64,
        DIST_EXTRA[di] as int,
    );
}

/// The decoder undoes the encoder: where the body of a block stands, decoding
/// yields what the parse expands to and ends behind the body.
pub proof fn lemma_symbols_round_trip(
    lit: Seq<u8>,
    dist: Seq<u8>,
    bits: Seq<bool>,
    pos: int,
    out: Seq<u8>,
    symbols: Seq<lz77::LZSymbol>,
)
    requires
        codes_cover(lit, dist),
        parse_valid_from(out, symbols),
        0 <= pos,
        pos + block_bits(lit, dist, symbols).len() <= bits.len(),
        bits.subrange(pos, pos + block_bits(lit, dist, symbols).len()) == block_bits(
            lit,
            dist,
            symbols,
        ),
    ensures
        inflate_symbols(lit, dist, bits, pos, out) == Ok::<(int, Seq<u8>), InflateError>(
            (pos + block_bits(lit, dist, symbols).len(), expand_from(out, symbols)),
        ),
    decreases symbols.len(),
{
    let body = block_bits(lit, dist, symbols);
    let window = bits.subrange(pos, pos + body.len());
    if symbols.len() == 0 {
        assert(body =~= code_bits(lit, 256));
        lemma_msb_seq_len(crate::miniz::huffman::canonical_code(lit, 256), lit[256] as int);
        lemma_read_symbol_code(lit, bits, pos, 256);
    } else {
        let sym = symbols[0];
        let rest = symbols.skip(1);
        assert(symbols =~= seq![sym] + rest);
        lemma_encode_cons(lit, dist, sym, rest);
        lemma_parse_cons(out, sym, rest);
        let head = symbol_bits(lit, dist, sym);
        let tail = block_bits(lit, dist, rest);
        assert(body =~= head + tail);
        let next = pos + head.len();
        assert(bits.subrange(pos, next) =~= window.subrange(0, head.len() as int));
        assert(bits.subrange(next, next + tail.len()) =~= window.subrange(
            head.len() as int,
            body.len() as int,
        ));
        assert(body.subrange(0, head.len() as int) =~= head);
        assert(body.subrange(head.len() as int, body.len() as int) =~= tail);
        lemma_symbols_round_trip(lit, dist, bits, next, apply_symbol(out, sym), rest);
        match sym {
            lz77::LZSymbol::Literal(b) => {
                lemma_msb_seq_len(
                    crate::miniz::huffman::canonical_code(lit, b as int),
                    lit[b as int] as int,
                );
                lemma_read_symbol_code(lit, bits, pos, b as int);
            },
            lz77::LZSymbol::Match(m) => {
                lemma_match_round_trip(lit, dist, bits, pos, m);
            },
        }
    }
}

/// The decoder undoes the block encoder: a stream in which a block in the
/// fixed code stands at `pos` decodes, from there, to what the parse expands
/// to.
pub proof fn lemma_fixed_block_round_trip(
    data: Seq<u8>,
    pos: int,
    out: Seq<u8>,
    symbols: Seq<lz77::LZSymbol>,
)
    requires
        parse_valid_from(out, symbols),
        0 <= pos,
        pos + fixed_block_bits(symbols).len() <= 8 * data.len(),
        bits_of_bytes(data).subrange(pos, pos + fixed_block_bits(symbols).len())
            == fixed_block_bits(symbols),
    ensures
        inflate_blocks(data, pos, out) == Ok::<(int, Seq<u8>), InflateError>(
            (pos + fixed_block_bits(symbols).len(), expand_from(out, symbols)),
        ),
{
    let bits = bits_of_bytes(data);
    let lit = fixed_litlen_lengths();
    let dist = fixed_distance_lengths();
    let block = fixed_block_bits(symbols);
    let body = block_bits(lit, dist, symbols);
    let window = bits.subrange(pos, pos + block.len());
    lemma_fixed_codes_cover();
    assert(block.len() == 3 + body.len());
    assert(bits[pos] == window[0]);
    assert(bits[pos + 1] == window[1]);
    assert(bits[pos + 2] == window[2]);
    let two = bits.subrange(pos + 1, pos + 3);
    assert(two =~= seq![true, false]);
    assert(two.skip(1) =~= seq![false]);
    assert(two.skip(1).skip(1) =~= Seq::<bool>::empty());
    assert(lsb_value(two.skip(1).skip(1)) == 0);
    assert(lsb_value(two.skip(1)) == 0);
    assert(lsb_value(two) == 1);
    assert(bits.subrange(pos + 3, pos + 3 + body.len()) =~= window.subrange(3, block.len() as int));
    assert(block.subrange(3, block.len() as int) =~= body);
    lemma_symbols_round_trip(lit, dist, bits, pos + 3, out, symbols);
    reveal(inflate_block);
}

/// Round trip of a raw stream: the bytes of one block in the fixed code
/// decode to what the parse expands to.
pub proof fn lemma_raw_round_trip(stream: Seq<u8>, symbols: Seq<lz77::LZSymbol>)
    requires
        parse_valid(symbols),
        bits_of_bytes(stream) == fixed_block_bits(symbols) + padding(
            fixed_block_bits(symbols).len() as int,
        ),
    ensures
        inflate_raw(stream) == Ok::<Seq<u8>, InflateError>(expand(symbols)),
{
    let block = fixed_block_bits(symbols);
    assert(bits_of_bytes(stream).len() == 8 * stream.len());
    assert(bits_of_bytes(stream).len() == block.len() + padding(block.len() as int).len());
    assert(bits_of_bytes(stream).subrange(0, block.len() as int) =~= block);
    lemma_fixed_block_round_trip(stream, 0, Seq::empty(), symbols);
}

/// One step of an LZ77 parse, as the fast encoder reports it.
#[derive(Debug, Clone, Copy, PartialEq, Eq)]
pub enum LZSymbol {
    /// One byte as it is.
    Literal(u8),
    /// `length` bytes that repeat what stands `distance` bytes back.
    Match { length: u16, distance: u16 },
}

impl LZSymbol {
    /// The same symbol in the engine's own type.
    pub open spec fn to_lz77(self) -> lz77::LZSymbol {
        match self {
            LZSymbol::Literal(b) => lz77::LZSymbol::Literal(b),
            LZSymbol::Match { length, distance } => lz77::LZSymbol::Match(
                lz77::Match { length, distance },
            ),
        }
    }
}

/// The LZ77 engine at its fastest: one candidate is tried at each position,
/// the last one with the same hash.
pub struct DeflateFast {
    max_probes: usize,
}

impl DeflateFast {
    /// The number of candidates tried at each position.
    pub closed spec fn probes(&self) -> int {
        self.max_probes as int
    }

    pub fn new() -> (e: Self)
        ensures
            e.probes() == 1,
    {
        Self { max_probes: 1 }
    }

    /// Parses `data` greedily into literals and matches.
    pub fn compress(&mut self, data: &[u8]) -> (symbols: Vec<LZSymbol>)
        ensures
            symbols@.map_values(|s: LZSymbol| s.to_lz77()) == greedy_parse(
                data@,
                0,
                old(self).probes(),
            ),
            expand(symbols@.map_values(|s: LZSymbol| s.to_lz77())) == data@,
            parse_valid(symbols@.map_values(|s: LZSymbol| s.to_lz77())),
            final(self).probes() == old(self).probes(),
    {
        let parsed = lz77_scan(data, self.max_probes);
        let mut symbols: Vec<LZSymbol> = Vec::new();
        let mut i: usize = 0;
        while i < parsed.len()
            invariant
                i <= parsed@.len(),
                symbols@.len() == i,
                forall|j: int| 0 <= j < i ==> (#[trigger] symbols@[j]).to_lz77() == parsed@[j],
            decreases parsed@.len() - i,
        {
            let sym = match parsed[i] {
                lz77::LZSymbol::Literal(b) => LZSymbol::Literal(b),
                lz77::LZSymbol::Match(m) => LZSymbol::Match {
                    length: m.length,
                    distance: m.distance,
                },
            };
            symbols.push(sym);
            i = i + 1;
        }
        proof {
            assert(symbols@.map_values(|s: LZSymbol| s.to_lz77()) =~= parsed@);
        }
        symbols
    }
}

impl Default for DeflateFast {
    fn default() -> (e: Self)
        ensures
            e.probes() == 1,
    {
        Self::new()
    }
}

/// Every symbol of a valid parse is in range.
pub proof fn lemma_valid_in_range(out: Seq<u8>, symbols: Seq<lz77::LZSymbol>)
    requires
        parse_valid_from(out, symbols),
    ensures
        symbols_in_range(symbols),
    decreases symbols.len(),
{
    if symbols.len() > 0 {
        lemma_valid_in_range(out, symbols.drop_last());
        assert forall|i: int| 0 <= i < symbols.len() implies match #[trigger] symbols[i] {
            lz77::LZSymbol::Literal(_) => true,
            lz77::LZSymbol::Match(m) => match_in_range(m.length as int, m.distance as int),
        } by {
            if i < symbols.len() - 1 {
                assert(symbols[i] == symbols.drop_last()[i]);
            }
        }
    }
}

/// The bytes `body` are one final block in the fixed code that encodes a
/// valid parse of `data`.
pub open spec fn is_fixed_encoding(body: Seq<u8>, data: Seq<u8>) -> bool {
    exists|symbols: Seq<lz77::LZSymbol>|
        #![trigger fixed_block_bits(symbols)]
        parse_valid(symbols) && expand(symbols) == data && bits_of_bytes(body)
            == fixed_block_bits(symbols) + padding(fixed_block_bits(symbols).len() as int)
}

/// Round trip: a block in the fixed code that encodes a parse of `data`
/// decodes to `data`.
pub proof fn lemma_fixed_encoding_round_trip(body: Seq<u8>, data: Seq<u8>)
    requires
        is_fixed_encoding(body, data),
    ensures
        inflate_raw(body) == Ok::<Seq<u8>, InflateError>(data),
{
    let symbols = choose|symbols: Seq<lz77::LZSymbol>|
        #![trigger fixed_block_bits(symbols)]
        parse_valid(symbols) && expand(symbols) == data && bits_of_bytes(body)
            == fixed_block_bits(symbols) + padding(fixed_block_bits(symbols).len() as int);
    lemma_raw_round_trip(body, symbols);
}

/// The bytes of one final block in the fixed code that encodes `symbols`,
/// padded with zero bits to whole bytes.
pub open spec fn fixed_block_bytes(symbols: Seq<lz77::LZSymbol>) -> Seq<u8> {
    bytes_of_bits(fixed_block_bits(symbols) + padding(fixed_block_bits(symbols).len() as int))
}

/// The stream that the encoder makes of `data` when it tries `probes`
/// candidates at each position: one final block in the fixed code that
/// encodes the greedy parse of `data`.
pub open spec fn fixed_stream(data: Seq<u8>, probes: int) -> Seq<u8> {
    fixed_block_bytes(greedy_parse(data, 0, probes))
}

/// The stream in the fixed code is a block that encodes a valid parse of
/// `data`, and decodes to `data`.
pub proof fn lemma_fixed_stream(data: Seq<u8>, probes: int)
    ensures
        is_fixed_encoding(fixed_stream(data, probes), data),
        inflate_raw(fixed_stream(data, probes)) == Ok::<Seq<u8>, InflateError>(data),
{
    let symbols = greedy_parse(data, 0, probes);
    let bits = fixed_block_bits(symbols) + padding(fixed_block_bits(symbols).len() as int);
    lemma_greedy_parse(data, 0, probes);
    assert(data.take(0) =~= Seq::<u8>::empty());
    lemma_padded_whole(fixed_block_bits(symbols));
    lemma_bits_of_bytes_of_bits(bits);
    assert(bits_of_bytes(fixed_stream(data, probes)) == fixed_block_bits(symbols) + padding(
        fixed_block_bits(symbols).len() as int,
    ));
    lemma_fixed_encoding_round_trip(fixed_stream(data, probes), data);
}

/// Parses `data`, trying up to `max_probes` candidates at each position, and
/// encodes the parse as one final block in the fixed code.
pub fn compress_fixed(data: &[u8], max_probes: usize) -> (out: Vec<u8>)
    ensures
        out@ == fixed_stream(data@, max_probes as int),
        inflate_raw(out@) == Ok::<Seq<u8>, InflateError>(data@),
{
    let symbols = lz77_scan(data, max_probes);
    proof {
        lemma_valid_in_range(Seq::empty(), symbols@);
    }
    let out = encode_fixed_block(symbols.as_slice());
    proof {
        lemma_bytes_of_bits(out@);
        lemma_fixed_stream(data@, max_probes as int);
    }
    out
}

/// Compresses `data` into one final block in the fixed code, with one
/// candidate tried at each position. Empty `data` gives no bytes. This
/// encoder does not fail.
pub fn deflate_compress_fast(data: &[u8]) -> (r: Result<Vec<u8>, String>)
    ensures
        r.is_ok(),
        data@.len() == 0 ==> r.unwrap()@.len() == 0,
        data@.len() > 0 ==> r.unwrap()@ == fixed_stream(data@, 1) && inflate_raw(r.unwrap()@)
            == Ok::<Seq<u8>, InflateError>(data@),
{
    if data.len() == 0 {
        return Ok(Vec::new());
    }
    Ok(compress_fixed(data, 1))
}

} // verus!
