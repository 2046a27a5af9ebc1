//! LZ77 matching over a sliding window of 32768 bytes.
//!
//! One engine finds the matches. Candidates come from chains of earlier
//! positions with the same three-byte hash, most recent first; the number of
//! candidates tried per position is the engine's only parameter. With one
//! candidate it searches as a table of the last position of each hash
//! would, so that a second engine for fast levels would parse no
//! differently; and with one engine there is one statement of what a parse
//! is, `greedy_parse`, for every level.

use vstd::prelude::*;

verus! {

/// The shortest match.
pub const MIN_MATCH: usize = 3;

/// The longest match.
pub const MAX_MATCH: usize = 258;

/// The greatest distance of a match.
pub const WINDOW_SIZE: usize = 32768;

/// A match of three bytes at this distance or beyond is not worth its bits.
pub const FAR_DISTANCE: usize = 8192;

/// The number of hash chains.
pub const HASH_SIZE: usize = 32768;

/// A back-reference: `length` bytes that repeat what stands `distance` bytes
/// back.
#[derive(Debug, Clone, Copy, PartialEq, Eq)]
pub struct Match {
    /// From 3 to 258.
    pub length: u16,
    /// From 1 to 32768.
    pub distance: u16,
}

/// One step of an LZ77 parse.
#[derive(Debug, Clone, Copy, PartialEq, Eq)]
pub enum LZSymbol {
    /// One byte as it is.
    Literal(u8),
    /// A back-reference.
    Match(Match),
}

/// `out` after copying `length` bytes from `distance` back, byte by byte, so
/// that a copy may overlap what it writes.
pub open spec fn copy_match(out: Seq<u8>, length: int, distance: int) -> Seq<u8>
    decreases length,
{
    if length <= 0 {
        out
    } else {
        copy_match(out.push(out[out.len() - distance]), length - 1, distance)
    }
}

/// The lengths and distances that DEFLATE can express.
pub open spec fn match_in_range(length: int, distance: int) -> bool {
    3 <= length <= 258 && 1 <= distance <= 32768
}

/// A match that the engine emits: expressible, and not a match of three
/// bytes from 8192 bytes back or further.
pub open spec fn match_worthwhile(length: int, distance: int) -> bool {
    match_in_range(length, distance) && !(length == 3 && distance >= 8192)
}

/// `out` after one symbol.
pub open spec fn apply_symbol(out: Seq<u8>, sym: LZSymbol) -> Seq<u8> {
    match sym {
        LZSymbol::Literal(b) => out.push(b),
        LZSymbol::Match(m) => copy_match(out, m.length as int, m.distance as int),
    }
}

/// The bytes that a parse stands for, continuing `out`.
pub open spec fn expand_from(out: Seq<u8>, symbols: Seq<LZSymbol>) -> Seq<u8>
    decreases symbols.len(),
{
    if symbols.len() == 0 {
        out
    } else {
        apply_symbol(expand_from(out, symbols.drop_last()), symbols.last())
    }
}

/// The bytes that a parse stands for.
pub open spec fn expand(symbols: Seq<LZSymbol>) -> Seq<u8> {
    expand_from(Seq::empty(), symbols)
}

/// A symbol that can follow `before` bytes: a literal, or a match that the
/// engine may emit and that reaches back no further than those bytes.
pub open spec fn symbol_fits(before: int, sym: LZSymbol) -> bool {
    match sym {
        LZSymbol::Literal(_) => true,
        LZSymbol::Match(m) => match_worthwhile(m.length as int, m.distance as int) && m.distance
            <= before,
    }
}

/// Every symbol of the parse can follow what stands before it, `out` and
/// what the earlier symbols expand to.
pub open spec fn parse_valid_from(out: Seq<u8>, symbols: Seq<LZSymbol>) -> bool
    decreases symbols.len(),
{
    if symbols.len() == 0 {
        true
    } else {
        &&& parse_valid_from(out, symbols.drop_last())
        &&& symbol_fits(expand_from(out, symbols.drop_last()).len() as int, symbols.last())
    }
}

/// Every match of the parse is one the engine may emit and reaches back no
/// further than the bytes before it.
pub open spec fn parse_valid(symbols: Seq<LZSymbol>) -> bool {
    parse_valid_from(Seq::empty(), symbols)
}

/// A parse applies its first symbol and then the rest.
pub proof fn lemma_parse_cons(out: Seq<u8>, sym: LZSymbol, rest: Seq<LZSymbol>)
    ensures
        expand_from(out, seq![sym] + rest) == expand_from(apply_symbol(out, sym), rest),
        parse_valid_from(out, seq![sym] + rest) == (symbol_fits(out.len() as int, sym)
            && parse_valid_from(apply_symbol(out, sym), rest)),
    decreases rest.len(),
{
    let all = seq![sym] + rest;
    if rest.len() == 0 {
        assert(all.drop_last() =~= Seq::<LZSymbol>::empty());
        assert(all.last() == sym);
        assert(expand_from(out, all.drop_last()) == out);
        assert(parse_valid_from(out, all.drop_last()));
        assert(expand_from(out, all) == apply_symbol(out, sym));
        assert(expand_from(apply_symbol(out, sym), rest) == apply_symbol(out, sym));
    } else {
        assert(all.drop_last() =~= seq![sym] + rest.drop_last());
        assert(all.last() == rest.last());
        lemma_parse_cons(out, sym, rest.drop_last());
        assert(expand_from(out, all) == apply_symbol(
            expand_from(out, all.drop_last()),
            all.last(),
        ));
        assert(expand_from(apply_symbol(out, sym), rest) == apply_symbol(
            expand_from(apply_symbol(out, sym), rest.drop_last()),
            rest.last(),
        ));
    }
}

/// A copy appends `length` bytes.
pub proof fn lemma_copy_match_len(out: Seq<u8>, length: int, distance: int)
    requires
        0 <= length,
    ensures
        copy_match(out, length, distance).len() == out.len() + length,
    decreases length,
{
    if length > 0 {
        lemma_copy_match_len(out.push(out[out.len() - distance]), length - 1, distance);
    }
}

/// Copying bytes that repeat in `data` reproduces `data`.
pub proof fn lemma_copy_match_data(data: Seq<u8>, pos: int, length: int, distance: int)
    requires
        0 <= length,
        1 <= distance <= pos,
        pos + length <= data.len(),
        forall|i: int| 0 <= i < length ==> #[trigger] data[pos + i] == data[pos - distance + i],
    ensures
        copy_match(data.take(pos), length, distance) == data.take(pos + length),
    decreases length,
{
    if length > 0 {
        let out = data.take(pos);
        assert(out.push(out[out.len() - distance]) =~= data.take(pos + 1)) by {
            assert(data[pos + 0] == data[pos - distance + 0]);
        }
        assert forall|i: int| 0 <= i < length - 1 implies #[trigger] data[pos + 1 + i] == data[pos
            + 1 - distance + i] by {
            assert(data[pos + (i + 1)] == data[pos - distance + (i + 1)]);
        }
        lemma_copy_match_data(data, pos + 1, length - 1, distance);
    }
}

proof fn lemma_hash_index(t: u32)
    by (bit_vector)
    ensures
        ((t ^ (t >> 12)) & 0x7FFF) < 32768,
{
}

proof fn lemma_trigram(a: u32, b: u32, c: u32)
    by (bit_vector)
    requires
        a < 256,
        b < 256,
        c < 256,
    ensures
        (a | (b << 8) | (c << 16)) == a + b * 256 + c * 65536,
{
}

/// The three bytes at `pos` as one number, the first byte lowest; 0 when
/// fewer than three bytes are left.
pub open spec fn trigram(data: Seq<u8>, pos: int) -> int {
    if 0 <= pos && pos + 2 < data.len() {
        data[pos] + data[pos + 1] * 256 + data[pos + 2] * 65536
    } else {
        0
    }
}

/// The number of bytes, up to `limit`, in which `data` from `pos` on repeats
/// what stands from `cand` on.
pub open spec fn run(data: Seq<u8>, cand: int, pos: int, limit: int) -> int
    decreases limit,
{
    if limit <= 0 || data[cand] != data[pos] {
        0
    } else {
        1 + run(data, cand + 1, pos + 1, limit - 1)
    }
}

/// A run is the number of bytes that agree before the first that differs.
pub proof fn lemma_run_is(data: Seq<u8>, cand: int, pos: int, limit: int, len: int)
    requires
        0 <= len <= limit,
        forall|i: int| 0 <= i < len ==> #[trigger] data[pos + i] == data[cand + i],
        len < limit ==> data[pos + len] != data[cand + len],
    ensures
        run(data, cand, pos, limit) == len,
    decreases len,
{
    if len > 0 {
        assert(data[pos + 0] == data[cand + 0]);
        assert forall|i: int| 0 <= i < len - 1 implies #[trigger] data[pos + 1 + i] == data[cand
            + 1 + i] by {
            assert(data[pos + (i + 1)] == data[cand + (i + 1)]);
        }
        lemma_run_is(data, cand + 1, pos + 1, limit - 1, len - 1);
    }
}

/// A run has at most `limit` bytes, and they agree.
pub proof fn lemma_run_agrees(data: Seq<u8>, cand: int, pos: int, limit: int)
    requires
        0 <= limit,
    ensures
        0 <= run(data, cand, pos, limit) <= limit,
        forall|i: int|
            0 <= i < run(data, cand, pos, limit) ==> #[trigger] data[pos + i] == data[cand + i],
    decreases limit,
{
    if limit > 0 && data[cand] == data[pos] {
        lemma_run_agrees(data, cand + 1, pos + 1, limit - 1);
        assert forall|i: int| 0 <= i < run(data, cand, pos, limit) implies #[trigger] data[pos
            + i] == data[cand + i] by {
            if i > 0 {
                assert(data[pos + 1 + (i - 1)] == data[cand + 1 + (i - 1)]);
            }
        }
    }
}

fn compare(data: &[u8], cand: usize, pos: usize, limit: usize) -> (len: usize)
    requires
        cand < pos,
        pos + limit <= data@.len(),
    ensures
        len == run(data@, cand as int, pos as int, limit as int),
        len <= limit,
        forall|i: int| 0 <= i < len ==> #[trigger] data@[pos + i] == data@[cand + i],
{
    let mut len: usize = 0;
    let total: usize = data.len();
    while len < limit
        invariant
            len <= limit,
            cand < pos,
            pos + limit <= total,
            total == data@.len(),
            forall|i: int| 0 <= i < len ==> #[trigger] data@[pos + i] == data@[cand + i],
        decreases limit - len,
    {
        if data[cand + len] != data[pos + len] {
            proof {
                lemma_run_is(data@, cand as int, pos as int, limit as int, len as int);
            }
            return len;
        }
        len = len + 1;
    }
    proof {
        lemma_run_is(data@, cand as int, pos as int, limit as int, len as int);
    }
    len
}

/// The chain that a three-byte value belongs to.
pub open spec fn chain_index(t: u32) -> int {
    ((t ^ (t >> 12)) & 0x7FFF) as int
}

/// The chain of the three bytes at `q`.
pub open spec fn chain_of(data: Seq<u8>, q: int) -> int {
    chain_index(trigram(data, q) as u32)
}

/// The nearest position before `p` that has three bytes and belongs to the
/// chain `h`; -1 when there is none.
pub open spec fn nearest_before(data: Seq<u8>, h: int, p: int) -> int
    decreases p,
{
    if p <= 0 {
        -1
    } else if p + 1 < data.len() && chain_of(data, p - 1) == h {
        p - 1
    } else {
        nearest_before(data, h, p - 1)
    }
}

/// What `nearest_before` finds lies before `p` and belongs to the chain.
pub proof fn lemma_nearest_before(data: Seq<u8>, h: int, p: int)
    ensures
        -1 <= nearest_before(data, h, p),
        nearest_before(data, h, p) < p || nearest_before(data, h, p) == -1,
        nearest_before(data, h, p) >= 0 ==> chain_of(data, nearest_before(data, h, p)) == h
            && nearest_before(data, h, p) + 2 < data.len(),
    decreases p,
{
    if p > 0 && !(p + 1 < data.len() && chain_of(data, p - 1) == h) {
        lemma_nearest_before(data, h, p - 1);
    }
}

/// The candidates at `pos` in the order in which they are tried: the
/// positions before `pos` of the chain of `pos`, the nearest first; -1 when
/// the chain has come to its end.
pub open spec fn candidate(data: Seq<u8>, pos: int, k: int) -> int
    decreases k,
{
    if k <= 0 {
        nearest_before(data, chain_of(data, pos), pos)
    } else {
        nearest_before(data, chain_of(data, pos), candidate(data, pos, k - 1))
    }
}

/// Candidates stand before `pos`, and later ones further back.
pub proof fn lemma_candidates_descend(data: Seq<u8>, pos: int, k: int, n: int)
    requires
        0 <= k <= n,
        0 <= pos,
    ensures
        -1 <= candidate(data, pos, n) <= candidate(data, pos, k) < pos,
        k < n && candidate(data, pos, k) >= 0 ==> candidate(data, pos, n) < candidate(
            data,
            pos,
            k,
        ),
        candidate(data, pos, n) >= 0 ==> chain_of(data, candidate(data, pos, n)) == chain_of(
            data,
            pos,
        ) && candidate(data, pos, n) + 2 < data.len(),
    decreases n,
{
    let h = chain_of(data, pos);
    if n == 0 {
        lemma_nearest_before(data, h, pos);
    } else if k == n {
        lemma_candidates_descend(data, pos, k - 1, n - 1);
        lemma_nearest_before(data, h, candidate(data, pos, n - 1));
    } else {
        lemma_candidates_descend(data, pos, k, n - 1);
        lemma_nearest_before(data, h, candidate(data, pos, n - 1));
    }
}

/// The longest run among the first `k` candidates within the window, as
/// its length and distance; of runs of one length the nearest. `(0, 0)`
/// where no candidate repeats a byte.
pub open spec fn best_among(data: Seq<u8>, pos: int, limit: int, k: int) -> (int, int)
    decreases k,
{
    if k <= 0 {
        (0, 0)
    } else {
        let best = best_among(data, pos, limit, k - 1);
        let c = candidate(data, pos, k - 1);
        if c >= 0 && pos - c <= 32768 && run(data, c, pos, limit) > best.0 {
            (run(data, c, pos, limit), pos - c)
        } else {
            best
        }
    }
}

/// The best run is one of the runs tried; none of them is longer, and
/// none of the same length is nearer.
pub proof fn lemma_best_among(data: Seq<u8>, pos: int, limit: int, k: int)
    requires
        0 <= pos,
        0 <= limit,
    ensures
        forall|j: int|
            0 <= j < k && candidate(data, pos, j) >= 0 && pos - candidate(data, pos, j) <= 32768
                ==> {
                let r = #[trigger] run(data, candidate(data, pos, j), pos, limit);
                r <= best_among(data, pos, limit, k).0 && (r == best_among(
                    data,
                    pos,
                    limit,
                    k,
                ).0 && r > 0 ==> best_among(data, pos, limit, k).1 <= pos - candidate(
                    data,
                    pos,
                    j,
                ))
            },
        best_among(data, pos, limit, k).0 > 0 ==> exists|j: int|
            0 <= j < k && candidate(data, pos, j) >= 0 && pos - candidate(data, pos, j) <= 32768
                && #[trigger] run(data, candidate(data, pos, j), pos, limit) == best_among(
                data,
                pos,
                limit,
                k,
            ).0 && pos - candidate(data, pos, j) == best_among(data, pos, limit, k).1,
        best_among(data, pos, limit, k).0 == 0 ==> best_among(data, pos, limit, k).1 == 0,
        0 <= best_among(data, pos, limit, k).0 <= limit,
    decreases k,
{
    if k > 0 {
        lemma_best_among(data, pos, limit, k - 1);
        let before = best_among(data, pos, limit, k - 1);
        let best = best_among(data, pos, limit, k);
        let c = candidate(data, pos, k - 1);
        if c >= 0 {
            lemma_run_agrees(data, c, pos, limit);
        }
        if before.0 > 0 {
            let j = choose|j: int|
                0 <= j < k - 1 && candidate(data, pos, j) >= 0 && pos - candidate(data, pos, j)
                    <= 32768 && #[trigger] run(data, candidate(data, pos, j), pos, limit)
                    == before.0 && pos - candidate(data, pos, j) == before.1;
            lemma_candidates_descend(data, pos, j, k - 1);
            if best == before {
                assert(run(data, candidate(data, pos, j), pos, limit) == best.0);
            }
        }
        if best != before {
            assert(run(data, candidate(data, pos, k - 1), pos, limit) == best.0);
        }
        assert forall|j: int|
            0 <= j < k && candidate(data, pos, j) >= 0 && pos - candidate(data, pos, j)
                <= 32768 implies {
            let r = #[trigger] run(data, candidate(data, pos, j), pos, limit);
            r <= best.0 && (r == best.0 && r > 0 ==> best.1 <= pos - candidate(data, pos, j))
        } by {
            if j < k - 1 {
                lemma_candidates_descend(data, pos, j, k - 1);
            }
        }
    }
}

/// Once the chain has ended or left the window, or a run has reached the
/// limit, further candidates change nothing.
pub proof fn lemma_best_settled(data: Seq<u8>, pos: int, limit: int, k: int, n: int)
    requires
        0 <= k <= n,
        0 <= pos,
        0 <= limit,
        candidate(data, pos, k) < 0 || pos - candidate(data, pos, k) > 32768 || best_among(
            data,
            pos,
            limit,
            k,
        ).0 >= limit,
    ensures
        best_among(data, pos, limit, n) == best_among(data, pos, limit, k),
    decreases n,
{
    if k < n {
        lemma_best_settled(data, pos, limit, k, n - 1);
        lemma_candidates_descend(data, pos, k, n - 1);
        let c = candidate(data, pos, n - 1);
        if c >= 0 {
            lemma_run_agrees(data, c, pos, limit);
        }
    }
}

/// The match that the engine emits at `pos` when it tries `probes`
/// candidates: the longest run of at most 258 bytes among them, of runs of
/// one length the nearest, unless that run has fewer than three bytes, or
/// three bytes from 8192 bytes back or further.
pub open spec fn best_match(data: Seq<u8>, pos: int, probes: int) -> Option<Match> {
    if data.len() - pos < 3 {
        None
    } else {
        let limit = if data.len() - pos < 258 {
            data.len() - pos
        } else {
            258
        };
        let best = best_among(data, pos, limit, probes);
        if best.0 < 3 || (best.0 == 3 && best.1 >= 8192) {
            None
        } else {
            Some(Match { length: best.0 as u16, distance: best.1 as u16 })
        }
    }
}

/// The parse of what `data` holds from `pos` on: at each position the
/// match that the engine emits there, or else the byte as a literal. A
/// match that the engine emits lies within `data`; the test for it is
/// there for the recursion to end.
pub open spec fn greedy_parse(data: Seq<u8>, pos: int, probes: int) -> Seq<LZSymbol>
    decreases data.len() - pos,
{
    if pos < 0 || pos >= data.len() {
        Seq::empty()
    } else {
        match best_match(data, pos, probes) {
            Some(m) => if m.length >= 1 && pos + m.length <= data.len() {
                seq![LZSymbol::Match(m)] + greedy_parse(data, pos + m.length, probes)
            } else {
                Seq::empty()
            },
            None => seq![LZSymbol::Literal(data[pos])] + greedy_parse(data, pos + 1, probes),
        }
    }
}

/// Hash chains over the positions of a buffer: for each hash the most recent
/// position, and for each position the one before it with the same hash.
pub struct HashChains {
    head: Vec<usize>,
    prev: Vec<usize>,
}

impl HashChains {
    /// The chains hold the positions of `data` before `pos` that have three
    /// bytes: each chain starts at its nearest position, and each position
    /// leads to the nearest one before it in its chain. A link is a position
    /// plus one, and 0 where there is none.
    pub closed spec fn holds(&self, data: Seq<u8>, pos: int) -> bool {
        &&& self.head@.len() == 32768
        &&& self.prev@.len() == data.len()
        &&& forall|h: int|
            0 <= h < 32768 ==> #[trigger] self.head@[h] == nearest_before(data, h, pos) + 1
        &&& forall|q: int|
            0 <= q < pos && q + 2 < data.len() ==> #[trigger] self.prev@[q] == nearest_before(
                data,
                chain_of(data, q),
                q,
            ) + 1
    }

    /// Empty chains for the buffer `data`.
    pub fn new(data: &[u8]) -> (c: Self)
        ensures
            c.holds(data@, 0),
    {
        Self { head: vec![0usize; 32768], prev: vec![0usize; data.len()] }
    }

    /// Enters position `pos` at the front of its chain.
    pub fn insert(&mut self, data: &[u8], pos: usize)
        requires
            old(self).holds(data@, pos as int),
            pos + 2 < data@.len(),
        ensures
            final(self).holds(data@, pos + 1),
    {
        assert(pos + 2 < data.len());
        let h: usize = hash_index(LZ77Encoder::hash_trigram(data, pos));
        let before: usize = self.head[h];
        self.prev.set(pos, before);
        self.head.set(h, pos + 1);
    }

    /// A position without three bytes is not entered.
    pub proof fn lemma_passed(&self, data: Seq<u8>, pos: int)
        requires
            self.holds(data, pos),
            pos + 2 >= data.len(),
        ensures
            self.holds(data, pos + 1),
    {
    }
}

fn hash_index(t: u32) -> (h: usize)
    ensures
        h == chain_index(t),
        h < 32768,
{
    proof {
        lemma_hash_index(t);
    }
    ((t ^ (t >> 12)) & 0x7FFF) as usize
}

/// What the engine may emit at `pos`: a worthwhile match that lies within
/// `data` and repeats bytes that stand before `pos`.
pub open spec fn match_at(data: Seq<u8>, pos: int, m: Match) -> bool {
    &&& match_worthwhile(m.length as int, m.distance as int)
    &&& m.distance <= pos
    &&& pos + m.length <= data.len()
    &&& forall|i: int|
        0 <= i < m.length ==> #[trigger] data[pos + i] == data[pos - m.distance + i]
}

/// The match that the engine emits lies within `data` and repeats bytes
/// that stand before `pos`.
pub proof fn lemma_best_match_fits(data: Seq<u8>, pos: int, probes: int)
    requires
        0 <= pos < data.len(),
    ensures
        best_match(data, pos, probes).is_some() ==> match_at(
            data,
            pos,
            best_match(data, pos, probes).unwrap(),
        ),
{
    if data.len() - pos >= 3 {
        let limit = if data.len() - pos < 258 {
            data.len() - pos
        } else {
            258
        };
        lemma_best_among(data, pos, limit, probes);
        let best = best_among(data, pos, limit, probes);
        if best.0 > 0 {
            let j = choose|j: int|
                0 <= j < probes && candidate(data, pos, j) >= 0 && pos - candidate(data, pos, j)
                    <= 32768 && #[trigger] run(data, candidate(data, pos, j), pos, limit)
                    == best.0 && pos - candidate(data, pos, j) == best.1;
            let c = candidate(data, pos, j);
            lemma_run_agrees(data, c, pos, limit);
            lemma_candidates_descend(data, pos, j, j);
            if best_match(data, pos, probes).is_some() {
                let m = best_match(data, pos, probes).unwrap();
                assert forall|i: int| 0 <= i < m.length implies #[trigger] data[pos + i]
                    == data[pos - m.distance + i] by {
                    assert(data[pos + i] == data[c + i]);
                }
            }
        }
    }
}

fn find_match(data: &[u8], pos: usize, chains: &HashChains, max_probes: usize) -> (r: Option<
    Match,
>)
    requires
        chains.holds(data@, pos as int),
        pos < data@.len(),
    ensures
        r == best_match(data@, pos as int, max_probes as int),
{
    if data.len() - pos < MIN_MATCH {
        return None;
    }
    let left: usize = data.len() - pos;
    let limit: usize = if left < MAX_MATCH {
        left
    } else {
        MAX_MATCH
    };
    let h: usize = hash_index(LZ77Encoder::hash_trigram(data, pos));
    let mut next: usize = chains.head[h];
    let mut best_len: usize = 0;
    let mut best_dist: usize = 0;
    let mut probes: usize = 0;
    let ghost n = max_probes as int;
    let ghost p = pos as int;
    let ghost lim = limit as int;
    let ghost mut settled = false;
    while next > 0 && probes < max_probes
        invariant_except_break
            !settled,
            next == candidate(data@, p, probes as int) + 1,
            (best_len as int, best_dist as int) == best_among(data@, p, lim, probes as int),
        invariant
            chains.holds(data@, p),
            p == pos,
            lim == limit,
            n == max_probes,
            h == chain_of(data@, p),
            pos + 2 < data@.len(),
            pos + limit <= data@.len(),
            3 <= limit <= 258,
            probes <= max_probes,
            best_len <= limit,
            best_dist <= 32768,
        ensures
            settled ==> (best_len as int, best_dist as int) == best_among(data@, p, lim, n),
            !settled ==> (next == 0 || probes == max_probes) && next == candidate(
                data@,
                p,
                probes as int,
            ) + 1 && (best_len as int, best_dist as int) == best_among(
                data@,
                p,
                lim,
                probes as int,
            ),
        decreases max_probes - probes,
    {
        let cand: usize = next - 1;
        proof {
            lemma_candidates_descend(data@, p, 0, probes as int);
        }
        if cand >= pos || pos - cand > WINDOW_SIZE {
            proof {
                lemma_best_settled(data@, p, lim, probes as int, n);
                settled = true;
            }
            break ;
        }
        let len: usize = compare(data, cand, pos, limit);
        let ghost before = best_among(data@, p, lim, probes as int);
        if len > best_len {
            best_len = len;
            best_dist = pos - cand;
        }
        assert((best_len as int, best_dist as int) == best_among(data@, p, lim, probes + 1));
        if len >= limit {
            proof {
                lemma_best_settled(data@, p, lim, probes + 1, n);
                settled = true;
            }
            break ;
        }
        next = chains.prev[cand];
        probes = probes + 1;
    }
    proof {
        if !settled && next == 0 {
            lemma_best_settled(data@, p, lim, probes as int, n);
        }
    }
    if best_len < MIN_MATCH || (best_len == MIN_MATCH && best_dist >= FAR_DISTANCE) {
        return None;
    }
    Some(Match { length: best_len as u16, distance: best_dist as u16 })
}

/// The parse from `pos` on begins with the match that the engine emits at
/// `pos`, or else with the byte there, and goes on behind it.
pub proof fn lemma_greedy_step(data: Seq<u8>, pos: int, probes: int)
    requires
        0 <= pos < data.len(),
    ensures
        match best_match(data, pos, probes) {
            Some(m) => greedy_parse(data, pos, probes) == seq![LZSymbol::Match(m)] + greedy_parse(
                data,
                pos + m.length,
                probes,
            ),
            None => greedy_parse(data, pos, probes) == seq![LZSymbol::Literal(data[pos])]
                + greedy_parse(data, pos + 1, probes),
        },
{
    lemma_best_match_fits(data, pos, probes);
}

/// The greedy parse of `data` is valid and stands for `data`.
pub proof fn lemma_greedy_parse(data: Seq<u8>, pos: int, probes: int)
    requires
        0 <= pos <= data.len(),
    ensures
        expand_from(data.take(pos), greedy_parse(data, pos, probes)) == data,
        parse_valid_from(data.take(pos), greedy_parse(data, pos, probes)),
    decreases data.len() - pos,
{
    if pos >= data.len() {
        assert(data.take(pos) =~= data);
    } else {
        lemma_greedy_step(data, pos, probes);
        lemma_best_match_fits(data, pos, probes);
        match best_match(data, pos, probes) {
            Some(m) => {
                let rest = greedy_parse(data, pos + m.length, probes);
                lemma_copy_match_data(data, pos, m.length as int, m.distance as int);
                lemma_greedy_parse(data, pos + m.length, probes);
                lemma_parse_cons(data.take(pos), LZSymbol::Match(m), rest);
            },
            None => {
                let rest = greedy_parse(data, pos + 1, probes);
                assert(data.take(pos).push(data[pos]) =~= data.take(pos + 1));
                lemma_greedy_parse(data, pos + 1, probes);
                lemma_parse_cons(data.take(pos), LZSymbol::Literal(data[pos]), rest);
            },
        }
    }
}

/// Parses `data` greedily into literals and matches, trying up to
/// `max_probes` candidates at each position.
pub fn lz77_scan(data: &[u8], max_probes: usize) -> (symbols: Vec<LZSymbol>)
    ensures
        symbols@ == greedy_parse(data@, 0, max_probes as int),
        expand(symbols@) == data@,
        parse_valid(symbols@),
{
    let mut symbols: Vec<LZSymbol> = Vec::new();
    let mut chains = HashChains::new(data);
    let mut pos: usize = 0;
    let ghost n = max_probes as int;
    assert(symbols@ + greedy_parse(data@, 0, n) =~= greedy_parse(data@, 0, n));
    while pos < data.len()
        invariant
            pos <= data@.len(),
            n == max_probes,
            chains.holds(data@, pos as int),
            symbols@ + greedy_parse(data@, pos as int, n) == greedy_parse(data@, 0, n),
        decreases data@.len() - pos,
    {
        let ghost before = symbols@;
        proof {
            lemma_greedy_step(data@, pos as int, n);
            lemma_best_match_fits(data@, pos as int, n);
        }
        let advance: usize = match find_match(data, pos, &chains, max_probes) {
            Some(m) => {
                symbols.push(LZSymbol::Match(m));
                proof {
                    let rest = greedy_parse(data@, pos + m.length, n);
                    assert(symbols@ + rest =~= before + (seq![LZSymbol::Match(m)] + rest));
                }
                m.length as usize
            },
            None => {
                symbols.push(LZSymbol::Literal(data[pos]));
                proof {
                    let rest = greedy_parse(data@, pos + 1, n);
                    assert(symbols@ + rest =~= before + (seq![
                        LZSymbol::Literal(data@[pos as int]),
                    ] + rest));
                }
                1
            },
        };
        let end: usize = pos + advance;
        while pos < end
            invariant
                pos <= end <= data@.len(),
                chains.holds(data@, pos as int),
            decreases end - pos,
        {
            if data.len() - pos >= MIN_MATCH {
                chains.insert(data, pos);
            } else {
                proof {
                    chains.lemma_passed(data@, pos as int);
                }
            }
            pos = pos + 1;
        }
    }
    proof {
        assert(symbols@ =~= symbols@ + greedy_parse(data@, pos as int, n));
        lemma_greedy_parse(data@, 0, n);
        assert(data@.take(0) =~= Seq::<u8>::empty());
    }
    symbols
}

/// The LZ77 engine with a number of candidates to try at each position.
pub struct LZ77Encoder {
    max_probes: usize,
}

impl LZ77Encoder {
    /// The number of candidates tried at each position.
    pub closed spec fn probes(&self) -> int {
        self.max_probes as int
    }

    /// An engine that tries up to 128 candidates at each position.
    pub fn new() -> (e: Self)
        ensures
            e.probes() == 128,
    {
        Self { max_probes: 128 }
    }

    /// An engine that tries up to `max_probes` candidates at each position.
    pub fn with_probes(max_probes: usize) -> (e: Self)
        ensures
            e.probes() == max_probes,
    {
        Self { max_probes }
    }

    /// The three bytes at `pos` as one number, the first byte lowest; 0 when
    /// fewer than three bytes are left.
    pub fn hash_trigram(data: &[u8], pos: usize) -> (t: u32)
        ensures
            t == trigram(data@, pos as int),
    {
        if data.len() < 3 || pos >= data.len() - 2 {
            return 0;
        }
        let a: u32 = data[pos] as u32;
        let b: u32 = data[pos + 1] as u32;
        let c: u32 = data[pos + 2] as u32;
        proof {
            lemma_trigram(a, b, c);
        }
        a | (b << 8) | (c << 16)
    }

    /// Parses `data` greedily into literals and matches.
    pub fn compress(&mut self, data: &[u8]) -> (symbols: Vec<LZSymbol>)
        ensures
            symbols@ == greedy_parse(data@, 0, old(self).probes()),
            expand(symbols@) == data@,
            parse_valid(symbols@),
            final(self).probes() == old(self).probes(),
    {
        lz77_scan(data, self.max_probes)
    }
}

impl Default for LZ77Encoder {
    fn default() -> (e: Self)
        ensures
            e.probes() == 128,
    {
        Self::new()
    }
}

} // verus!
