use zip_rs::miniz::deflate_fast;
use zip_rs::miniz::deflate_fast::DeflateFast;
use zip_rs::miniz::lz77::{lz77_scan, LZ77Encoder, LZSymbol, Match};

fn expand(symbols: &[LZSymbol]) -> Vec<u8> {
    let mut out: Vec<u8> = Vec::new();
    for symbol in symbols {
        match symbol {
            LZSymbol::Literal(b) => out.push(*b),
            LZSymbol::Match(m) => {
                assert!(m.length >= 3 && m.length <= 258);
                assert!(m.distance >= 1 && (m.distance as usize) <= out.len());
                assert!(!(m.length == 3 && m.distance >= 8192));
                for _ in 0..m.length {
                    out.push(out[out.len() - m.distance as usize]);
                }
            }
        }
    }
    out
}

#[test]
fn test_hash_trigram() {
    let data = b"ABCDEFGH";
    assert_eq!(LZ77Encoder::hash_trigram(data, 0), 0x00434241);
    assert_eq!(LZ77Encoder::hash_trigram(data, 1), 0x00444342);
}

#[test]
fn hash_trigram_near_the_end() {
    let data = b"ABCD";
    assert_eq!(LZ77Encoder::hash_trigram(data, 1), 0x00444342);
    assert_eq!(LZ77Encoder::hash_trigram(data, 2), 0);
    assert_eq!(LZ77Encoder::hash_trigram(data, 100), 0);
    assert_eq!(LZ77Encoder::hash_trigram(b"", 0), 0);
}

#[test]
fn lz77_test_repeat_pattern() {
    let data: Vec<u8> = (0..=255).cycle().take(1024).collect();
    let mut encoder = LZ77Encoder::new();
    let symbols = encoder.compress(&data);

    let match_count = symbols.iter().filter(|s| matches!(s, LZSymbol::Match(_))).count();
    println!("Match count: {}, total symbols: {}", match_count, symbols.len());

    assert!(match_count > 0, "Should find matches in repeated pattern");
    assert_eq!(expand(&symbols), data);
}

#[test]
fn run_of_one_byte_is_one_literal_and_overlapping_matches() {
    let data = vec![7u8; 600];
    let symbols = lz77_scan(&data, 4);
    assert_eq!(symbols[0], LZSymbol::Literal(7));
    assert_eq!(symbols[1], LZSymbol::Match(Match { length: 258, distance: 1 }));
    assert_eq!(symbols[2], LZSymbol::Match(Match { length: 258, distance: 1 }));
    assert_eq!(symbols[3], LZSymbol::Match(Match { length: 83, distance: 1 }));
    assert_eq!(symbols.len(), 4);
    assert_eq!(expand(&symbols), data);
}

#[test]
fn equal_lengths_prefer_the_nearer_candidate() {
    // "abcX abcY abcZ abc": at the last "abc" both earlier ones match 3 bytes.
    let data = b"abcXabcYabcZabc";
    let symbols = lz77_scan(data, 16);
    assert_eq!(*symbols.last().unwrap(), LZSymbol::Match(Match { length: 3, distance: 4 }));
    assert_eq!(expand(&symbols), data);
}

#[test]
fn longer_match_wins_over_nearer() {
    let data = b"abcdeXabcYabcde";
    let symbols = lz77_scan(data, 16);
    assert_eq!(*symbols.last().unwrap(), LZSymbol::Match(Match { length: 5, distance: 10 }));
    let lit = |b: u8| LZSymbol::Literal(b);
    let m = |length: u16, distance: u16| LZSymbol::Match(Match { length, distance });
    assert_eq!(
        symbols,
        vec![lit(b'a'), lit(b'b'), lit(b'c'), lit(b'd'), lit(b'e'), lit(b'X'), m(3, 6), lit(b'Y'), m(5, 10)]
    );
    // With one candidate only the nearest is tried.
    let symbols = lz77_scan(data, 1);
    assert_eq!(
        symbols,
        vec![
            lit(b'a'), lit(b'b'), lit(b'c'), lit(b'd'), lit(b'e'), lit(b'X'), m(3, 6), lit(b'Y'), m(3, 4),
            lit(b'd'), lit(b'e'),
        ]
    );
    assert_eq!(expand(&symbols), data);
}

#[test]
fn three_bytes_from_just_within_reach_are_a_match() {
    let mut data: Vec<u8> = Vec::new();
    data.extend_from_slice(b"xyz");
    let mut state: u32 = 12345;
    while data.len() < 8191 {
        state = state.wrapping_mul(1103515245).wrapping_add(12345);
        data.push(b'a' + ((state >> 16) % 20) as u8);
    }
    data.extend_from_slice(b"xyz");
    let symbols = lz77_scan(&data, 4096);
    assert_eq!(expand(&symbols), data);
    assert_eq!(*symbols.last().unwrap(), LZSymbol::Match(Match { length: 3, distance: 8191 }));
}

#[test]
fn three_bytes_from_far_back_stay_literals() {
    let mut data: Vec<u8> = Vec::new();
    data.extend_from_slice(b"xyz");
    // 8192 bytes without "xyz" and without repeated trigrams close by.
    let mut state: u32 = 12345;
    while data.len() < 3 + 8192 {
        state = state.wrapping_mul(1103515245).wrapping_add(12345);
        data.push(b'a' + ((state >> 16) % 20) as u8);
    }
    data.extend_from_slice(b"xyz");
    let symbols = lz77_scan(&data, 4096);
    assert_eq!(expand(&symbols), data);
    let n = symbols.len();
    assert_eq!(symbols[n - 3..], [LZSymbol::Literal(b'x'), LZSymbol::Literal(b'y'), LZSymbol::Literal(b'z')]);
}

#[test]
fn scan_of_short_inputs() {
    assert!(lz77_scan(b"", 8).is_empty());
    assert_eq!(lz77_scan(b"ab", 8), vec![LZSymbol::Literal(b'a'), LZSymbol::Literal(b'b')]);
    let mut encoder = LZ77Encoder::with_probes(0);
    let symbols = encoder.compress(b"aaaaaaaa");
    assert_eq!(symbols.len(), 8);
    let mut encoder = LZ77Encoder::default();
    assert_eq!(expand(&encoder.compress(b"aaaaaaaa")), b"aaaaaaaa");
}

#[test]
fn fast_engine_reports_the_same_parse() {
    let data: Vec<u8> = (0..=255).cycle().take(2000).collect();
    let mut fast = DeflateFast::new();
    let symbols = fast.compress(&data);
    let same: Vec<LZSymbol> = symbols
        .iter()
        .map(|s| match s {
            deflate_fast::LZSymbol::Literal(b) => LZSymbol::Literal(*b),
            deflate_fast::LZSymbol::Match { length, distance } => {
                LZSymbol::Match(Match { length: *length, distance: *distance })
            }
        })
        .collect();
    assert_eq!(same, lz77_scan(&data, 1));
    assert_eq!(expand(&same), data);
    let mut fast = DeflateFast::default();
    assert!(fast.compress(b"").is_empty());
}
