use facewave::stages::arithmetic::{
    decode_adaptive, decode_symbols, encode_adaptive, encode_symbols, symbol_container_ok,
    AdaptiveDist, Context,
};
use facewave::Symbol;

fn roundtrip(symbols: &[usize], n: usize, cap: u32) -> Vec<u8> {
    let mut enc_model = AdaptiveDist::new(n, cap);
    let bytes = encode_adaptive(symbols, &mut enc_model, None);
    let mut dec_model = AdaptiveDist::new(n, cap);
    let back = decode_adaptive(&bytes, symbols.len(), &mut dec_model, None);
    assert_eq!(back, symbols);
    bytes
}

#[test]
fn adaptive_coder_exact_output() {
    assert_eq!(roundtrip(&[0], 2, 16384), vec![0x20]);
    assert_eq!(roundtrip(&[1, 0, 1, 1], 2, 16384), vec![0xa0]);
    assert_eq!(roundtrip(&[0, 1, 2, 3, 3, 3, 0], 4, 16384), vec![0x24, 0x3e]);
    assert_eq!(roundtrip(&[], 3, 100), vec![0x40]);
    assert_eq!(roundtrip(&[2; 10], 3, 8), vec![0xfe]);
}

#[test]
fn adaptive_coder_trace_records_fingerprints() {
    let mut model = AdaptiveDist::new(2, 16384);
    let mut trace: Vec<u64> = vec![7];
    encode_adaptive(&[1, 0, 1, 1], &mut model, Some(&mut trace));
    assert_eq!(
        trace,
        vec![7, 0xd949ab186c0c4adb, 0xd94642186c096299, 0xd94641186c0960e6, 0xd94640186c095f33]
    );
}

#[test]
fn adaptive_coder_roundtrips_long_and_skewed_streams() {
    // a skewed stream that forces many rescalings and halvings of the model
    let mut symbols = Vec::new();
    for i in 0..20_000usize {
        symbols.push(if i % 17 == 0 { 3 } else if i % 5 == 0 { 1 } else { 0 });
    }
    let bytes = roundtrip(&symbols, 4, 16384);
    assert!(bytes.len() < symbols.len() / 4);

    // a pseudo-random stream with a tiny cap, so the model halves constantly
    let mut x: u64 = 12345;
    let mut noisy = Vec::new();
    for _ in 0..5000 {
        x = x.wrapping_mul(6364136223846793005).wrapping_add(1442695040888963407);
        noisy.push(((x >> 33) % 6) as usize);
    }
    roundtrip(&noisy, 6, 10);
    roundtrip(&noisy, 6, 1 << 20);
}

#[test]
fn adaptive_decoder_reads_any_bytes() {
    let mut model = AdaptiveDist::new(4, 16384);
    let out = decode_adaptive(&[0xff, 0x00, 0x13], 50, &mut model, None);
    assert_eq!(out.len(), 50);
    assert!(out.iter().all(|&s| s < 4));
    let mut model = AdaptiveDist::new(2, 16384);
    assert_eq!(decode_adaptive(&[], 3, &mut model, None).len(), 3);
}

#[test]
fn context_of_symbols() {
    assert_eq!(Context::of(Symbol::ZeroTree), Context::Dominant);
    assert_eq!(Context::of(Symbol::IsolatedZero), Context::Dominant);
    assert_eq!(Context::of(Symbol::Positive), Context::Dominant);
    assert_eq!(Context::of(Symbol::Negative), Context::Dominant);
    assert_eq!(Context::of(Symbol::RefineOne), Context::Refinement);
    assert_eq!(Context::of(Symbol::RefineZero), Context::Refinement);
}

#[test]
fn symbol_container_exact_bytes() {
    let symbols = [Symbol::ZeroTree, Symbol::RefineOne, Symbol::Positive];
    assert_eq!(encode_symbols(&symbols), vec![0x02, 0x01, 0x01, 0x28, 0xa0]);
}

#[test]
fn symbol_streams_split_and_roundtrip() {
    let alphabet = [
        Symbol::ZeroTree,
        Symbol::IsolatedZero,
        Symbol::Positive,
        Symbol::Negative,
        Symbol::RefineOne,
        Symbol::RefineZero,
    ];
    let mut x: u64 = 99;
    let mut symbols = Vec::new();
    for i in 0..30_000usize {
        x = x.wrapping_mul(6364136223846793005).wrapping_add(1442695040888963407);
        // mostly zerotree roots, as real streams are
        let k = if i % 3 == 0 { ((x >> 33) % 6) as usize } else { 0 };
        symbols.push(alphabet[k]);
    }
    let bytes = encode_symbols(&symbols);
    assert!(symbol_container_ok(&bytes));
    let streams = decode_symbols(&bytes);
    let (dominant, refinement): (Vec<Symbol>, Vec<Symbol>) = symbols
        .iter()
        .partition(|&&s| !matches!(s, Symbol::RefineOne | Symbol::RefineZero));
    assert_eq!(streams.dominant, dominant);
    assert_eq!(streams.refinement, refinement);

    let empty = encode_symbols(&[]);
    let streams = decode_symbols(&empty);
    assert!(streams.dominant.is_empty() && streams.refinement.is_empty());
}

#[test]
fn symbol_container_check_rejects_bad_headers() {
    assert!(!symbol_container_ok(&[]));
    assert!(!symbol_container_ok(&[0x80]));
    assert!(!symbol_container_ok(&[0x01, 0x01]));
    // the dominant payload is announced longer than the bytes
    assert!(!symbol_container_ok(&[0x01, 0x01, 0x05, 0x00]));
    assert!(symbol_container_ok(&[0x00, 0x00, 0x00]));
}

#[test]
fn adaptive_coder_takes_a_large_cap_and_an_empty_alphabet() {
    // a cap far above the coder's limit, with a total that stays small
    let symbols = [3usize, 0, 2, 2, 1, 3, 3];
    let bytes = roundtrip(&symbols, 4, u32::MAX);
    let mut model = AdaptiveDist::new(4, 16384);
    let same = encode_adaptive(&symbols, &mut model, None);
    assert_eq!(bytes, same);
    // a model over no symbols codes the empty stream
    let bytes = roundtrip(&[], 0, 16384);
    assert_eq!(bytes, vec![0x40]);
}
