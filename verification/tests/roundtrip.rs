//! Entropy coder tests.

use cpgc::ans::decode::AnsDecoder;
use cpgc::ans::encode::AnsEncoder;
use cpgc::ans::table::{build_table, normalize_freqs, table_from, ONE, TABLE_SIZE};

/// Probabilities in the coder's fixed point.
fn fixed(prob: &[f32; 256]) -> [u64; 256] {
    let mut out = [0u64; 256];
    for (o, p) in out.iter_mut().zip(prob.iter()) {
        *o = (*p as f64 * ONE as f64) as u64;
    }
    out
}

/// Uniform distribution over all 256 symbols.
fn uniform_prob() -> [f32; 256] {
    [1.0f32 / 256.0; 256]
}

/// Skewed distribution: symbol 0 has prob 0.5, rest share 0.5.
fn skewed_prob() -> [f32; 256] {
    let mut p = [0.5f32 / 255.0; 256];
    p[0] = 0.5;
    p
}

fn ans_roundtrip(symbols: &[u8], prob: &[f32; 256]) {
    let prob = fixed(prob);
    let mut enc = AnsEncoder::new(&prob);
    for &s in symbols {
        enc.encode(s);
    }
    let compressed = enc.finish();

    let mut dec = AnsDecoder::new(&compressed, &prob).expect("decoder init failed");
    let mut decoded = Vec::with_capacity(symbols.len());
    for _ in 0..symbols.len() {
        decoded.push(dec.decode().expect("decode returned None"));
    }

    assert_eq!(
        decoded,
        symbols,
        "roundtrip mismatch (compressed {} bytes for {} symbols)",
        compressed.len(),
        symbols.len()
    );
}

#[test]
fn ans_roundtrip_uniform_single() {
    ans_roundtrip(&[42u8], &uniform_prob());
}

#[test]
fn ans_roundtrip_uniform_short() {
    let syms: Vec<u8> = (0u8..=15).collect();
    ans_roundtrip(&syms, &uniform_prob());
}

#[test]
fn ans_roundtrip_uniform_long() {
    let syms: Vec<u8> = (0u16..1000).map(|i| (i % 256) as u8).collect();
    ans_roundtrip(&syms, &uniform_prob());
}

#[test]
fn ans_roundtrip_skewed() {
    let mut syms = vec![0u8; 180];
    syms.extend(1u8..=20);
    ans_roundtrip(&syms, &skewed_prob());
}

#[test]
fn ans_roundtrip_all_same() {
    let syms = vec![b'A'; 100];
    let p_smoothed: [f32; 256] = {
        let mut pp = [0.001f32; 256];
        pp[b'A' as usize] = 1.0 - 0.001 * 255.0;
        let s: f32 = pp.iter().sum();
        pp.iter().map(|v| v / s).collect::<Vec<_>>().try_into().unwrap()
    };
    ans_roundtrip(&syms, &p_smoothed);
}

#[test]
fn ans_compression_ratio_skewed() {
    let syms = vec![0u8; 500];
    let mut enc = AnsEncoder::new(&fixed(&skewed_prob()));
    for &s in &syms {
        enc.encode(s);
    }
    let compressed = enc.finish();
    assert!(
        compressed.len() < 150,
        "expected < 150 bytes for 500 dominant symbols, got {}",
        compressed.len()
    );
}

#[test]
fn uniform_freqs_sum_to_table_size() {
    let prob = [1.0f32 / 256.0; 256];
    let freq = normalize_freqs(&fixed(&prob), TABLE_SIZE);
    let sum: u32 = freq.iter().sum();
    assert_eq!(sum, TABLE_SIZE);
}

#[test]
fn skewed_freqs_sum_to_table_size() {
    let mut prob = [0.001f32; 256];
    prob[0] = 0.744; // dominant symbol
    let total: f32 = prob.iter().sum();
    for p in prob.iter_mut() {
        *p /= total;
    }
    let freq = normalize_freqs(&fixed(&prob), TABLE_SIZE);
    let sum: u32 = freq.iter().sum();
    assert_eq!(sum, TABLE_SIZE);
}

#[test]
fn slot_sym_covers_all_slots() {
    let prob = [1.0f32 / 256.0; 256];
    let table = build_table(&fixed(&prob));
    let sum: u32 = table.freq.iter().sum();
    assert_eq!(sum, TABLE_SIZE);
    for slot in 0..4096usize {
        assert_eq!(table.slot_sym[slot] as usize, slot / 16);
    }
}

#[test]
fn too_many_slots_are_taken_back_from_small_shares() {
    // 250 symbols that round up to one slot each, and two that fill the table.
    let mut prob = [0u64; 256];
    for p in prob.iter_mut().take(250) {
        *p = 1;
    }
    prob[254] = ONE / 2;
    prob[255] = ONE / 2;
    let f = normalize_freqs(&prob, TABLE_SIZE);
    assert_eq!(&f[..250], &[1u32; 250]);
    assert_eq!(f[254], 1923);
    assert_eq!(f[255], 1923);
    assert_eq!(&f[250..254], &[0, 0, 0, 0]);
    assert_eq!(f.iter().sum::<u32>(), TABLE_SIZE);
}

#[test]
fn a_dominant_symbol_pays_for_all_others() {
    let mut prob = [1u64; 256];
    prob[0] = ONE - 255;
    let f = normalize_freqs(&prob, TABLE_SIZE);
    assert_eq!(f[0], 4096 - 255);
    assert_eq!(&f[1..], &[1u32; 255]);
    let t = build_table(&prob);
    assert_eq!(t.cumul[255], 4095);
}

#[test]
fn improbable_distributions_still_fill_the_table() {
    // Nothing can occur: the slots are handed out round after round.
    let f = normalize_freqs(&[0u64; 256], TABLE_SIZE);
    assert_eq!(f, [16u32; 256]);
    // More symbols than slots: every symbol keeps its one slot.
    let f = normalize_freqs(&[ONE / 256; 256], 100);
    assert_eq!(f, [1u32; 256]);
}

#[test]
fn any_number_of_slots_can_be_shared() {
    let mut prob = [0u64; 256];
    prob[3] = ONE / 4;
    prob[9] = ONE - ONE / 4 - 1;
    prob[200] = 1;
    let f = normalize_freqs(&prob, u32::MAX);
    assert_eq!(f.iter().map(|&x| u64::from(x)).sum::<u64>(), u64::from(u32::MAX));
    assert!(f[3] >= 1 && f[9] >= 1 && f[200] >= 1);
    assert_eq!(f[3], u32::MAX / 4);
    let f = normalize_freqs(&prob, 1);
    assert_eq!((f[3], f[9], f[200]), (1, 1, 1));
}

#[test]
fn left_over_slots_go_to_the_greatest_remainders() {
    let mut prob = [0u64; 256];
    prob[3] = ONE / 3;
    prob[7] = ONE - ONE / 3;
    let f = normalize_freqs(&prob, TABLE_SIZE);
    // 1365.33 and 2730.67
    assert_eq!((f[3], f[7]), (1365, 2731));
    assert_eq!(f.iter().sum::<u32>(), 4096);
}

#[test]
fn tables_may_change_between_symbols() {
    let a = fixed(&uniform_prob());
    let b = fixed(&skewed_prob());
    let mut enc = AnsEncoder::new(&a);
    for i in 0..200u32 {
        enc.update_table(if i % 3 == 0 { &a } else { &b });
        enc.encode((i * 7) as u8);
    }
    let bytes = enc.finish();
    let mut dec = AnsDecoder::new(&bytes, &a).unwrap();
    for i in 0..200u32 {
        dec.update_table(if i % 3 == 0 { &a } else { &b });
        assert_eq!(dec.decode(), Some((i * 7) as u8));
    }
}

#[test]
fn ans_stream_of_nothing_is_the_initial_state() {
    let p = fixed(&uniform_prob());
    assert_eq!(AnsEncoder::new(&p).finish(), vec![0, 0x10, 0, 0]);
    assert!(AnsDecoder::new(&[1, 2, 3], &p).is_none());
}

#[test]
fn a_used_up_stream_ends() {
    let p = fixed(&uniform_prob());
    let mut dec = AnsDecoder::new(&[0, 0, 0, 0, 0], &p).unwrap();
    assert_eq!(dec.decode(), None);
}

#[test]
fn single_symbol_tables_cost_nothing() {
    let mut f = [0u32; 256];
    f[9] = 4096;
    let t = table_from(&f);
    assert!(t.slot_sym.iter().all(|s| *s == 9));
    let mut p = [0u64; 256];
    p[9] = ONE;
    let mut enc = AnsEncoder::new(&p);
    for _ in 0..1000 {
        enc.encode(9);
    }
    assert_eq!(enc.finish().len(), 4);
}
