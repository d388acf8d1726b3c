//! Context-mixing engine tests.

use cpgc::cm::coder::{Decoder, Encoder};
use cpgc::cm::framing::frame_ok;
use cpgc::cm::logistic::Logistic;
use cpgc::cm::markup::Markup;
use cpgc::cm::mixer::{dot, train, W_CLAMP};
use cpgc::cm::{decode, decode_framed, encode, encode_framed, Predictor};
use cpgc::cm::segment::{decode_segment, encode_segment};
use cpgc::cm::sizing::{model_bytes, raw_bits, MEM_BIG, MEM_HUGE, MEM_PLUS, MEM_STD};
use cpgc::cm::states::state_next;
use wide::i32x8;

fn roundtrip(data: &[u8]) {
    let payload = encode(data);
    let decoded = decode(&payload, data.len());
    assert_eq!(decoded, data, "roundtrip mismatch ({} bytes)", data.len());
}

fn roundtrip_segmented(data: &[u8], seg: usize) {
    let payload = encode_framed(data, seg);
    let decoded = decode_framed(&payload, data.len(), seg);
    assert_eq!(
        decoded,
        data,
        "segmented roundtrip mismatch (seg={seg}, {} bytes)",
        data.len()
    );
}

#[test]
fn rt_multi_segment() {
    let s = "the quick brown fox jumps over the lazy dog. ".repeat(500);
    // Many segment sizes, including ones that don't divide the length.
    for seg in [1usize, 7, 64, 257, 1000, 4096] {
        roundtrip_segmented(s.as_bytes(), seg);
    }
}

#[test]
fn rt_multi_segment_random() {
    let mut x: u64 = 0xabcd_1234_5678_9f0f;
    let d: Vec<u8> = (0..10_000)
        .map(|_| {
            x = x.wrapping_mul(6364136223846793005).wrapping_add(1442695040888963407);
            (x >> 56) as u8
        })
        .collect();
    for seg in [13usize, 128, 999, 3001] {
        roundtrip_segmented(&d, seg);
    }
}

#[test]
fn segmentation_is_transparent_to_ratio() {
    let s = "compression test data ".repeat(2000);
    let one = encode_framed(s.as_bytes(), s.len() + 1);
    let many = encode_framed(s.as_bytes(), 4096);
    assert_eq!(decode_framed(&one, s.len(), s.len() + 1), s.as_bytes());
    assert_eq!(decode_framed(&many, s.len(), 4096), s.as_bytes());
}

#[test]
fn rt_empty() {
    roundtrip(&[]);
}

#[test]
fn rt_single() {
    roundtrip(&[0x42]);
}

#[test]
fn rt_all_bytes() {
    let d: Vec<u8> = (0u8..=255).collect();
    roundtrip(&d);
}

#[test]
fn rt_all_zeros() {
    roundtrip(&vec![0u8; 5000]);
}

#[test]
fn rt_text() {
    let s = "the quick brown fox jumps over the lazy dog. ".repeat(300);
    roundtrip(s.as_bytes());
}

#[test]
fn rt_random() {
    let mut x: u64 = 0x1234_5678_9abc_def0;
    let d: Vec<u8> = (0..20_000)
        .map(|_| {
            x = x.wrapping_mul(6364136223846793005).wrapping_add(1442695040888963407);
            (x >> 56) as u8
        })
        .collect();
    roundtrip(&d);
}

#[test]
fn rt_lengths() {
    // Exercise many lengths to catch off-by-one / flush edge cases.
    for len in 0..300 {
        let d: Vec<u8> = (0..len).map(|i| (i * 31 + 7) as u8).collect();
        roundtrip(&d);
    }
}

#[test]
fn compresses_repetitive() {
    let d = vec![b'a'; 10_000];
    let payload = encode(&d);
    assert!(
        payload.len() < 200,
        "highly repetitive data should compress hard, got {} bytes",
        payload.len()
    );
}

#[test]
fn compresses_text_well() {
    let s = "the quick brown fox jumps over the lazy dog. ".repeat(1000);
    let payload = encode(s.as_bytes());
    let bpb = payload.len() as f64 * 8.0 / s.len() as f64;
    assert!(bpb < 1.0, "structured text should be < 1 bpb, got {bpb:.3}");
}

// ---------------------------------------------------------------------------
// Parts
// ---------------------------------------------------------------------------

#[test]
fn coder_reads_back_its_bits() {
    let mut x: u32 = 12345;
    let mut items = Vec::new();
    for _ in 0..5000 {
        x = x.wrapping_mul(1664525).wrapping_add(1013904223);
        let p = 1 + (x >> 8) as i32 % 4095;
        let bit = ((x >> 24) as i32 * 16 < p) as i32;
        items.push((bit, p));
    }
    let mut enc = Encoder::new();
    for (bit, p) in &items {
        enc.encode(*bit, *p);
    }
    let bytes = enc.finish();
    assert!(8 * (bytes.len() - 4) <= 13 * items.len());
    let mut dec = Decoder::new(&bytes);
    for (bit, p) in &items {
        assert_eq!(dec.decode(*p), *bit);
    }
}

#[test]
fn coder_of_nothing_is_four_zeros() {
    assert_eq!(Encoder::new().finish(), vec![0, 0, 0, 0]);
}

#[test]
fn segments_stand_alone() {
    let data = b"segment segment segment";
    let code = encode_segment(data);
    assert_eq!(decode_segment(&code, data.len()), data);
    // What follows the code does not matter.
    let mut longer = code.clone();
    longer.extend_from_slice(b"anything");
    assert_eq!(decode_segment(&longer, data.len()), data);
    // Any bytes decode to something of the length asked for.
    assert_eq!(decode_segment(&[], 10).len(), 10);
}

#[test]
fn frame_counts_segments_and_lengths() {
    let data = b"0123456789";
    let f = encode_framed(data, 4);
    assert_eq!(&f[0..4], &[3, 0, 0, 0]);
    let a = encode_segment(b"0123");
    let b = encode_segment(b"4567");
    let c = encode_segment(b"89");
    assert_eq!(f[4] as usize, a.len());
    assert_eq!(f[8] as usize, b.len());
    assert_eq!(f[12] as usize, c.len());
    assert_eq!(&f[16..], [a, b, c].concat().as_slice());
}

#[test]
fn broken_frames_are_recognised() {
    let f = encode_framed(b"0123456789", 4);
    assert!(frame_ok(&f, 10, 4));
    assert!(!frame_ok(&f[..15], 10, 4));
    // The third segment would start at 8.
    assert!(frame_ok(&f, 8, 4));
    assert!(!frame_ok(&f, 7, 4));
    assert!(frame_ok(&f, 0, 4));
    assert!(frame_ok(&[1], 7, 4));
    assert_eq!(decode_framed(&[1], 7, 4), b"");
}

/// The transfer functions against the formulas they stand for.
#[test]
fn transfer_functions_follow_the_logistic_curve() {
    let lg = Logistic::new();
    for d in -2300..2300i32 {
        let x = d.clamp(-2047, 2047) as f64;
        let p = (4096.0 / (1.0 + (-x / 256.0).exp())).round().clamp(1.0, 4095.0);
        assert_eq!(lg.squash(d), p as i32, "squash({d})");
    }
    for p in -5..4100i32 {
        let q = (p as f64).clamp(1.0, 4095.0);
        let d = (256.0 * (q / (4096.0 - q)).ln()).round().clamp(-2047.0, 2047.0);
        assert_eq!(lg.stretch(p), d as i32, "stretch({p})");
    }
}

#[test]
fn simd_kernels_match_scalar() {
    // The mixer's kernels, held against eight lanes at a time.
    let mut x: u64 = 0x1234_5678_9abc_def0;
    let mut rnd = move |m: i32| {
        x = x.wrapping_mul(6364136223846793005).wrapping_add(1442695040888963407);
        ((x >> 33) as i32 % (2 * m + 1)) - m
    };
    for _ in 0..200 {
        let mut tx = [0i32; 72];
        let mut row_a = [0i32; 72];
        for i in 0..72 {
            tx[i] = rnd(2047);
            row_a[i] = rnd(W_CLAMP);
        }
        let mut row_b = row_a;
        let err = rnd(4095 * 5);

        let mut sum = 0i64;
        for i in (0..72).step_by(8) {
            let w = i32x8::from(&row_b[i..i + 8]);
            let v = i32x8::from(&tx[i..i + 8]);
            sum += (w * v).to_array().iter().map(|&p| i64::from(p)).sum::<i64>();
            let step: i32x8 = (v * i32x8::splat(err) + i32x8::splat(0x8000)) >> 16;
            let new = (w + step).min(i32x8::splat(W_CLAMP)).max(i32x8::splat(-W_CLAMP));
            row_b[i..i + 8].copy_from_slice(&new.to_array());
        }
        assert_eq!(i64::from(dot(&row_a, &tx)), sum >> 16, "dot kernels diverged");
        train(&mut row_a, &tx, err);
        assert_eq!(row_a, row_b, "train kernels diverged");
    }
}

#[test]
fn states_count_and_forget() {
    assert_eq!(state_next(0x00, true), 0x01);
    assert_eq!(state_next(0x00, false), 0x10);
    assert_eq!(state_next(0x0F, true), 0x0F);
    assert_eq!(state_next(0x0F, false), 0x18);
    assert_eq!(state_next(0xF3, true), 0x84);
    assert_eq!(state_next(0x33, true), 0x34);
}

#[test]
fn a_fresh_predictor_knows_nothing() {
    let mut p = Predictor::new(100, false, MEM_STD);
    assert_eq!(p.predict(), 2048);
    p.update(1);
    let mut t = Predictor::new(100, true, MEM_STD);
    assert_eq!(t.predict(), 2048);
}

#[test]
fn a_predictor_learns_a_constant() {
    for turbo in [false, true] {
        let mut p = Predictor::new(1000, turbo, MEM_STD);
        for _ in 0..300 {
            for i in 0..8 {
                p.predict();
                p.update((0x41 >> (7 - i)) & 1);
            }
            p.next_byte(0x41);
        }
        assert!(p.predict() < 100);
    }
}

#[test]
fn table_sizes_follow_the_segment() {
    assert_eq!(raw_bits(0), 3);
    assert_eq!(raw_bits(1), 3);
    assert_eq!(raw_bits(1 << 20), 23);
    // 30 tables of 2^11 buckets or fewer, matches, indirect tables, weights.
    let small = model_bytes(1, false, MEM_STD);
    assert!(small < 20 << 20);
    assert!(model_bytes(1, true, MEM_STD) < small);
    let n = 64 << 20;
    let std = model_bytes(n, false, MEM_STD);
    let big = model_bytes(n, false, MEM_BIG);
    let plus = model_bytes(n, false, MEM_PLUS);
    let huge = model_bytes(n, false, MEM_HUGE);
    assert!(std < big && big < plus && plus < huge);
    assert_eq!(model_bytes(n, true, MEM_HUGE), model_bytes(n, true, MEM_STD));
}

#[test]
fn predictors_run_in_step() {
    for turbo in [false, true] {
        let mut a = Predictor::new(2000, turbo, MEM_STD);
        let mut b = Predictor::new(2000, turbo, MEM_STD);
        for &byte in b"in step, in step, in step and out of step".repeat(10).iter() {
            for i in (0..8).rev() {
                let p = a.predict();
                assert!((1..=4095).contains(&p));
                assert_eq!(p, b.predict());
                a.update((byte >> i & 1) as i32);
                b.update((byte >> i & 1) as i32);
            }
            a.next_byte(byte);
            b.next_byte(byte);
        }
    }
}

fn followed(text: &[u8]) -> Markup {
    let mut m = Markup::new();
    let mut prev = 0;
    for &b in text {
        m.update_markup(b, prev);
        prev = b;
    }
    m
}

#[test]
fn self_closing_tags_leave_the_enclosing_elements() {
    // Eight open elements are all that is remembered; the innermost has its own name.
    let open = b"<a><a><a><a><a><a><a><c>";
    let full = followed(open).element();
    assert_ne!(full, followed(b"<a>").element());
    for tag in ["<b/>", "<b />", "<b x=\"/\"/>"] {
        let mut text = open.to_vec();
        text.extend_from_slice(tag.as_bytes());
        assert_eq!(followed(&text).element(), full, "{tag}");
        // Seven closing tags leave the outermost element.
        for _ in 0..7 {
            text.extend_from_slice(b"</x>");
        }
        assert_eq!(followed(&text).element(), followed(b"<a>").element(), "{tag}");
        text.extend_from_slice(b"</x>");
        assert_eq!(followed(&text).element(), 0, "{tag}");
    }
    assert_eq!(followed(b"<a><b/>").element(), followed(b"<a>").element());
    assert_eq!(followed(b"<b/>").element(), 0);
    // A closing tag closes one element, however it ends.
    assert_eq!(followed(b"<a><b></b/>").element(), followed(b"<a>").element());
}
