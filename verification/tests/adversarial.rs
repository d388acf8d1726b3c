//! Transforms on awkward inputs.

use cpgc::transform::fingerprint::fingerprint;
use cpgc::transform::primitives::TransformOp;
use cpgc::transform::search::{candidates, find_best_transform, op_to_tag};

#[test]
fn transform_roundtrip_adversarial() {
    let data: Vec<u8> = (0u8..=255).collect();
    for op in [
        TransformOp::Xor { mask: 0x55 },
        TransformOp::Add { value: 200 },
        TransformOp::Subtract { value: 200 },
        TransformOp::BitRotate { bits: 7 },
        TransformOp::Mirror,
        TransformOp::Delta { step: 0 },
    ] {
        let mut d = data.clone();
        op.apply(&mut d);
        op.invert(&mut d);
        assert_eq!(d, data, "adversarial roundtrip failed for {:?}", op);
    }
}

fn roundtrip(op: TransformOp, data: &[u8]) {
    let mut d = data.to_vec();
    op.apply(&mut d);
    op.invert(&mut d);
    assert_eq!(d, data, "{:?} roundtrip failed", op);
}

#[test]
fn xor_roundtrip() {
    roundtrip(TransformOp::Xor { mask: 0xA5 }, b"hello world");
}

#[test]
fn add_roundtrip() {
    roundtrip(TransformOp::Add { value: 42 }, b"hello world");
}

#[test]
fn delta_roundtrip() {
    roundtrip(TransformOp::Delta { step: 0 }, b"hello world");
}

#[test]
fn mirror_roundtrip() {
    roundtrip(TransformOp::Mirror, b"hello world");
}

#[test]
fn bitrotate_roundtrip() {
    roundtrip(TransformOp::BitRotate { bits: 3 }, b"hello world");
}

#[test]
fn shift_roundtrip() {
    roundtrip(TransformOp::Shift { bytes: 5 }, b"hello world");
}

#[test]
fn interleave_roundtrip() {
    roundtrip(TransformOp::Interleave { stride: 4 }, b"ABCDABCDABCDABCD");
}

fn applied(op: TransformOp, data: &[u8]) -> Vec<u8> {
    let mut d = data.to_vec();
    op.apply(&mut d);
    d
}

#[test]
fn interleave_keeps_a_ragged_end() {
    assert_eq!(applied(TransformOp::Interleave { stride: 2 }, b"ABABA"), b"AAABB");
    assert_eq!(applied(TransformOp::Interleave { stride: 4 }, b"ABCDABCDAB"), b"AAABBBCCDD");
    for n in 0..40usize {
        let d: Vec<u8> = (0..n as u8).collect();
        for stride in [0u8, 1, 2, 3, 7, 255] {
            roundtrip(TransformOp::Interleave { stride }, &d);
        }
    }
}

#[test]
fn transforms_on_known_bytes() {
    assert_eq!(applied(TransformOp::Shift { bytes: -1 }, &[0, 1, 255]), [255, 0, 254]);
    assert_eq!(applied(TransformOp::Shift { bytes: 300 }, &[0]), [44]);
    assert_eq!(applied(TransformOp::Xor { mask: 0x0F }, &[0xF0, 0x0F]), [0xFF, 0x00]);
    assert_eq!(applied(TransformOp::Delta { step: 0 }, &[5, 7, 4]), [5, 2, 253]);
    assert_eq!(applied(TransformOp::Delta { step: -3 }, &[5, 7]), [2, 255]);
    assert_eq!(applied(TransformOp::Mirror, &[1, 2, 3]), [3, 2, 1]);
    assert_eq!(applied(TransformOp::BitRotate { bits: 1 }, &[0x81]), [0x03]);
    assert_eq!(applied(TransformOp::BitRotate { bits: 12 }, &[0x12]), [0x21]);
    assert_eq!(applied(TransformOp::Add { value: 10 }, &[250]), [4]);
    assert_eq!(applied(TransformOp::Subtract { value: 10 }, &[4]), [250]);
    assert_eq!(applied(TransformOp::BitMask { mask: 0x0F }, &[0xAB]), [0x0B]);
    assert_eq!(applied(TransformOp::Repeat { factor: 3 }, &[1, 2]), [1, 2, 1, 2, 1, 2]);
    assert_eq!(applied(TransformOp::Repeat { factor: 0 }, &[1, 2]), [1, 2]);
    assert_eq!(
        applied(TransformOp::Scale { numerator: 3, denominator: 2 }, &[10, 11, 200]),
        [15, 16, 255]
    );
    assert_eq!(applied(TransformOp::Scale { numerator: 3, denominator: 0 }, &[10]), [10]);
}

#[test]
fn extreme_shifts_are_undone() {
    for bytes in [i16::MIN, -129, -128, -1, 0, 127, 128, 255, 256, i16::MAX] {
        roundtrip(TransformOp::Shift { bytes }, &[0, 1, 127, 128, 255]);
    }
}

#[test]
fn lossy_transforms_are_left_alone_by_invert() {
    let mut d = vec![0xAB];
    TransformOp::BitMask { mask: 0x0F }.apply(&mut d);
    TransformOp::BitMask { mask: 0x0F }.invert(&mut d);
    assert_eq!(d, [0x0B]);
    let mut d = vec![1, 2];
    TransformOp::Repeat { factor: 2 }.invert(&mut d);
    assert_eq!(d, [1, 2]);
    let mut d = vec![15];
    TransformOp::Scale { numerator: 3, denominator: 2 }.invert(&mut d);
    assert_eq!(d, [10]);
    let mut d = vec![15];
    TransformOp::Scale { numerator: 0, denominator: 2 }.invert(&mut d);
    assert_eq!(d, [15]);
}

#[test]
fn search_finds_differences_of_a_ramp() {
    let ramp: Vec<u8> = (0..4096u32).map(|i| i as u8).collect();
    let (op, t) = find_best_transform(&ramp).expect("a ramp has constant differences");
    assert_eq!(op, TransformOp::Delta { step: 0 });
    assert_eq!(t[0], 0);
    assert!(t[1..].iter().all(|b| *b == 1));
    assert_eq!(op_to_tag(op), Some(1));
}

#[test]
fn search_gives_up_on_constant_data() {
    assert_eq!(find_best_transform(&[7; 4096]), None);
    assert_eq!(find_best_transform(&[]), None);
}

#[test]
fn tags_count_the_candidates_from_one() {
    for (i, op) in candidates().iter().enumerate() {
        assert_eq!(op_to_tag(*op), Some(i as u8 + 1));
    }
    assert_eq!(op_to_tag(TransformOp::Mirror), None);
}

#[test]
fn candidates_undo_themselves() {
    let data: Vec<u8> = (0..1001u32).map(|i| (i * i / 7) as u8).collect();
    for op in candidates() {
        roundtrip(op, &data);
    }
}

#[test]
fn fingerprints_of_known_strings() {
    assert_eq!(fingerprint(b""), 0xcbf29ce484222325);
    assert_eq!(fingerprint(b"a"), 0xaf63dc4c8601ec8c);
    assert_eq!(fingerprint(b"foobar"), 0x85944171f73967e8);
}
