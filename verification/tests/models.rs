//! Analyzer, records, bit streams and byte models.

use cpgc::analyzer::classifier::{classify, classify_as, WINDOW_SIZE};
use cpgc::analyzer::entropy::{entropy_bits, is_high_entropy, BIT};
use cpgc::archive::format::{flags, FileHeader, FormatError, RegionEntry, VERSION};
use cpgc::bitstream::{BitReader, BitWriter};
use cpgc::bytes::{push_le, read_le};
use cpgc::predictor::match_model::MatchModel;
use cpgc::predictor::order_n::{Order1Model, Order2Model, Order4Model};
use cpgc::predictor::run_model::RunModel;

// --- entropy ---------------------------------------------------------------

#[test]
fn uniform_is_8_bits() {
    let data: Vec<u8> = (0u8..=255).collect();
    let e = entropy_bits(&data) as f64 / BIT as f64;
    assert!((e - 8.0).abs() < 0.01, "entropy = {}", e);
    assert_eq!(entropy_bits(&data), 8 * BIT);
}

#[test]
fn constant_is_0_bits() {
    let data = vec![0u8; 1000];
    assert_eq!(entropy_bits(&data), 0);
    assert_eq!(entropy_bits(&[]), 0);
}

#[test]
fn entropy_follows_shannon() {
    let mut x: u32 = 1;
    for n in [3usize, 100, 4096, 10_000] {
        let data: Vec<u8> = (0..n)
            .map(|_| {
                x = x.wrapping_mul(1664525).wrapping_add(1013904223);
                let v = (x >> 24) as u8;
                v & (v >> 1)
            })
            .collect();
        let mut counts = [0f64; 256];
        for b in &data {
            counts[*b as usize] += 1.0;
        }
        let h: f64 = counts
            .iter()
            .filter(|c| **c > 0.0)
            .map(|c| -(c / n as f64) * (c / n as f64).log2())
            .sum();
        let e = entropy_bits(&data) as f64 / BIT as f64;
        assert!((e - h).abs() < 0.0001, "{} against {}", e, h);
    }
}

#[test]
fn high_entropy_starts_above_seven_and_a_half_bits() {
    let data: Vec<u8> = (0u8..=255).collect();
    assert!(is_high_entropy(&data));
    let fewer: Vec<u8> = (0u8..128).collect();
    assert!(!is_high_entropy(&fewer));
    assert!(!is_high_entropy(&[]));
}

// --- classifier ------------------------------------------------------------

#[test]
fn windows_are_classified_one_by_one() {
    let mut data: Vec<u8> = (0..=255u8).cycle().take(WINDOW_SIZE).collect();
    data.extend(vec![b'x'; WINDOW_SIZE]);
    data.extend((0..100u8).map(|i| i % 100));
    let r = classify(&data);
    assert_eq!(r.len(), 3);
    assert_eq!((r[0].offset, r[0].passthrough), (0, true));
    assert!(!r[0].use_transform);
    assert_eq!((r[1].offset, r[1].passthrough, r[1].use_delta), (4096, false, 0));
    assert!(r[1].use_transform);
    // A ramp of 100 values: 6.6 bits, but constant differences.
    assert_eq!((r[2].offset, r[2].passthrough, r[2].use_delta), (8192, false, 1));
    assert!(!r[2].use_transform);
    assert!(classify_as(&data, true).iter().all(|w| w.passthrough));
    assert_eq!(classify(&[]).len(), 0);
}

// --- records ---------------------------------------------------------------

#[test]
fn file_header_takes_forty_bytes() {
    let h = FileHeader {
        version: VERSION,
        level: 7,
        lstm_hidden_log2: 5,
        flags: flags::IS_ARCHIVE | flags::SOLID_MODE | flags::TRANSFORM_USED,
        uncompressed_size: 0x0102_0304_0506_0708,
        compressed_size: 99,
        crc32: 0xAABB_CCDD,
        xxhash3_lo: 1,
        region_map_len: 2,
        file_table_offset: 3,
    };
    let mut out = vec![];
    h.write(&mut out);
    assert_eq!(out.len(), 40);
    assert_eq!(&out[..16], &[67, 80, 71, 67, 3, 7, 5, 7, 8, 7, 6, 5, 4, 3, 2, 1]);
    assert_eq!(&out[24..28], &[0xDD, 0xCC, 0xBB, 0xAA]);
    assert_eq!(FileHeader::read(&out), Ok(h));
    assert_eq!(FileHeader::read(&out[..39]), Err(FormatError::Truncated));
    assert_eq!(FileHeader::read(&out[..3]), Err(FormatError::Truncated));
    out[2] = 0;
    assert_eq!(FileHeader::read(&out), Err(FormatError::BadMagic));
}

#[test]
fn region_entry_takes_six_bytes() {
    let e = RegionEntry { offset: 0x0403_0201, preproc: 5, _pad: 6 };
    let mut out = vec![];
    e.write(&mut out);
    assert_eq!(out, [1, 2, 3, 4, 5, 6]);
    assert_eq!(RegionEntry::read(&out), Ok(e));
    assert_eq!(RegionEntry::read(&out[..5]), Err(FormatError::Truncated));
}

#[test]
fn little_endian_fields() {
    let mut out = vec![9];
    push_le(&mut out, 0x1234_5678, 2);
    assert_eq!(out, [9, 0x78, 0x56]);
    assert_eq!(read_le(&out, 1, 2), 0x5678);
    push_le(&mut out, u64::MAX, 8);
    assert_eq!(read_le(&out, 3, 8), u64::MAX);
}

// --- bit streams -----------------------------------------------------------

#[test]
fn bits_come_back_in_order() {
    let mut w = BitWriter::new();
    let mut expect = vec![];
    let mut x: u64 = 7;
    for i in 0..500u32 {
        x = x.wrapping_mul(6364136223846793005).wrapping_add(1442695040888963407);
        let n = (i % 57) as u8;
        w.write_bits(x, n);
        expect.push((x & ((1u64 << n) - 1), n));
    }
    let bytes = w.finish();
    let mut r = BitReader::new(&bytes);
    for (v, n) in expect {
        assert_eq!(r.read_bits(n), Some(v));
    }
}

#[test]
fn bits_fill_bytes_from_the_bottom() {
    let mut w = BitWriter::new();
    w.write_bits(0b101, 3);
    w.write_bits(0b1, 1);
    w.write_bits(0xFFF, 6);
    assert_eq!(w.finish(), [0b1111_1101, 0b0000_0011]);
    assert_eq!(BitWriter::new().finish(), Vec::<u8>::new());
}

#[test]
fn reading_past_the_end_reads_nothing() {
    let mut r = BitReader::new(&[0xAB]);
    assert_eq!(r.read_bits(9), None);
    assert_eq!(r.read_bits(4), Some(0xB));
    assert_eq!(r.read_bits(5), None);
    assert_eq!(r.read_bits(4), Some(0xA));
    assert_eq!(r.read_bits(0), Some(0));
    assert_eq!(r.read_bits(1), None);
}

// --- byte models -----------------------------------------------------------

#[test]
fn order1_learns() {
    let mut m = Order1Model::new();
    for _ in 0..3000 {
        m.update(b'A', b'B');
    }
    let d = m.predict(b'A');
    let p: Vec<f32> = d.num.iter().map(|n| *n as f32 / d.den as f32).collect();
    assert!(p[b'B' as usize] > 0.9, "P(B|A) = {}", p[b'B' as usize]);
    assert_eq!((d.num[b'B' as usize], d.den), (3001, 3256));
}

#[test]
fn predictions_sum_to_one() {
    let mut m = Order2Model::new();
    for i in 0..50u8 {
        m.update(1, 2, i % 5);
    }
    let d = m.predict(1, 2);
    assert_eq!(d.num.iter().sum::<u64>(), d.den);
    assert_eq!((d.num[0], d.num[5], d.den), (11, 1, 306));
    let u = m.predict(2, 1);
    assert_eq!((u.num[77], u.den), (1, 256));
}

#[test]
fn order4_counts_by_context() {
    let mut m = Order4Model::new();
    m.update(0x01020304, b'x');
    m.update(0x01020304, b'x');
    assert_eq!(m.predict(0x01020304).num[b'x' as usize], 3);
    assert_eq!(m.predict(0x01020305).num[b'x' as usize], 1);
}

#[test]
fn runs_are_counted() {
    let mut m = RunModel::new();
    assert_eq!(m.predict(), (0, 0));
    for b in b"aabbb" {
        m.update(*b);
    }
    assert_eq!(m.predict(), (b'b', 3));
}

#[test]
fn matches_predict_what_followed() {
    let mut m = MatchModel::new();
    assert_eq!(m.predict(), None);
    for b in b"abcdX" {
        m.update(*b);
    }
    assert_eq!(m.predict(), None);
    for b in b"..abcd" {
        m.update(*b);
    }
    assert_eq!(m.predict(), Some(b'X'));
}

#[test]
fn matches_outside_the_window_are_forgotten() {
    let mut m = MatchModel::new();
    for b in b"abcdX" {
        m.update(*b);
    }
    for i in 0..1u32 << 20 {
        m.update((i % 7) as u8);
    }
    for b in b"abcd" {
        m.update(*b);
    }
    assert_eq!(m.predict(), None);
}
