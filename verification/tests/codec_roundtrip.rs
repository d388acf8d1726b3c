//! End-to-end codec tests: compress, decompress, original.

use cpgc::archive::solid::{SolidArchive, SolidError};
use cpgc::checksum::{crc32, xxhash3};
use cpgc::cm::control::Control;
use cpgc::codec::{
    archive_info, compress, compress_with_control, decompress, decompress_with_control, Error,
};

fn roundtrip(input: &[u8]) {
    let compressed = compress(input, 1).expect("compress failed");
    let recovered = decompress(&compressed).expect("decompress failed");
    assert_eq!(
        recovered,
        input,
        "roundtrip mismatch: {} bytes in, {} bytes compressed, {} bytes out",
        input.len(),
        compressed.len(),
        recovered.len()
    );
}

#[test]
fn codec_roundtrip_empty() {
    roundtrip(&[]);
}

#[test]
fn codec_roundtrip_single_byte() {
    roundtrip(&[0x42]);
}

#[test]
fn codec_roundtrip_all_zeros() {
    roundtrip(&[0u8; 256]);
}

#[test]
fn codec_roundtrip_all_bytes() {
    let data: Vec<u8> = (0u8..=255).collect();
    roundtrip(&data);
}

#[test]
fn codec_roundtrip_repeated_pattern() {
    let data: Vec<u8> = b"hello world! ".iter().cycle().take(500).cloned().collect();
    roundtrip(&data);
}

#[test]
fn codec_roundtrip_random_looking() {
    let mut x: u64 = 0xdeadbeefcafe1337;
    let data: Vec<u8> = (0..1000)
        .map(|_| {
            x = x.wrapping_mul(6364136223846793005).wrapping_add(1442695040888963407);
            (x >> 56) as u8
        })
        .collect();
    roundtrip(&data);
}

#[test]
fn codec_header_magic_version() {
    // "test" = 4 bytes, 1 block
    let compressed = compress(b"test", 1).unwrap();
    assert_eq!(&compressed[0..4], b"CPGC", "magic bytes wrong");
    assert_eq!(compressed[4], 4, "version should be 4");
    let len = u64::from_le_bytes(compressed[6..14].try_into().unwrap());
    assert_eq!(len, 4, "stored length wrong");
    let n_blocks = u32::from_le_bytes(compressed[14..18].try_into().unwrap());
    assert_eq!(n_blocks, 1, "should be 1 block");
    assert_eq!(compressed[18], 0x00, "block tag should be 0x00 (no transform)");
}

#[test]
fn codec_compress_reduces_repetitive_data() {
    let data = vec![b'a'; 1000];
    let compressed = compress(&data, 1).unwrap();
    assert!(
        compressed.len() < data.len(),
        "expected compression: {} bytes raw, {} bytes compressed",
        data.len(),
        compressed.len()
    );
}

#[test]
fn solid_archive_roundtrip_single_file() {
    let files = vec![("readme.txt", b"hello world".as_slice())];
    let packed = SolidArchive::pack(&files, 1).unwrap();
    let unpacked = SolidArchive::unpack(&packed).unwrap();
    assert_eq!(unpacked.len(), 1);
    assert_eq!(unpacked[0].0, "readme.txt");
    assert_eq!(unpacked[0].1, b"hello world");
}

#[test]
fn solid_archive_roundtrip_multi_file() {
    let files: Vec<(&str, &[u8])> = vec![
        ("a.txt", b"AAAA"),
        ("b.txt", b"BBBBBBBB"),
        ("c.bin", &[0u8, 1, 2, 3, 255, 254]),
    ];
    let packed = SolidArchive::pack(&files, 1).unwrap();
    let listing = SolidArchive::list(&packed).unwrap();
    assert_eq!(listing.len(), 3);
    assert_eq!(listing[0], ("a.txt".to_string(), 4));
    assert_eq!(listing[1], ("b.txt".to_string(), 8));
    assert_eq!(listing[2], ("c.bin".to_string(), 6));

    let unpacked = SolidArchive::unpack(&packed).unwrap();
    for ((name, data), (exp_name, exp_data)) in unpacked.iter().zip(files.iter()) {
        assert_eq!(name, exp_name);
        assert_eq!(data.as_slice(), *exp_data);
    }
}

#[test]
fn solid_archive_roundtrip_empty_file() {
    let files: Vec<(&str, &[u8])> = vec![("empty.bin", b"")];
    let packed = SolidArchive::pack(&files, 1).unwrap();
    let unpacked = SolidArchive::unpack(&packed).unwrap();
    assert_eq!(unpacked.len(), 1);
    assert_eq!(unpacked[0].0, "empty.bin");
    assert_eq!(unpacked[0].1, b"");
}

// ---------------------------------------------------------------------------
// More of the same at other levels
// ---------------------------------------------------------------------------

/// Slowly rising samples: the differences are constant, the bytes are not.
fn ramp(n: usize) -> Vec<u8> {
    (0..n).map(|i| ((i / 3) % 61) as u8).collect()
}

#[test]
fn every_level_restores_mixed_content() {
    let mut data = b"Levels differ in speed, never in what comes back. ".repeat(30);
    data.extend(ramp(5000));
    data.extend((0..=255u8).cycle().take(4096));
    for level in 1..=9u8 {
        let packed = compress(&data, level).unwrap();
        assert_eq!(decompress(&packed).unwrap(), data, "level {}", level);
    }
}

#[test]
fn levels_outside_the_range_count_as_the_nearest() {
    let data = b"abc abc abc abc".to_vec();
    assert_eq!(compress(&data, 0).unwrap(), compress(&data, 1).unwrap());
    assert_eq!(compress(&data, 200).unwrap(), compress(&data, 9).unwrap());
}

#[test]
fn incompressible_blocks_are_stored_raw() {
    let data: Vec<u8> = (0..=255u8).cycle().take(8192).collect();
    let packed = compress(&data, 1).unwrap();
    let info = archive_info(&packed).unwrap();
    assert_eq!(info.version, 4);
    assert_eq!(info.flags, 1);
    assert_eq!(info.orig_len, 8192);
    assert_eq!(info.blocks, 2);
    assert_eq!(info.raw_len, 8192);
    assert_eq!(info.payload_len, 0);
    assert_eq!(&packed[18..20], &[0xFF, 0xFF]);
    assert_eq!(&packed[22 + 2..26 + 2], &crc32(&data).to_le_bytes());
    assert_eq!(&packed[26 + 2..], data.as_slice());
    assert_eq!(decompress(&packed).unwrap(), data);
}

#[test]
fn info_of_a_mixed_archive() {
    let data = vec![b'a'; 1000];
    let packed = compress(&data, 5).unwrap();
    let info = archive_info(&packed).unwrap();
    assert_eq!((info.flags, info.orig_len, info.blocks, info.raw_len), (0, 1000, 1, 0));
    assert_eq!(info.payload_len as usize + 27, packed.len());
    assert_eq!(archive_info(&packed[..21]), Err(Error::TooShort));
    let mut other = packed.clone();
    other[0] = b'X';
    assert_eq!(archive_info(&other), Err(Error::BadMagic));
    assert_eq!(archive_info(&packed[..22]).unwrap().raw_len, 0);
}

#[test]
fn malformed_archives_are_refused() {
    let data = b"some text that is long enough to be mixed, some text".to_vec();
    let good = compress(&data, 1).unwrap();
    assert_eq!(decompress(&good[..25]), Err(Error::TooShort));

    let mut v = good.clone();
    v[1] = b'x';
    assert_eq!(decompress(&v), Err(Error::BadMagic));

    let mut v = good.clone();
    v[4] = 9;
    assert_eq!(decompress(&v), Err(Error::BadVersion(9)));

    let mut v = good.clone();
    v[14..18].copy_from_slice(&0xffff_ffffu32.to_le_bytes());
    assert_eq!(decompress(&v), Err(Error::TruncatedTable));

    let mut v = good.clone();
    v[19..23].copy_from_slice(&0x00ff_ffffu32.to_le_bytes());
    assert_eq!(decompress(&v), Err(Error::TruncatedRaw));

    // A second block cannot start beyond 52 bytes.
    let mut v = good.clone();
    v[14..18].copy_from_slice(&2u32.to_le_bytes());
    v.insert(18, 0);
    assert_eq!(decompress(&v), Err(Error::BadTable));

    let mut v = good.clone();
    v.truncate(27);
    assert_eq!(decompress(&v), Err(Error::BadPayload));

    let mut v = good.clone();
    v[18] = 0xFF;
    assert_eq!(decompress(&v), Err(Error::RawUnderrun(0)));

    let mut v = good.clone();
    v[18] = 9;
    assert_eq!(decompress(&v), Err(Error::UnknownTag(9)));

    let mut v = good.clone();
    v[23] ^= 1;
    let actual = crc32(&data);
    assert_eq!(decompress(&v), Err(Error::Checksum { expected: actual ^ 1, actual }));
}

#[test]
fn a_payload_that_delivers_too_little_is_refused() {
    let data = b"0123456789".repeat(20);
    let good = compress(&data, 4).unwrap();
    // Header of 27 bytes, then profile, segment size and the number of segments.
    let mut v = good.clone();
    v[27 + 5..27 + 9].copy_from_slice(&0u32.to_le_bytes());
    assert_eq!(decompress(&v), Err(Error::MixedUnderrun(0)));
    v[18] = 3;
    assert_eq!(decompress(&v), Err(Error::TransformUnderrun(0)));
}

#[test]
fn empty_archive_checks_its_checksum() {
    let good = compress(&[], 5).unwrap();
    assert_eq!(good.len(), 26);
    assert_eq!(decompress(&good), Ok(vec![]));
    let mut v = good.clone();
    v[25] = 1;
    assert_eq!(decompress(&v), Err(Error::EmptyChecksum));
}

#[test]
fn flipped_bits_never_go_unnoticed() {
    let data = b"The quick brown fox jumps over the lazy dog.".repeat(4);
    let good = compress(&data, 1).unwrap();
    for i in 0..good.len() {
        let mut v = good.clone();
        v[i] ^= 0x10;
        if let Ok(d) = decompress(&v) {
            assert_eq!(d, data, "byte {}", i);
        }
    }
}

#[test]
fn control_counts_and_cancels() {
    let data = b"control ".repeat(1000);
    let ctrl = Control::new();
    let packed = compress_with_control(&data, 4, &ctrl).unwrap();
    assert_eq!(ctrl.bytes_done(), 8000);
    assert_eq!(packed, compress(&data, 4).unwrap());
    assert_eq!(decompress_with_control(&packed, &ctrl).unwrap(), data);
    assert_eq!(ctrl.bytes_done(), 16000);
    ctrl.cancel();
    assert!(ctrl.is_cancelled());
    assert_eq!(compress_with_control(&data, 4, &ctrl), Err(Error::Cancelled));
    assert_eq!(decompress_with_control(&packed, &ctrl), Err(Error::Cancelled));
}

#[test]
fn a_cancelled_job_is_still_told_what_is_wrong() {
    let ctrl = Control::new();
    ctrl.cancel();
    // Nothing to mix, nothing to decode: the switch is never looked at.
    let empty = compress_with_control(b"", 5, &ctrl).unwrap();
    assert_eq!(decompress_with_control(&empty, &ctrl).unwrap(), b"");
    let good = compress(b"some text to decode", 5).unwrap();
    assert_eq!(decompress_with_control(&good, &ctrl), Err(Error::Cancelled));
    assert_eq!(decompress_with_control(&good[..20], &ctrl), Err(Error::TooShort));
    let mut bad = good.clone();
    bad[0] = b'X';
    assert_eq!(decompress_with_control(&bad, &ctrl), Err(Error::BadMagic));
    let mut bad = good.clone();
    bad[4] = 99;
    assert_eq!(decompress_with_control(&bad, &ctrl), Err(Error::BadVersion(99)));
    // A payload cut off before its segments.
    assert_eq!(decompress_with_control(&good[..30], &ctrl), Err(Error::BadPayload));
    assert_eq!(ctrl.bytes_done(), 0);
}

#[test]
fn every_segment_is_counted() {
    let data = b"count me in ".repeat(200_000);
    let ctrl = Control::with_budget(1);
    let v = compress_with_control(&data, 4, &ctrl).unwrap();
    assert_eq!(ctrl.bytes_done(), data.len() as u64);
    assert_eq!(decompress_with_control(&v, &ctrl).unwrap(), data);
    assert_eq!(ctrl.bytes_done(), 2 * data.len() as u64);
}

#[test]
fn memory_budget_changes_nothing_but_the_schedule() {
    let data = b"schedule ".repeat(300_000);
    let tight = Control::with_budget(1);
    let loose = Control::with_budget(u64::MAX);
    assert_eq!(tight.budget(), Some(1));
    let a = compress_with_control(&data, 1, &tight).unwrap();
    let b = compress_with_control(&data, 1, &loose).unwrap();
    assert_eq!(a, b);
    assert_eq!(decompress_with_control(&a, &tight).unwrap(), data);
}

// ---------------------------------------------------------------------------
// Solid archives
// ---------------------------------------------------------------------------

#[test]
fn solid_keeps_names_of_any_script() {
    let files: Vec<(&str, &[u8])> = vec![("\u{fc}ber/\u{65e5}\u{672c}.txt", b"x"), ("", b"yz")];
    let packed = SolidArchive::pack(&files, 5).unwrap();
    let unpacked = SolidArchive::unpack(&packed).unwrap();
    assert_eq!(unpacked[0].0, "\u{fc}ber/\u{65e5}\u{672c}.txt");
    assert_eq!(unpacked[1], ("".to_string(), b"yz".to_vec()));
}

#[test]
fn solid_without_files() {
    let packed = SolidArchive::pack(&[], 5).unwrap();
    assert_eq!(&packed[..8], b"CPAS\0\0\0\0");
    assert_eq!(SolidArchive::unpack(&packed).unwrap().len(), 0);
    assert_eq!(SolidArchive::new().files.len(), 0);
}

#[test]
fn solid_layout_is_table_then_contents() {
    let files: Vec<(&str, &[u8])> = vec![("ab", b"xyz")];
    let (head, data) = SolidArchive::layout(&files);
    assert_eq!(head, b"CPAS\x01\0\0\0\x02\0ab\x03\0\0\0\0\0\0\0");
    assert_eq!(data, b"xyz");
}

#[test]
fn malformed_solid_archives_are_refused() {
    let files: Vec<(&str, &[u8])> = vec![("ab", b"xyz")];
    let good = SolidArchive::pack(&files, 1).unwrap();
    assert_eq!(SolidArchive::list(&good[..7]), Err(SolidError::TooShort));
    let mut v = good.clone();
    v[3] = b'C';
    assert_eq!(SolidArchive::list(&v), Err(SolidError::BadMagic));
    assert_eq!(SolidArchive::list(&good[..9]), Err(SolidError::TruncatedTable));
    assert_eq!(SolidArchive::list(&good[..15]), Err(SolidError::TruncatedEntry));
    let mut v = good.clone();
    v[10] = 0xFF;
    assert_eq!(SolidArchive::list(&v), Err(SolidError::BadName));
    let mut v = good.clone();
    v[12] = 4;
    assert_eq!(SolidArchive::unpack(&v), Err(SolidError::Underrun(0)));
    let mut v = good.clone();
    v[20] = b'c';
    assert_eq!(SolidArchive::unpack(&v), Err(SolidError::Codec(Error::BadMagic)));
}

#[test]
fn solid_packing_can_be_cancelled() {
    let content = vec![7u8; 5000];
    let files: Vec<(&str, &[u8])> = vec![("a", &content)];
    let ctrl = Control::new();
    assert_eq!(
        SolidArchive::pack_with_control(&files, 2, &ctrl).unwrap(),
        SolidArchive::pack(&files, 2).unwrap()
    );
    ctrl.cancel();
    assert_eq!(
        SolidArchive::pack_with_control(&files, 2, &ctrl),
        Err(SolidError::Codec(Error::Cancelled))
    );
}

// ---------------------------------------------------------------------------
// Checksums
// ---------------------------------------------------------------------------

#[test]
fn crc32_of_known_strings() {
    assert_eq!(crc32(b""), 0);
    assert_eq!(crc32(b"123456789"), 0xCBF4_3926);
    assert_eq!(crc32(b"The quick brown fox jumps over the lazy dog"), 0x414F_A339);
}

#[test]
fn crc32_follows_the_polynomial() {
    let data: Vec<u8> = (0..100u32).map(|i| (i * i) as u8).collect();
    let mut c: u32 = 0xffff_ffff;
    for b in &data {
        c ^= *b as u32;
        for _ in 0..8 {
            c = if c & 1 == 1 { (c >> 1) ^ 0xEDB8_8320 } else { c >> 1 };
        }
    }
    assert_eq!(crc32(&data), !c);
}

#[test]
fn xxh3_of_the_empty_string() {
    assert_eq!(xxhash3(b""), 0x2D06_8005_38D3_94C2);
    assert_ne!(xxhash3(b"a"), xxhash3(b"b"));
}
