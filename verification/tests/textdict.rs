//! Text dictionary tests.

use cpgc::transform::textdict::{apply, invert};

fn sample_text(n: usize) -> Vec<u8> {
    let para = "The quick brown fox jumps over the lazy dog. In 2005 the \
                encyclopedia article described [[compression]] algorithms and \
                the information theory behind them, according to the text.\n";
    para.as_bytes().iter().cycle().take(n).cloned().collect()
}

#[test]
fn roundtrip_text() {
    let data = sample_text(1 << 17);
    let t = apply(&data).expect("texty input should transform");
    assert!(t.len() < data.len(), "transform must shrink text");
    let back = invert(&t).expect("invert failed");
    assert_eq!(back, data);
}

#[test]
fn skips_binary() {
    let mut x: u64 = 99;
    let data: Vec<u8> = (0..1 << 17)
        .map(|_| {
            x = x.wrapping_mul(6364136223846793005).wrapping_add(1);
            (x >> 56) as u8
        })
        .collect();
    assert!(apply(&data).is_none(), "random bytes must not transform");
}

#[test]
fn skips_small() {
    assert!(apply(b"tiny input").is_none());
}

#[test]
fn roundtrip_with_all_byte_values_in_words() {
    let mut data = sample_text(1 << 17);
    data.extend((0u8..=255).cycle().take(4096));
    if let Some(t) = apply(&data) {
        assert_eq!(invert(&t).unwrap(), data);
    }
}

#[test]
fn header_lists_the_alphabet_and_the_words() {
    let data = sample_text(1 << 16);
    let t = apply(&data).unwrap();
    assert_eq!(t[0], 1);
    let unused: Vec<u8> = (0..=255u8).filter(|b| !data.contains(b)).collect();
    let (ns, nl) = (t[1] as usize, t[2] as usize);
    assert_eq!(ns, 24);
    assert_eq!(nl, 40);
    assert_eq!(&t[3..3 + ns + nl], &unused[..64]);
    // The word that saves most comes first: 13 bytes, once per paragraph.
    let at = 3 + ns + nl + 4;
    assert_eq!(t[at] as usize, 13);
    assert_eq!(&t[at + 1..at + 14], b" encyclopedia");
}

#[test]
fn text_without_repetition_is_left_alone() {
    // Every word is different.
    let mut data = Vec::new();
    let mut i: u32 = 0;
    while data.len() < 1 << 16 {
        data.extend_from_slice(format!("w{} ", i).as_bytes());
        i += 1;
    }
    assert!(apply(&data).is_none());
}

#[test]
fn text_that_uses_every_byte_is_left_alone() {
    let mut data = sample_text(1 << 17);
    data.extend(0u8..=255);
    assert!(apply(&data).is_none());
}

#[test]
fn two_byte_tokens_are_undone() {
    // More words than one-byte tokens.
    let mut data = Vec::new();
    let mut i: u32 = 0;
    while data.len() < 1 << 17 {
        data.extend_from_slice(format!(" word{:03}x", i % 600).as_bytes());
        i += 1;
    }
    let t = apply(&data).expect("repeated words");
    assert!(t.len() < data.len() / 2);
    assert_eq!(invert(&t).unwrap(), data);
}

#[test]
fn malformed_texts_are_refused() {
    assert_eq!(invert(&[]), None);
    assert_eq!(invert(&[1, 0, 0, 0, 0, 0]), None);
    assert_eq!(invert(&[2, 0, 0, 0, 0, 0, 0]), None);
    assert_eq!(invert(&[1, 9, 9, 0, 0, 0, 0]), None);
    // One word is announced, none is there.
    assert_eq!(invert(&[1, 0, 0, 1, 0, 0, 0]), None);
    assert_eq!(invert(&[1, 0, 0, 1, 0, 0, 0, 3, b'a']), None);
    // A one-byte token and a lead byte without a word.
    assert_eq!(invert(&[1, 1, 0, 200, 0, 0, 0, 0, 200]), None);
    assert_eq!(invert(&[1, 0, 1, 200, 0, 0, 0, 0, 200, 0]), None);
    assert_eq!(invert(&[1, 0, 1, 200, 1, 0, 0, 0, 1, b'a', 200]), None);
}

#[test]
fn handmade_texts_are_undone() {
    assert_eq!(invert(&[1, 0, 0, 0, 0, 0, 0]), Some(vec![]));
    assert_eq!(invert(&[1, 0, 0, 0, 0, 0, 0, b'h', b'i']), Some(b"hi".to_vec()));
    let t = [1, 1, 1, 200, 201, 2, 0, 0, 0, 2, b'o', b'n', 2, b'o', b'f', 200, b'-', 201, 0];
    assert_eq!(invert(&t), Some(b"on-of".to_vec()));
}

#[test]
fn equally_good_words_go_by_the_alphabet() {
    // Twenty words of the same length that occur equally often, last one first.
    let mut data: Vec<u8> = Vec::new();
    for _ in 0..1000 {
        for c in (b'a'..=b't').rev() {
            data.extend_from_slice(&[c, b'w', b'o', b'r', b'd', b's', b'\n']);
        }
    }
    let t = apply(&data).unwrap();
    assert_eq!(apply(&data).unwrap(), t);
    let at = 3 + t[1] as usize + t[2] as usize;
    assert_eq!(&t[at..at + 4], &[20, 0, 0, 0]);
    for (i, c) in (b'a'..=b't').enumerate() {
        let e = at + 4 + 7 * i;
        assert_eq!(&t[e..e + 7], &[6, c, b'w', b'o', b'r', b'd', b's']);
    }
    assert_eq!(invert(&t).unwrap(), data);
}
