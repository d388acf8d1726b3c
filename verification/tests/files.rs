//! Names, dates, archives of files, and the Explorer menu.

use cpgc::archive::create::{create, CreateError};
use cpgc::archive::extract::{
    kind, members, outputs, outputs_with_control, verify, verify_with_control, Kind,
};
use cpgc::archive::solid::{SolidArchive, SolidError};
use cpgc::browse::listing_order;
use cpgc::calendar::{civil_from_days, timestamp};
use cpgc::cm::control::Control;
use cpgc::codec;
use cpgc::names::{
    back_slashes, compressed_name, extract_dir, extracted_name, forward_slashes, is_archive,
    level_label, output_name, sanitize_rel, strip_ext, type_label,
};
use cpgc::selection::{on_click, Action, Selection};
use cpgc::shell::settings;

#[test]
fn archives_are_told_by_their_extension() {
    assert!(is_archive("a.cpgc"));
    assert!(is_archive("A.CpAs"));
    assert!(is_archive(".cpgc"));
    assert!(!is_archive("a.cpg"));
    assert!(!is_archive("cpgc"));
    assert!(!is_archive(""));
    assert!(!is_archive("a.cpgs"));
}

#[test]
fn extensions_are_added_and_stripped() {
    assert_eq!(strip_ext("notes.txt.CPGC"), "notes.txt");
    assert_eq!(strip_ext("notes.txt"), "notes.txt");
    assert_eq!(compressed_name("notes.txt"), "notes.txt.cpgc");
    assert_eq!(extracted_name("notes.txt.cpgc"), "notes.txt");
    assert_eq!(extracted_name("project.cpas"), "project");
    assert_eq!(extracted_name("notes.bin"), "notes.bin.out");
    for name in ["", "x", "caf\u{e9}", "a.cpgc"] {
        assert_eq!(strip_ext(&compressed_name(name)), name);
    }
}

#[test]
fn new_archives_get_a_name() {
    assert_eq!(output_name(""), "archive.cpgc");
    assert_eq!(output_name("a"), "a.cpgc");
    assert_eq!(output_name("a.cpas"), "a.cpas");
    assert_eq!(extract_dir("", "notes"), "notes_extracted");
    assert_eq!(extract_dir("here", "notes"), "here");
}

#[test]
fn slashes_are_exchanged() {
    assert_eq!(forward_slashes("a\\b/c\\"), "a/b/c/");
    assert_eq!(back_slashes("a\\b/\u{e9}/"), "a\\b\\\u{e9}\\");
}

#[test]
fn entries_have_a_type() {
    assert_eq!(type_label(true, true), "Folder");
    assert_eq!(type_label(false, true), "CPGC Archive");
    assert_eq!(type_label(false, false), "File");
}

#[test]
fn members_stay_below_their_directory() {
    assert_eq!(sanitize_rel("a/b.txt", false), ["a", "b.txt"]);
    assert_eq!(sanitize_rel("/etc//passwd", false), ["etc", "passwd"]);
    assert_eq!(sanitize_rel("../../x/./y/..", false), ["x", "y"]);
    assert_eq!(sanitize_rel("..", false), ["file"]);
    assert_eq!(sanitize_rel("", false), ["file"]);
    assert_eq!(sanitize_rel("a\\..\\b", true), ["a", "b"]);
    assert_eq!(sanitize_rel("a\\..\\b", false), ["a\\..\\b"]);
    assert_eq!(sanitize_rel("...", false), ["..."]);
}

#[test]
fn windows_prefixes_are_dropped() {
    assert_eq!(sanitize_rel("C:/x", true), ["x"]);
    assert_eq!(sanitize_rel("c:x\\y", true), ["x", "y"]);
    assert_eq!(sanitize_rel("C:", true), ["file"]);
    assert_eq!(sanitize_rel("\\\\server\\share\\a\\b", true), ["a", "b"]);
    assert_eq!(sanitize_rel("//server/share/a", true), ["a"]);
    assert_eq!(sanitize_rel("\\\\server", true), ["server"]);
    assert_eq!(sanitize_rel("\\\\?\\C:\\a", true), ["a"]);
    assert_eq!(sanitize_rel("\\\\?\\UNC\\server\\share\\a", true), ["a"]);
    assert_eq!(sanitize_rel("\\\\?\\UNC\\server", true), ["file"]);
    assert_eq!(sanitize_rel("\\\\.\\COM42\\a", true), ["a"]);
    // A drive in the middle would start anew as well.
    assert_eq!(sanitize_rel("a/D:/b", true), ["a", "b"]);
    assert_eq!(sanitize_rel("a/D:evil", true), ["a"]);
    assert_eq!(sanitize_rel("C:D:x/y", true), ["y"]);
    // Nothing of this is special elsewhere.
    assert_eq!(sanitize_rel("C:/x", false), ["C:", "x"]);
    assert_eq!(sanitize_rel("ab:c", true), ["ab:c"]);
}

#[test]
fn drives_do_not_lead_out_of_the_directory() {
    let files: Vec<(&str, &[u8])> = vec![("C:/x", b"one"), ("C:\\d\\y", b"two")];
    let packed = SolidArchive::pack(&files, 5).unwrap();
    let out = outputs(&packed, "all", None, true).unwrap();
    assert_eq!(
        out,
        vec![(parts(&["x"]), b"one".to_vec()), (parts(&["d", "y"]), b"two".to_vec())]
    );
}

#[test]
fn levels_have_labels() {
    assert_eq!(level_label(1), "1 — fastest");
    assert_eq!(level_label(2), "2");
    assert_eq!(level_label(5), "5 — default");
    assert_eq!(level_label(9), "9 — best ratio");
    assert_eq!(level_label(0), "0");
    assert_eq!(level_label(208), "208");
}

#[test]
fn models_get_two_thirds_of_the_memory() {
    assert_eq!(Control::with_free_memory(9).budget(), Some(6));
    assert_eq!(Control::with_free_memory(100).budget(), Some(66));
    assert_eq!(Control::with_free_memory(u64::MAX).budget(), Some(12297829382473034410));
    assert_eq!(Control::new().budget(), None);
}

#[test]
fn days_become_dates() {
    assert_eq!(civil_from_days(0), (1970, 1, 1));
    assert_eq!(civil_from_days(-1), (1969, 12, 31));
    assert_eq!(civil_from_days(59), (1970, 3, 1));
    assert_eq!(civil_from_days(11016), (2000, 2, 29));
    assert_eq!(civil_from_days(19782), (2024, 2, 29));
    assert_eq!(civil_from_days(-719468), (0, 3, 1));
    assert_eq!(civil_from_days(47540), (2100, 2, 28));
    assert_eq!(civil_from_days(47541), (2100, 3, 1));
}

#[test]
fn seconds_become_times() {
    let t = timestamp(0);
    assert_eq!((t.year, t.month, t.day, t.hour, t.minute), (1970, 1, 1, 0, 0));
    let t = timestamp(1_709_251_199);
    assert_eq!((t.year, t.month, t.day, t.hour, t.minute), (2024, 2, 29, 23, 59));
}

#[test]
fn directories_are_listed_first() {
    let items: Vec<(bool, String)> = [
        (false, "b"),
        (true, "z"),
        (false, "a"),
        (true, "c"),
        (false, "b"),
        (false, ""),
    ]
    .iter()
    .map(|x| (x.0, x.1.to_string()))
    .collect();
    assert_eq!(listing_order(&items), [3, 1, 5, 2, 0, 4]);
    assert_eq!(listing_order(&Vec::new()), Vec::<usize>::new());
}

fn three_files() -> Vec<u8> {
    let files: Vec<(&str, &[u8])> = vec![
        ("a.txt", b"alpha alpha alpha"),
        ("sub/b.bin", &[1u8, 2, 3, 4, 5, 6]),
        ("c.log", b"gamma gamma gamma gamma"),
    ];
    SolidArchive::pack(&files, 5).unwrap()
}

fn parts(names: &[&str]) -> Vec<String> {
    names.iter().map(|n| n.to_string()).collect()
}

#[test]
fn extract_selected_members_only() {
    let wanted = parts(&["a.txt", "sub/b.bin"]);
    let out = outputs(&three_files(), "test", Some(&wanted), false).unwrap();
    assert_eq!(
        out,
        vec![
            (parts(&["a.txt"]), b"alpha alpha alpha".to_vec()),
            (parts(&["sub", "b.bin"]), vec![1, 2, 3, 4, 5, 6]),
        ]
    );
}

#[test]
fn extract_all_members() {
    let files: Vec<(&str, &[u8])> = vec![("x", b"one"), ("y", b"two")];
    let packed = SolidArchive::pack(&files, 5).unwrap();
    let out = outputs(&packed, "all", None, false).unwrap();
    assert_eq!(
        out,
        vec![(parts(&["x"]), b"one".to_vec()), (parts(&["y"]), b"two".to_vec())]
    );
}

#[test]
fn one_file_is_extracted_under_its_stem() {
    let v = codec::compress(b"some text, some more text", 3).unwrap();
    let out = outputs(&v, "notes.txt", None, false).unwrap();
    assert_eq!(out, vec![(parts(&["notes.txt"]), b"some text, some more text".to_vec())]);
    let other = parts(&["other"]);
    assert!(outputs(&v, "notes.txt", Some(&other), false).unwrap().is_empty());
    assert_eq!(
        outputs(b"CPGX", "x", None, false),
        Err(SolidError::Codec(codec::Error::TooShort))
    );
}

#[test]
fn archives_are_opened_by_their_magic() {
    let v = three_files();
    assert_eq!(kind(&v), Kind::Solid);
    assert_eq!(
        members(&v, "test"),
        Ok(vec![
            ("a.txt".to_string(), 17),
            ("sub/b.bin".to_string(), 6),
            ("c.log".to_string(), 23)
        ])
    );
    let s = codec::compress(&[7u8; 300], 5).unwrap();
    assert_eq!(kind(&s), Kind::Single);
    assert_eq!(members(&s, "sevens"), Ok(vec![("sevens".to_string(), 300)]));
    assert_eq!(members(b"CPGC", "short"), Ok(vec![("short".to_string(), 0)]));
    assert_eq!(kind(b"PK\x03\x04"), Kind::Other);
    assert_eq!(kind(b"CPA"), Kind::Other);
    assert_eq!(members(b"PK\x03\x04", "zip"), Err(SolidError::BadMagic));
}

#[test]
fn verifying_tells_what_was_recovered() {
    let t = verify(&three_files()).unwrap();
    assert_eq!((t.files, t.bytes), (Some(3), 46));
    let t = verify(&codec::compress(b"abc", 1).unwrap()).unwrap();
    assert_eq!((t.files, t.bytes), (None, 3));
    assert_eq!(verify(b""), Err(SolidError::Codec(codec::Error::TooShort)));
    let mut bad = three_files();
    let last = bad.len() - 1;
    bad[last] ^= 0x55;
    bad.truncate(20);
    assert_eq!(verify(&bad), Err(SolidError::TruncatedEntry));
}

#[test]
fn extracting_can_be_cancelled() {
    let v = three_files();
    let cancelled = SolidError::Codec(codec::Error::Cancelled);
    let ctrl = Control::new();
    assert_eq!(SolidArchive::unpack_with_control(&v, &ctrl), SolidArchive::unpack(&v));
    assert_eq!(ctrl.bytes_done(), 46);
    assert_eq!(outputs_with_control(&v, "", None, false, &ctrl), outputs(&v, "", None, false));
    assert_eq!(verify_with_control(&v, &ctrl), verify(&v));
    ctrl.cancel();
    assert_eq!(SolidArchive::unpack_with_control(&v, &ctrl), Err(cancelled));
    assert_eq!(outputs_with_control(&v, "", None, false, &ctrl), Err(cancelled));
    assert_eq!(verify_with_control(&v, &ctrl), Err(cancelled));
}

#[test]
fn one_file_makes_a_single_archive() {
    let ctrl = Control::new();
    assert_eq!(create(&[], 5, &ctrl), Err(CreateError::Nothing));
    let one: [(&str, &[u8]); 1] = [("a", b"text")];
    let v = create(&one, 5, &ctrl).unwrap();
    assert_eq!(kind(&v), Kind::Single);
    assert_eq!(codec::decompress(&v).unwrap(), b"text");
    let two: [(&str, &[u8]); 2] = [("a", b"text"), ("b", b"more")];
    let v = create(&two, 5, &ctrl).unwrap();
    assert_eq!(kind(&v), Kind::Solid);
    ctrl.cancel();
    assert_eq!(create(&two, 5, &ctrl), Err(CreateError::Cancelled));
}

#[test]
fn the_menu_runs_the_program() {
    let s = settings("C:\\cpgc.exe");
    assert_eq!(s.len(), 19);
    assert_eq!(s[0].key, r"Software\Classes\CPGC.Archive");
    assert_eq!(s[0].text, "CPGC Archive");
    assert_eq!(s[1].text, r"C:\cpgc.exe,0");
    let text = |key: &str, name: &str| -> String {
        s.iter().find(|x| x.key == key && x.name == name).unwrap().text.clone()
    };
    assert_eq!(
        text(r"Software\Classes\CPGC.Archive\shell\open\command", ""),
        "\"C:\\cpgc.exe\" gui --open \"%1\""
    );
    assert_eq!(
        text(r"Software\Classes\CPGC.Archive\shell\extract\command", ""),
        "cmd /c \"\"C:\\cpgc.exe\" decompress \"%1\" & pause\""
    );
    assert_eq!(
        text(r"Software\Classes\CPGC.Archive\shell\test\command", ""),
        "cmd /c \"\"C:\\cpgc.exe\" verify \"%1\" & pause\""
    );
    assert_eq!(text(r"Software\Classes\.cpas", ""), "CPGC.Archive");
    assert_eq!(
        text(r"Software\Classes\Directory\shell\CPGCCompress", "Icon"),
        r"C:\cpgc.exe,0"
    );
}

#[test]
fn selections_are_sets_in_order() {
    let mut s = Selection::new();
    assert_eq!(s.len(), 0);
    for name in ["b", "\u{e9}", "a", "ab", "b"] {
        s.insert(name);
    }
    assert_eq!(s.len(), 4);
    assert_eq!(s.list(), &parts(&["a", "ab", "b", "\u{e9}"]));
    assert!(s.contains("ab") && !s.contains("abc"));
    s.toggle("ab");
    assert_eq!(s.list(), &parts(&["a", "b", "\u{e9}"]));
    s.toggle("ab");
    assert_eq!(s.list(), &parts(&["a", "ab", "b", "\u{e9}"]));
    s.retain(&parts(&["z", "b", "a"]));
    assert_eq!(s.list(), &parts(&["a", "b"]));
    assert!(s.covers(&parts(&["b", "a"])));
    assert!(!s.covers(&parts(&["b", "z"])));
    assert!(!s.covers(&Vec::new()));
    s.insert_all(&parts(&["z", "a"]));
    assert_eq!(s.list(), &parts(&["a", "b", "z"]));
    s.clear();
    assert!(s.list().is_empty());
}

#[test]
fn clicks_select_and_open() {
    assert_eq!(on_click(true, false, true, true), Action::Navigate);
    assert_eq!(on_click(false, true, false, true), Action::Open);
    assert_eq!(on_click(false, false, true, true), Action::Nothing);
    assert_eq!(on_click(true, false, true, false), Action::Toggle);
    assert_eq!(on_click(true, true, false, false), Action::Nothing);
}
