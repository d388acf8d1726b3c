//! Names of archives and of their members.
use vstd::prelude::*;
use vstd::string::*;

verus! {

// ---------------------------------------------------------------------------
// Archive names
// ---------------------------------------------------------------------------

/// `c` is the lower-case letter `l` in either case.
pub open spec fn is_letter(c: char, l: char) -> bool {
    c == l || c as u32 + 32 == l as u32
}

/// `s` ends in `.cpgc`, in any case.
pub open spec fn ends_cpgc(s: Seq<char>) -> bool {
    let n = s.len() as int;
    n >= 5 && s[n - 5] == '.' && is_letter(s[n - 4], 'c') && is_letter(s[n - 3], 'p') && is_letter(
        s[n - 2],
        'g',
    ) && is_letter(s[n - 1], 'c')
}

/// `s` ends in `.cpas`, in any case.
pub open spec fn ends_cpas(s: Seq<char>) -> bool {
    let n = s.len() as int;
    n >= 5 && s[n - 5] == '.' && is_letter(s[n - 4], 'c') && is_letter(s[n - 3], 'p') && is_letter(
        s[n - 2],
        'a',
    ) && is_letter(s[n - 1], 's')
}

/// `s` is the name of an archive.
pub open spec fn archive_name(s: Seq<char>) -> bool {
    ends_cpgc(s) || ends_cpas(s)
}

fn letter(c: char, l: char) -> (r: bool)
    ensures
        r == is_letter(c, l),
{
    c == l || c as u32 + 32 == l as u32
}

/// Whether a file name is that of an archive.
pub fn is_archive(name: &str) -> (r: bool)
    ensures
        r == archive_name(name@),
{
    let n: usize = name.unicode_len();
    if n < 5 {
        return false;
    }
    let a = name.get_char(n - 2);
    let b = name.get_char(n - 1);
    name.get_char(n - 5) == '.' && letter(name.get_char(n - 4), 'c') && letter(
        name.get_char(n - 3),
        'p',
    ) && (letter(a, 'g') && letter(b, 'c') || letter(a, 'a') && letter(b, 's'))
}

/// A file name without its archive extension, if it has one.
pub fn strip_ext(name: &str) -> (r: String)
    ensures
        r@ == (if archive_name(name@) {
            name@.take(name@.len() - 5)
        } else {
            name@
        }),
{
    if is_archive(name) {
        let n: usize = name.unicode_len();
        assert(name@.subrange(0, n - 5) =~= name@.take(n - 5));
        name.substring_char(0, n - 5).to_owned()
    } else {
        name.to_owned()
    }
}

/// The name of the archive of a file.
pub fn compressed_name(name: &str) -> (r: String)
    ensures
        r@ == name@ + ".cpgc"@,
{
    let mut out = name.to_owned();
    out.append(".cpgc");
    out
}

/// The name for what an archive holds: without the archive extension, or with `.out`
/// if it has none.
pub fn extracted_name(name: &str) -> (r: String)
    ensures
        r@ == (if archive_name(name@) {
            name@.take(name@.len() - 5)
        } else {
            name@ + ".out"@
        }),
{
    if is_archive(name) {
        strip_ext(name)
    } else {
        let mut out = name.to_owned();
        out.append(".out");
        out
    }
}

/// The name of a new archive, from what was asked for: `archive.cpgc` if nothing, and
/// always with an archive extension.
pub fn output_name(asked: &str) -> (r: String)
    ensures
        r@ == (if asked@.len() == 0 {
            "archive.cpgc"@
        } else if archive_name(asked@) {
            asked@
        } else {
            asked@ + ".cpgc"@
        }),
{
    if asked.unicode_len() == 0 {
        "archive.cpgc".to_owned()
    } else if is_archive(asked) {
        asked.to_owned()
    } else {
        compressed_name(asked)
    }
}

/// Stripping the extension undoes adding it.
pub proof fn strip_undoes_compress(name: Seq<char>)
    ensures
        archive_name(name + ".cpgc"@),
        (name + ".cpgc"@).take((name + ".cpgc"@).len() - 5) == name,
{
    reveal_strlit(".cpgc");
    let s = name + ".cpgc"@;
    assert(s.len() == name.len() + 5);
    assert(s.take(s.len() - 5) =~= name);
}

proof fn lemma_letter(c: char, l: char, u: char)
    requires
        u as u32 + 32 == l as u32,
    ensures
        is_letter(c, l) <==> c == l || c == u,
{
}

/// A name is that of an archive exactly if it ends in `.cpgc` or `.cpas`, in any mix of
/// cases.
pub proof fn archives_are_known_by_their_extension(stem: Seq<char>, e: Seq<char>)
    requires
        e.len() == 5,
    ensures
        e[0] != '.' ==> !archive_name(stem + e),
        e[1] != 'c' && e[1] != 'C' ==> !archive_name(stem + e),
        e[2] != 'p' && e[2] != 'P' ==> !archive_name(stem + e),
        e[3] != 'g' && e[3] != 'G' && e[3] != 'a' && e[3] != 'A' ==> !archive_name(stem + e),
        (e[3] == 'g' || e[3] == 'G') && e[4] != 'c' && e[4] != 'C' ==> !archive_name(stem + e),
        (e[3] == 'a' || e[3] == 'A') && e[4] != 's' && e[4] != 'S' ==> !archive_name(stem + e),
        e[0] == '.' && (e[1] == 'c' || e[1] == 'C') && (e[2] == 'p' || e[2] == 'P') && ((e[3] == 'g'
            || e[3] == 'G') && (e[4] == 'c' || e[4] == 'C') || (e[3] == 'a' || e[3] == 'A') && (e[4]
            == 's' || e[4] == 'S')) ==> archive_name(stem + e),
{
    let s = stem + e;
    let n = s.len() as int;
    assert(s[n - 5] == e[0] && s[n - 4] == e[1] && s[n - 3] == e[2] && s[n - 2] == e[3] && s[n - 1]
        == e[4]);
    lemma_letter(e[1], 'c', 'C');
    lemma_letter(e[2], 'p', 'P');
    lemma_letter(e[3], 'g', 'G');
    lemma_letter(e[3], 'a', 'A');
    lemma_letter(e[4], 'c', 'C');
    lemma_letter(e[4], 's', 'S');
}

/// Slashes only change direction: a path without backslashes comes back from Windows
/// writing, and nothing but slashes is touched.
pub proof fn slashes_turn_back(s: Seq<char>, i: int)
    requires
        0 <= i < s.len(),
    ensures
        replaced(s, '\\', '/').len() == s.len(),
        replaced(s, '\\', '/')[i] != '\\',
        s[i] != '\\' ==> replaced(s, '\\', '/')[i] == s[i],
        s[i] == '\\' ==> replaced(s, '\\', '/')[i] == '/',
        !s.contains('\\') ==> replaced(replaced(s, '/', '\\'), '\\', '/') == s,
{
    if !s.contains('\\') {
        let t = replaced(replaced(s, '/', '\\'), '\\', '/');
        assert forall|j: int| 0 <= j < s.len() implies #[trigger] t[j] == s[j] by {
            assert(s.contains(s[j]));
        }
        assert(t =~= s);
    }
}

/// The directory to extract an archive to, from what was asked for: `base` with
/// `_extracted` if nothing.
pub fn extract_dir(asked: &str, base: &str) -> (r: String)
    ensures
        r@ == (if asked@.len() == 0 {
            base@ + "_extracted"@
        } else {
            asked@
        }),
{
    if asked.unicode_len() == 0 {
        let mut out = base.to_owned();
        out.append("_extracted");
        out
    } else {
        asked.to_owned()
    }
}

/// `s` with every `from` replaced by `to`.
pub open spec fn replaced(s: Seq<char>, from: char, to: char) -> Seq<char> {
    s.map_values(|c: char| if c == from { to } else { c })
}

fn replace(s: &str, from: char, to: &str) -> (r: String)
    requires
        to@.len() == 1,
    ensures
        r@ == replaced(s@, from, to@[0]),
{
    let n: usize = s.unicode_len();
    let mut out = String::new();
    let mut i: usize = 0;
    assert(out@ =~= replaced(s@.take(0), from, to@[0]));
    while i < n
        invariant
            to@.len() == 1,
            n == s@.len(),
            i <= n,
            out@ == replaced(s@.take(i as int), from, to@[0]),
        decreases n - i,
    {
        let ghost was = out@;
        if s.get_char(i) == from {
            out.append(to);
        } else {
            out.append(s.substring_char(i, i + 1));
        }
        assert(out@ =~= replaced(s@.take(i + 1), from, to@[0]));
        i = i + 1;
    }
    assert(s@.take(n as int) =~= s@);
    out
}

/// A path as members are named: with `/` between its parts.
pub fn forward_slashes(path: &str) -> (r: String)
    ensures
        r@ == replaced(path@, '\\', '/'),
{
    proof {
        reveal_strlit("/");
    }
    replace(path, '\\', "/")
}

/// A path as Windows writes it: with `\` between its parts.
pub fn back_slashes(path: &str) -> (r: String)
    ensures
        r@ == replaced(path@, '/', '\\'),
{
    proof {
        reveal_strlit("\\");
    }
    replace(path, '/', "\\")
}

/// What kind of thing a directory entry is.
pub fn type_label(is_dir: bool, is_archive: bool) -> (r: &'static str)
    ensures
        r@ == (if is_dir {
            "Folder"@
        } else if is_archive {
            "CPGC Archive"@
        } else {
            "File"@
        }),
{
    if is_dir {
        "Folder"
    } else if is_archive {
        "CPGC Archive"
    } else {
        "File"
    }
}

/// A decimal digit.
pub open spec fn digit(d: int) -> Seq<char> {
    if d == 0 {
        "0"@
    } else if d == 1 {
        "1"@
    } else if d == 2 {
        "2"@
    } else if d == 3 {
        "3"@
    } else if d == 4 {
        "4"@
    } else if d == 5 {
        "5"@
    } else if d == 6 {
        "6"@
    } else if d == 7 {
        "7"@
    } else if d == 8 {
        "8"@
    } else {
        "9"@
    }
}

/// A number in decimal digits.
pub open spec fn decimal(n: int) -> Seq<char>
    decreases n,
{
    if n < 10 {
        digit(n)
    } else {
        decimal(n / 10) + digit(n % 10)
    }
}

fn write_digit(d: u8) -> (r: &'static str)
    requires
        d < 10,
    ensures
        r@ == digit(d as int),
{
    if d == 0 {
        "0"
    } else if d == 1 {
        "1"
    } else if d == 2 {
        "2"
    } else if d == 3 {
        "3"
    } else if d == 4 {
        "4"
    } else if d == 5 {
        "5"
    } else if d == 6 {
        "6"
    } else if d == 7 {
        "7"
    } else if d == 8 {
        "8"
    } else {
        "9"
    }
}

fn write_decimal(n: u8) -> (r: String)
    ensures
        r@ == decimal(n as int),
    decreases n,
{
    if n < 10 {
        write_digit(n).to_owned()
    } else {
        let mut r = write_decimal(n / 10);
        r.append(write_digit(n % 10));
        r
    }
}

/// A level as it is offered for choice: its number, and what the outstanding ones are
/// good for.
pub fn level_label(level: u8) -> (r: String)
    ensures
        r@ == (if level == 1 {
            "1 — fastest"@
        } else if level == 5 {
            "5 — default"@
        } else if level == 9 {
            "9 — best ratio"@
        } else {
            decimal(level as int)
        }),
{
    if level == 1 {
        "1 — fastest".to_owned()
    } else if level == 5 {
        "5 — default".to_owned()
    } else if level == 9 {
        "9 — best ratio".to_owned()
    } else {
        write_decimal(level)
    }
}

// ---------------------------------------------------------------------------
// Member names
// ---------------------------------------------------------------------------

/// A character that separates the parts of a path.
pub open spec fn separator(c: char, backslash: bool) -> bool {
    c == '/' || backslash && c == '\\'
}

/// An ASCII letter.
pub open spec fn ascii_letter(c: char) -> bool {
    'a' <= c <= 'z' || 'A' <= c <= 'Z'
}

/// A drive prefix, such as `C:`, stands at the start.
pub open spec fn drive(s: Seq<char>) -> bool {
    s.len() >= 2 && ascii_letter(s[0]) && s[1] == ':'
}

/// A part that names a file or directory: not empty, not `.` and not `..`. Where
/// backslashes separate, a part with a drive prefix names something else again.
pub open spec fn normal_part(s: Seq<char>, backslash: bool) -> bool {
    s.len() > 0 && s != seq!['.'] && s != seq!['.', '.'] && !(backslash && drive(s))
}

/// End of the part that starts at `i`.
pub open spec fn part_end(s: Seq<char>, i: int, backslash: bool) -> int
    decreases s.len() - i,
{
    if 0 <= i < s.len() && !separator(s[i], backslash) {
        part_end(s, i + 1, backslash)
    } else {
        i
    }
}

pub proof fn lemma_part_end(s: Seq<char>, i: int, backslash: bool)
    requires
        0 <= i <= s.len(),
    ensures
        i <= part_end(s, i, backslash) <= s.len(),
        part_end(s, i, backslash) < s.len() ==> separator(
            s[part_end(s, i, backslash)],
            backslash,
        ),
        forall|j: int|
            i <= j < part_end(s, i, backslash) ==> !separator(#[trigger] s[j], backslash),
    decreases s.len() - i,
{
    if i < s.len() && !separator(s[i], backslash) {
        lemma_part_end(s, i + 1, backslash);
    }
}

/// End of the part that starts at `i` in a path with nothing but backslashes between
/// its parts.
pub open spec fn back_end(s: Seq<char>, i: int) -> int
    decreases s.len() - i,
{
    if 0 <= i < s.len() && s[i] != '\\' {
        back_end(s, i + 1)
    } else {
        i
    }
}

proof fn lemma_back_end(s: Seq<char>, i: int)
    requires
        0 <= i <= s.len(),
    ensures
        i <= back_end(s, i) <= s.len(),
    decreases s.len() - i,
{
    if i < s.len() && s[i] != '\\' {
        lemma_back_end(s, i + 1);
    }
}

/// A path that is taken literally starts with `\\?\`.
pub open spec fn literal(s: Seq<char>) -> bool {
    s.len() >= 4 && s[0] == '\\' && s[1] == '\\' && s[2] == '?' && s[3] == '\\'
}

/// Where the prefix of a path ends: `\\?\` with the part behind it, or, if that is
/// `UNC`, with the server and the share behind it; `\\server\share`, with slashes of
/// either kind; or a drive and a colon. Without a prefix it is 0.
pub open spec fn prefix_end(s: Seq<char>) -> int {
    if literal(s) {
        let a = back_end(s, 4);
        if s.subrange(4, a) == "UNC"@ && a < s.len() {
            let b = back_end(s, a + 1);
            if b < s.len() {
                back_end(s, b + 1)
            } else {
                b
            }
        } else {
            a
        }
    } else if s.len() >= 2 && separator(s[0], true) && separator(s[1], true) {
        let a = part_end(s, 2, true);
        let b = part_end(s, a + 1, true);
        if 2 < a < s.len() && a + 1 < b {
            b
        } else {
            0
        }
    } else if drive(s) {
        2
    } else {
        0
    }
}

/// Where the parts of a path start.
pub open spec fn parts_start(s: Seq<char>, backslash: bool) -> int {
    if backslash {
        prefix_end(s)
    } else {
        0
    }
}

proof fn lemma_prefix_end(s: Seq<char>)
    ensures
        0 <= prefix_end(s) <= s.len(),
{
    if literal(s) {
        lemma_back_end(s, 4);
        let a = back_end(s, 4);
        if a < s.len() {
            lemma_back_end(s, a + 1);
            let b = back_end(s, a + 1);
            if b < s.len() {
                lemma_back_end(s, b + 1);
            }
        }
    } else if s.len() >= 2 {
        lemma_part_end(s, 2, true);
        let a = part_end(s, 2, true);
        if a < s.len() {
            lemma_part_end(s, a + 1, true);
        }
    }
}

/// The parts of a name from `i` on that name files or directories.
pub open spec fn parts_from(s: Seq<char>, i: int, backslash: bool) -> Seq<Seq<char>>
    decreases s.len() + 1 - i,
{
    if i < 0 || i >= s.len() {
        Seq::empty()
    } else {
        proof {
            lemma_part_end(s, i, backslash);
        }
        let end = part_end(s, i, backslash);
        let part = s.subrange(i, end);
        let rest = parts_from(s, end + 1, backslash);
        if normal_part(part, backslash) {
            seq![part] + rest
        } else {
            rest
        }
    }
}

/// The path of a member below the directory it is extracted to.
pub open spec fn safe_parts(s: Seq<char>, backslash: bool) -> Seq<Seq<char>> {
    let p = parts_from(s, parts_start(s, backslash), backslash);
    if p.len() == 0 {
        seq!["file"@]
    } else {
        p
    }
}

/// A part cannot lead out of the directory it is in.
pub open spec fn harmless(p: Seq<char>, backslash: bool) -> bool {
    normal_part(p, backslash) && forall|i: int| 0 <= i < p.len() ==> !separator(#[trigger] p[i], backslash)
}

proof fn lemma_parts_harmless(s: Seq<char>, i: int, backslash: bool)
    requires
        0 <= i,
    ensures
        forall|k: int|
            0 <= k < parts_from(s, i, backslash).len() ==> harmless(
                #[trigger] parts_from(s, i, backslash)[k],
                backslash,
            ),
    decreases s.len() + 1 - i,
{
    if i < s.len() {
        lemma_part_end(s, i, backslash);
        let end = part_end(s, i, backslash);
        let part = s.subrange(i, end);
        let rest = parts_from(s, end + 1, backslash);
        lemma_parts_harmless(s, end + 1, backslash);
        if normal_part(part, backslash) {
            assert forall|j: int| 0 <= j < part.len() implies !separator(
                #[trigger] part[j],
                backslash,
            ) by {
                assert(part[j] == s[i + j]);
            }
            let all = seq![part] + rest;
            assert forall|k: int| 0 <= k < all.len() implies harmless(
                #[trigger] all[k],
                backslash,
            ) by {
                if k > 0 {
                    assert(all[k] == rest[k - 1]);
                }
            }
        }
    }
}

/// Whatever a member is called, it is extracted below the directory asked for: its
/// path has at least one part, and none is empty, `.`, `..` or holds a separator, nor,
/// where backslashes separate, starts with a drive.
pub proof fn members_stay_inside(s: Seq<char>, backslash: bool)
    ensures
        safe_parts(s, backslash).len() > 0,
        forall|k: int|
            0 <= k < safe_parts(s, backslash).len() ==> harmless(
                #[trigger] safe_parts(s, backslash)[k],
                backslash,
            ),
{
    lemma_prefix_end(s);
    lemma_parts_harmless(s, parts_start(s, backslash), backslash);
    reveal_strlit("file");
    let f = "file"@;
    assert(f.len() == 4);
    assert(f != seq!['.'] && f != seq!['.', '.']);
    assert(f[0] == 'f' && f[1] == 'i' && f[2] == 'l' && f[3] == 'e');
}

/// Parts with a slash between each two.
pub open spec fn slashed(parts: Seq<Seq<char>>) -> Seq<char>
    decreases parts.len(),
{
    if parts.len() == 0 {
        Seq::empty()
    } else if parts.len() == 1 {
        parts[0]
    } else {
        parts[0] + seq!['/'] + slashed(parts.drop_first())
    }
}

/// No part holds a separator.
pub open spec fn separate(parts: Seq<Seq<char>>, backslash: bool) -> bool {
    forall|k: int, j: int|
        0 <= k < parts.len() && 0 <= j < parts[k].len() ==> !separator(
            #[trigger] parts[k][j],
            backslash,
        )
}

proof fn lemma_part_end_is(s: Seq<char>, i: int, e: int, backslash: bool)
    requires
        0 <= i <= e <= s.len(),
        forall|j: int| i <= j < e ==> !separator(#[trigger] s[j], backslash),
        e < s.len() ==> separator(s[e], backslash),
    ensures
        part_end(s, i, backslash) == e,
    decreases e - i,
{
    if i < e {
        assert(!separator(s[i], backslash));
        lemma_part_end_is(s, i + 1, e, backslash);
    }
}

/// The parts that name files or directories, in order.
pub open spec fn kept_parts(parts: Seq<Seq<char>>, backslash: bool) -> Seq<Seq<char>> {
    parts.filter(|p: Seq<char>| normal_part(p, backslash))
}

proof fn lemma_kept_first(parts: Seq<Seq<char>>, backslash: bool)
    requires
        parts.len() > 0,
    ensures
        kept_parts(parts, backslash) == (if normal_part(parts[0], backslash) {
            seq![parts[0]] + kept_parts(parts.drop_first(), backslash)
        } else {
            kept_parts(parts.drop_first(), backslash)
        }),
{
    let f = |p: Seq<char>| normal_part(p, backslash);
    let rest = parts.drop_first();
    assert(parts =~= seq![parts[0]] + rest);
    Seq::filter_distributes_over_add(seq![parts[0]], rest, f);
    let one = seq![parts[0]];
    assert(one.drop_last() =~= Seq::empty());
    assert(one.last() == parts[0]);
    reveal_with_fuel(Seq::filter, 3);
    assert(Seq::<Seq<char>>::empty().push(parts[0]) =~= one);
    assert(Seq::<Seq<char>>::empty() + rest.filter(f) =~= rest.filter(f));
}

proof fn lemma_slashed(s: Seq<char>, i: int, parts: Seq<Seq<char>>, backslash: bool)
    requires
        0 <= i <= s.len(),
        parts.len() > 0,
        separate(parts, backslash),
        s.skip(i) == slashed(parts),
    ensures
        parts_from(s, i, backslash) == kept_parts(parts, backslash),
    decreases parts.len(),
{
    let p = parts[0];
    let rest = parts.drop_first();
    let e = i + p.len();
    let t = s.skip(i);
    lemma_kept_first(parts, backslash);
    assert(e <= s.len());
    assert forall|j: int| i <= j < e implies !separator(#[trigger] s[j], backslash) by {
        assert(s[j] == t[j - i]);
        assert(parts[0][j - i] == s[j]);
    }
    assert(s.subrange(i, e) =~= p) by {
        assert forall|j: int| 0 <= j < p.len() implies s[i + j] == p[j] by {
            assert(t[j] == s[i + j]);
        }
    }
    if parts.len() == 1 {
        assert(e == s.len());
        lemma_part_end_is(s, i, e, backslash);
        assert(rest =~= Seq::empty());
        reveal_with_fuel(Seq::filter, 1);
        assert(kept_parts(rest, backslash) =~= Seq::empty());
        assert(parts_from(s, e + 1, backslash) =~= Seq::empty());
        assert(seq![p] + Seq::<Seq<char>>::empty() =~= seq![p]);
        if i == s.len() {
            assert(p.len() == 0);
        }
    } else {
        assert(t[p.len() as int] == '/');
        assert(s[e] == t[p.len() as int]);
        lemma_part_end_is(s, i, e, backslash);
        assert(s.skip(e + 1) =~= slashed(rest)) by {
            assert(t.skip(p.len() as int + 1) =~= slashed(rest));
            assert(s.skip(e + 1) =~= t.skip(p.len() as int + 1));
        }
        assert(separate(rest, backslash)) by {
            assert forall|k: int, j: int|
                0 <= k < rest.len() && 0 <= j < rest[k].len() implies !separator(
                #[trigger] rest[k][j],
                backslash,
            ) by {
                assert(rest[k] == parts[k + 1]);
                assert(!separator(parts[k + 1][j], backslash));
            }
        }
        lemma_slashed(s, e + 1, rest, backslash);
    }
}

/// A member keeps its path: of the parts between the slashes of its name all are kept,
/// in order, but the empty ones, `.` and `..`. Where nothing is left it is called
/// `file`.
pub proof fn members_keep_their_paths(parts: Seq<Seq<char>>)
    requires
        parts.len() > 0,
        separate(parts, false),
    ensures
        ({
            let kept = parts.filter(
                |p: Seq<char>| p.len() > 0 && p != seq!['.'] && p != seq!['.', '.'],
            );
            safe_parts(slashed(parts), false) == (if kept.len() == 0 {
                seq!["file"@]
            } else {
                kept
            })
        }),
{
    let s = slashed(parts);
    assert(s.skip(0) =~= s);
    lemma_slashed(s, 0, parts, false);
    let f = |p: Seq<char>| p.len() > 0 && p != seq!['.'] && p != seq!['.', '.'];
    let g = |p: Seq<char>| normal_part(p, false);
    assert(f =~= g);
}

/// A clean relative name is kept whole: a member named by harmless parts with slashes
/// between them is extracted to exactly these parts.
pub proof fn clean_names_are_kept(parts: Seq<Seq<char>>, backslash: bool)
    requires
        parts.len() > 0,
        forall|k: int| 0 <= k < parts.len() ==> harmless(#[trigger] parts[k], backslash),
    ensures
        safe_parts(slashed(parts), backslash) == parts,
{
    let s = slashed(parts);
    let p = parts[0];
    assert(harmless(p, backslash));
    assert(separate(parts, backslash)) by {
        assert forall|k: int, j: int|
            0 <= k < parts.len() && 0 <= j < parts[k].len() implies !separator(
            #[trigger] parts[k][j],
            backslash,
        ) by {
            assert(harmless(parts[k], backslash));
        }
    }
    assert(s.len() >= p.len() && forall|j: int| 0 <= j < p.len() ==> s[j] == p[j]);
    if backslash {
        assert(!separator(p[0], true));
        assert(s[0] == p[0]);
        if drive(s) {
            if p.len() == 1 && parts.len() > 1 {
                assert(s[1] == '/');
            } else {
                assert(s[1] == p[1]);
            }
        }
        assert(prefix_end(s) == 0);
    }
    assert(s.skip(0) =~= s);
    lemma_slashed(s, 0, parts, backslash);
    lemma_all_kept(parts, backslash);
}

proof fn lemma_all_kept(parts: Seq<Seq<char>>, backslash: bool)
    requires
        forall|k: int| 0 <= k < parts.len() ==> normal_part(#[trigger] parts[k], backslash),
    ensures
        kept_parts(parts, backslash) == parts,
    decreases parts.len(),
{
    reveal_with_fuel(Seq::filter, 2);
    if parts.len() > 0 {
        lemma_all_kept(parts.drop_last(), backslash);
        assert(normal_part(parts[parts.len() - 1], backslash));
        assert(parts.drop_last().push(parts.last()) =~= parts);
    } else {
        assert(kept_parts(parts, backslash) =~= parts);
    }
}

/// Members with different clean names are extracted to different paths.
pub proof fn clean_names_stay_apart(a: Seq<Seq<char>>, b: Seq<Seq<char>>, backslash: bool)
    requires
        a.len() > 0,
        b.len() > 0,
        forall|k: int| 0 <= k < a.len() ==> harmless(#[trigger] a[k], backslash),
        forall|k: int| 0 <= k < b.len() ==> harmless(#[trigger] b[k], backslash),
        slashed(a) != slashed(b),
    ensures
        safe_parts(slashed(a), backslash) != safe_parts(slashed(b), backslash),
{
    clean_names_are_kept(a, backslash);
    clean_names_are_kept(b, backslash);
}

/// The strings behind a vector.
pub open spec fn strings(v: Seq<String>) -> Seq<Seq<char>> {
    v.map_values(|s: String| s@)
}

fn has_drive(s: &str) -> (r: bool)
    ensures
        r == drive(s@),
{
    if s.unicode_len() < 2 {
        return false;
    }
    let c = s.get_char(0);
    ('a' <= c && c <= 'z' || 'A' <= c && c <= 'Z') && s.get_char(1) == ':'
}

fn is_normal(s: &str, backslash: bool) -> (r: bool)
    ensures
        r == normal_part(s@, backslash),
{
    let n: usize = s.unicode_len();
    if n == 0 {
        return false;
    }
    if n == 1 {
        let dot = s.get_char(0) == '.';
        assert((s@ =~= seq!['.']) == dot);
        return !dot;
    }
    if n == 2 && s.get_char(0) == '.' && s.get_char(1) == '.' {
        assert(s@ =~= seq!['.', '.']);
        return false;
    }
    !(backslash && has_drive(s))
}

fn find_part_end(s: &str, i: usize, backslash: bool) -> (r: usize)
    requires
        i <= s@.len(),
    ensures
        r == part_end(s@, i as int, backslash),
        i <= r <= s@.len(),
{
    let n: usize = s.unicode_len();
    let mut j: usize = i;
    while j < n
        invariant
            n == s@.len(),
            i <= j <= n,
            part_end(s@, j as int, backslash) == part_end(s@, i as int, backslash),
        decreases n - j,
    {
        let c = s.get_char(j);
        if c == '/' || backslash && c == '\\' {
            return j;
        }
        j = j + 1;
    }
    j
}

fn find_back_end(s: &str, i: usize) -> (r: usize)
    requires
        i <= s@.len(),
    ensures
        r == back_end(s@, i as int),
        i <= r <= s@.len(),
{
    let n: usize = s.unicode_len();
    let mut j: usize = i;
    while j < n
        invariant
            n == s@.len(),
            i <= j <= n,
            back_end(s@, j as int) == back_end(s@, i as int),
        decreases n - j,
    {
        if s.get_char(j) == '\\' {
            return j;
        }
        j = j + 1;
    }
    j
}

fn is_separator(c: char) -> (r: bool)
    ensures
        r == separator(c, true),
{
    c == '/' || c == '\\'
}

fn is_unc(s: &str) -> (r: bool)
    ensures
        r == (s@ == "UNC"@),
{
    proof {
        reveal_strlit("UNC");
    }
    if s.unicode_len() != 3 {
        return false;
    }
    let same = s.get_char(0) == 'U' && s.get_char(1) == 'N' && s.get_char(2) == 'C';
    assert((s@ =~= "UNC"@) == same);
    same
}

/// Where the prefix of a path ends.
fn find_prefix_end(s: &str) -> (r: usize)
    ensures
        r == prefix_end(s@),
        r <= s@.len(),
{
    let n: usize = s.unicode_len();
    if n >= 4 && s.get_char(0) == '\\' && s.get_char(1) == '\\' && s.get_char(2) == '?'
        && s.get_char(3) == '\\' {
        let a = find_back_end(s, 4);
        if a >= n || !is_unc(s.substring_char(4, a)) {
            return a;
        }
        let b = find_back_end(s, a + 1);
        if b < n {
            find_back_end(s, b + 1)
        } else {
            b
        }
    } else if n >= 2 && is_separator(s.get_char(0)) && is_separator(s.get_char(1)) {
        let a = find_part_end(s, 2, true);
        if a == 2 || a >= n {
            return 0;
        }
        let b = find_part_end(s, a + 1, true);
        if b > a + 1 {
            b
        } else {
            0
        }
    } else if has_drive(s) {
        2
    } else {
        0
    }
}

/// The parts of the path of a member below the directory it is extracted to. Leading
/// separators, `.` and `..` are dropped, and where backslashes separate, so are a
/// leading prefix and parts with a drive.
pub fn sanitize_rel(name: &str, backslash: bool) -> (r: Vec<String>)
    ensures
        strings(r@) == safe_parts(name@, backslash),
{
    let ghost s = name@;
    let n: usize = name.unicode_len();
    let mut out: Vec<String> = Vec::new();
    let mut i: usize = if backslash {
        find_prefix_end(name)
    } else {
        0
    };
    let ghost goal = parts_from(s, i as int, backslash);
    let mut end: bool = i == n;
    assert(strings(out@) + goal =~= goal);
    while i < n && !end
        invariant
            n == s.len(),
            s == name@,
            i <= n,
            end ==> i == n,
            strings(out@) + parts_from(s, i as int, backslash) == goal,
        decreases n - i,
    {
        let j = find_part_end(name, i, backslash);
        let part = name.substring_char(i, j);
        let ghost was = strings(out@);
        let ghost rest = parts_from(s, j + 1, backslash);
        if is_normal(part, backslash) {
            out.push(part.to_owned());
            assert(strings(out@) =~= was.push(part@));
            assert(was + (seq![part@] + rest) =~= strings(out@) + rest);
        }
        if j >= n {
            assert(rest =~= Seq::empty());
            assert(parts_from(s, n as int, backslash) =~= Seq::empty());
            i = n;
            end = true;
        } else {
            i = j + 1;
        }
    }
    assert(parts_from(s, i as int, backslash) =~= Seq::empty());
    assert(strings(out@) + Seq::<Seq<char>>::empty() =~= strings(out@));
    if out.len() == 0 {
        out.push("file".to_owned());
        assert(strings(out@) =~= seq!["file"@]);
    }
    out
}

} // verus!
