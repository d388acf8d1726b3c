//! Opening, verifying and extracting archives of either kind.
use vstd::prelude::*;
use crate::archive::solid;
use crate::archive::solid::{File, SolidArchive, SolidError};
use crate::bytes;
use crate::cm::control;
use crate::cm::control::Control;
use crate::codec;
use crate::names;

verus! {

/// What a file is, by its first bytes.
#[derive(Clone, Copy, Debug, PartialEq, Eq, Structural)]
pub enum Kind {
    /// A solid archive of many files.
    Solid,
    /// An archive of one file.
    Single,
    /// Something else.
    Other,
}

/// What `v` is, by its first bytes.
pub open spec fn kind_of(v: Seq<u8>) -> Kind {
    if v.len() >= 4 && v.take(4) == solid::magic() {
        Kind::Solid
    } else if v.len() >= 4 && v.take(4) == codec::magic() {
        Kind::Single
    } else {
        Kind::Other
    }
}

/// What a file is, by its first bytes.
pub fn kind(v: &[u8]) -> (r: Kind)
    ensures
        r == kind_of(v@),
{
    if v.len() < 4 {
        return Kind::Other;
    }
    let s = [67u8, 80, 65, 83];
    let c = [67u8, 80, 71, 67];
    assert(s@ =~= solid::magic());
    assert(c@ =~= codec::magic());
    assert(v@.subrange(0, 4) =~= v@.take(4));
    if bytes::same_bytes(&v[0..4], &s) {
        Kind::Solid
    } else if bytes::same_bytes(&v[0..4], &c) {
        Kind::Single
    } else {
        Kind::Other
    }
}

// ---------------------------------------------------------------------------
// Listing
// ---------------------------------------------------------------------------

/// What opening an archive shows: the members with their sizes. An archive of one file
/// shows that file under the name `stem`.
pub open spec fn members_of(v: Seq<u8>, stem: Seq<char>) -> Result<
    Seq<solid::Listed>,
    SolidError,
> {
    match kind_of(v) {
        Kind::Solid => match solid::listing(v) {
            Ok((l, _)) => Ok(l),
            Err(e) => Err(e),
        },
        Kind::Single => {
            let size = if v.len() >= 14 { bytes::field(v, 6, 8) as u64 } else { 0 };
            Ok(seq![(stem, size)])
        },
        Kind::Other => Err(SolidError::BadMagic),
    }
}

/// The members of an archive with their sizes, without decompressing.
pub fn members(v: &[u8], stem: &str) -> (r: Result<Vec<(String, u64)>, SolidError>)
    ensures
        (match r {
            Ok(l) => Ok(solid::listed_of(l@)),
            Err(e) => Err(e),
        }) == members_of(v@, stem@),
{
    match kind(v) {
        Kind::Solid => SolidArchive::list(v),
        Kind::Single => {
            proof {
                bytes::lemma_widths();
            }
            let size: u64 = if v.len() >= 14 {
                bytes::read_le(v, 6, 8)
            } else {
                0
            };
            let mut l: Vec<(String, u64)> = Vec::new();
            l.push((stem.to_owned(), size));
            assert(solid::listed_of(l@) =~= seq![(stem@, size)]);
            Ok(l)
        },
        Kind::Other => Err(SolidError::BadMagic),
    }
}

/// An archive of one file starts with "CPGC", a solid one with "CPAS".
pub proof fn archives_are_recognized(files: Seq<File>, d: Seq<u8>, level: u8, v: Seq<u8>)
    ensures
        codec::compressed(d, level, v) ==> kind_of(v) == Kind::Single && v.take(4) == seq![
            67u8,
            80,
            71,
            67,
        ],
        solid::packed(files, level, v) ==> kind_of(v) == Kind::Solid && v.take(4) == seq![
            67u8,
            80,
            65,
            83,
        ],
{
    assert(seq![67u8, 80, 71, 67][2] == 71);
    assert(seq![67u8, 80, 65, 83][2] == 65);
    if codec::compressed(d, level, v) {
        assert(v.take(4) =~= seq![67u8, 80, 71, 67]);
    }
    if solid::packed(files, level, v) {
        assert(v.take(4) =~= seq![67u8, 80, 65, 83]);
    }
}

/// Opening an archive of one file shows that file, with its length.
pub proof fn single_members_are_true(d: Seq<u8>, level: u8, v: Seq<u8>, stem: Seq<char>)
    requires
        codec::compressed(d, level, v),
        codec::block_count(d.len() as int) <= u32::MAX,
        codec::raw_bytes(d, level).len() <= u32::MAX,
        d.len() <= usize::MAX,
    ensures
        members_of(v, stem) == Ok::<Seq<solid::Listed>, SolidError>(seq![(stem, d.len() as u64)]),
{
    archives_are_recognized(Seq::empty(), d, level, v);
    codec::info_is_true(d, level, v);
}

/// Opening a solid archive shows every file that was packed, in order, with its length.
pub proof fn solid_members_are_true(files: Seq<File>, level: u8, v: Seq<u8>, stem: Seq<char>)
    requires
        solid::packed(files, level, v),
        solid::fits(files),
    ensures
        members_of(v, stem) == Ok::<Seq<solid::Listed>, SolidError>(
            Seq::new(files.len(), |i: int| (files[i].0, files[i].1.len() as u64)),
        ),
{
    archives_are_recognized(files, Seq::empty(), level, v);
    solid::list_is_true(files, level, v);
    assert(solid::listed(files) =~= Seq::new(
        files.len(),
        |i: int| (files[i].0, files[i].1.len() as u64),
    ));
}

// ---------------------------------------------------------------------------
// Extracting
// ---------------------------------------------------------------------------

/// A file to write: the parts of its path, and its contents.
pub type Output = (Seq<Seq<char>>, Seq<u8>);

/// A member is wanted: everything is, unless there is a selection.
pub open spec fn wants(wanted: Option<Seq<Seq<char>>>, name: Seq<char>) -> bool {
    match wanted {
        Some(w) => w.contains(name),
        None => true,
    }
}

/// The first `k` files as far as they are wanted, each with a path that stays below the
/// directory it is extracted to.
pub open spec fn chosen(
    files: Seq<File>,
    k: int,
    wanted: Option<Seq<Seq<char>>>,
    backslash: bool,
) -> Seq<Output>
    decreases k,
{
    if k <= 0 {
        Seq::empty()
    } else {
        let f = files[k - 1];
        let front = chosen(files, k - 1, wanted, backslash);
        if wants(wanted, f.0) {
            front.push((names::safe_parts(f.0, backslash), f.1))
        } else {
            front
        }
    }
}

/// The files that extracting an archive writes. An archive of one file writes it under
/// the name `stem`.
pub open spec fn outputs_of(
    v: Seq<u8>,
    stem: Seq<char>,
    wanted: Option<Seq<Seq<char>>>,
    backslash: bool,
) -> Result<Seq<Output>, SolidError> {
    if kind_of(v) == Kind::Solid {
        match solid::unpacked(v) {
            Ok(files) => Ok(chosen(files, files.len() as int, wanted, backslash)),
            Err(e) => Err(e),
        }
    } else {
        match codec::restored(v) {
            Ok(d) => if wants(wanted, stem) {
                Ok(seq![(seq![stem], d)])
            } else {
                Ok(Seq::empty())
            },
            Err(e) => Err(SolidError::Codec(e)),
        }
    }
}

/// The control was heeded while an archive was read.
pub open spec fn read_under(v: Seq<u8>, ctrl: Option<&Control>) -> bool {
    if kind_of(v) == Kind::Solid {
        solid::read_under(v, ctrl)
    } else {
        codec::read_under(v, ctrl)
    }
}

/// Extracting an archive gets as far as the segments of its payload.
pub open spec fn reads_segments(v: Seq<u8>) -> bool {
    if kind_of(v) == Kind::Solid {
        solid::reads_segments(v)
    } else {
        codec::reads_segments(v)
    }
}

/// The outputs behind a vector.
pub open spec fn outputs_view(l: Seq<(Vec<String>, Vec<u8>)>) -> Seq<Output> {
    l.map_values(|o: (Vec<String>, Vec<u8>)| (names::strings(o.0@), o.1@))
}

/// The selection behind a vector.
pub open spec fn wanted_view(w: Option<&Vec<String>>) -> Option<Seq<Seq<char>>> {
    match w {
        Some(v) => Some(names::strings(v@)),
        None => None,
    }
}

fn unpack_any(v: &[u8], ctrl: Option<&Control>) -> (r: Result<Vec<(String, Vec<u8>)>, SolidError>)
    ensures
        if solid::cancelled(r) {
            solid::reads_segments(v@) && control::stopped(ctrl)
        } else {
            solid::seen(r) == solid::unpacked(v@) && solid::read_under(v@, ctrl)
        },
{
    match ctrl {
        Some(c) => SolidArchive::unpack_with_control(v, c),
        None => SolidArchive::unpack(v),
    }
}

fn decompress_any(v: &[u8], ctrl: Option<&Control>) -> (r: Result<Vec<u8>, codec::Error>)
    ensures
        match r {
            Err(codec::Error::Cancelled) => codec::reads_segments(v@) && control::stopped(ctrl),
            _ => codec::seen(r) == codec::restored(v@) && codec::read_under(v@, ctrl),
        },
{
    match ctrl {
        Some(c) => codec::decompress_with_control(v, c),
        None => codec::decompress(v),
    }
}

fn is_wanted(wanted: Option<&Vec<String>>, name: &String) -> (r: bool)
    ensures
        r == wants(wanted_view(wanted), name@),
{
    match wanted {
        None => true,
        Some(w) => {
            let ghost all = names::strings(w@);
            let mut i: usize = 0;
            while i < w.len()
                invariant
                    i <= w@.len(),
                    wanted == Some(w),
                    all == names::strings(w@),
                    forall|j: int| 0 <= j < i ==> #[trigger] all[j] != name@,
                decreases w@.len() - i,
            {
                if w[i] == *name {
                    assert(all[i as int] == name@);
                    return true;
                }
                i = i + 1;
            }
            false
        },
    }
}

/// The outputs in a result.
pub open spec fn outputs_seen(r: Result<Vec<(Vec<String>, Vec<u8>)>, SolidError>) -> Result<
    Seq<Output>,
    SolidError,
> {
    match r {
        Ok(l) => Ok(outputs_view(l@)),
        Err(e) => Err(e),
    }
}

/// The files that extracting an archive writes, as far as they are wanted.
pub fn outputs(v: &[u8], stem: &str, wanted: Option<&Vec<String>>, backslash: bool) -> (r: Result<
    Vec<(Vec<String>, Vec<u8>)>,
    SolidError,
>)
    ensures
        outputs_seen(r) == outputs_of(v@, stem@, wanted_view(wanted), backslash),
        !solid::cancelled(r),
{
    outputs_watched(v, stem, wanted, backslash, None)
}

/// The files that extracting an archive writes, with a handle to watch and cancel the
/// job.
pub fn outputs_with_control(
    v: &[u8],
    stem: &str,
    wanted: Option<&Vec<String>>,
    backslash: bool,
    ctrl: &Control,
) -> (r: Result<Vec<(Vec<String>, Vec<u8>)>, SolidError>)
    ensures
        if solid::cancelled(r) {
            reads_segments(v@) && ctrl.found(true)
        } else {
            outputs_seen(r) == outputs_of(v@, stem@, wanted_view(wanted), backslash)
                && read_under(v@, Some(ctrl))
        },
{
    outputs_watched(v, stem, wanted, backslash, Some(ctrl))
}

fn outputs_watched(
    v: &[u8],
    stem: &str,
    wanted: Option<&Vec<String>>,
    backslash: bool,
    ctrl: Option<&Control>,
) -> (r: Result<Vec<(Vec<String>, Vec<u8>)>, SolidError>)
    ensures
        if solid::cancelled(r) {
            reads_segments(v@) && control::stopped(ctrl)
        } else {
            outputs_seen(r) == outputs_of(v@, stem@, wanted_view(wanted), backslash)
                && read_under(v@, ctrl)
        },
{
    let ghost w = wanted_view(wanted);
    let mut out: Vec<(Vec<String>, Vec<u8>)> = Vec::new();
    if kind(v) == Kind::Solid {
        let files = match unpack_any(v, ctrl) {
            Ok(f) => f,
            Err(e) => {
                return Err(e);
            },
        };
        let ghost fs = solid::owned_files(files@);
        assert(outputs_view(out@) =~= chosen(fs, 0, w, backslash));
        let mut i: usize = 0;
        while i < files.len()
            invariant
                i <= files@.len(),
                fs == solid::owned_files(files@),
                w == wanted_view(wanted),
                read_under(v@, ctrl),
                outputs_view(out@) == chosen(fs, i as int, w, backslash),
            decreases files@.len() - i,
        {
            assert(fs[i as int] == (files@[i as int].0@, files@[i as int].1@));
            if is_wanted(wanted, &files[i].0) {
                let parts = names::sanitize_rel(files[i].0.as_str(), backslash);
                let mut content: Vec<u8> = Vec::new();
                content.extend_from_slice(files[i].1.as_slice());
                assert(content@ =~= files@[i as int].1@);
                let ghost was = outputs_view(out@);
                let ghost o = (names::strings(parts@), content@);
                out.push((parts, content));
                assert(outputs_view(out@) =~= was.push(o));
            }
            i = i + 1;
        }
        Ok(out)
    } else {
        let d = match decompress_any(v, ctrl) {
            Ok(d) => d,
            Err(e) => {
                return Err(SolidError::Codec(e));
            },
        };
        let name = stem.to_owned();
        if is_wanted(wanted, &name) {
            let mut parts: Vec<String> = Vec::new();
            parts.push(name);
            let ghost o = (names::strings(parts@), d@);
            assert(o.0 =~= seq![stem@]);
            out.push((parts, d));
            assert(outputs_view(out@) =~= seq![o]);
        } else {
            assert(outputs_view(out@) =~= Seq::empty());
        }
        Ok(out)
    }
}

proof fn lemma_chosen_all(files: Seq<File>, k: int, backslash: bool)
    requires
        0 <= k <= files.len(),
    ensures
        chosen(files, k, None, backslash) == Seq::new(
            k as nat,
            |i: int| (names::safe_parts(files[i].0, backslash), files[i].1),
        ),
    decreases k,
{
    if k > 0 {
        lemma_chosen_all(files, k - 1, backslash);
    }
    assert(chosen(files, k, None, backslash) =~= Seq::new(
        k as nat,
        |i: int| (names::safe_parts(files[i].0, backslash), files[i].1),
    ));
}

/// Extracting everything from a solid archive writes every file that was packed, in
/// order, with its contents.
pub proof fn extract_all_restores(
    files: Seq<File>,
    level: u8,
    v: Seq<u8>,
    stem: Seq<char>,
    backslash: bool,
)
    requires
        solid::packed(files, level, v),
        solid::fits(files),
        ({
            let d = solid::contents(files, files.len() as int);
            &&& codec::block_count(d.len() as int) <= u32::MAX
            &&& codec::raw_bytes(d, level).len() <= u32::MAX
            &&& d.len() <= usize::MAX
        }),
    ensures
        outputs_of(v, stem, None, backslash) == Ok::<Seq<Output>, SolidError>(
            Seq::new(
                files.len(),
                |i: int| (names::safe_parts(files[i].0, backslash), files[i].1),
            ),
        ),
{
    solid::solid_round_trip(files, level, v);
    lemma_chosen_all(files, files.len() as int, backslash);
    assert(v.take(4) =~= solid::magic()) by {
        solid::list_is_true(files, level, v);
    }
}

/// Extracting an archive of one file writes that file, under the name `stem`; nothing if
/// it was not selected.
pub proof fn extract_single_restores(
    d: Seq<u8>,
    level: u8,
    v: Seq<u8>,
    stem: Seq<char>,
    wanted: Option<Seq<Seq<char>>>,
    backslash: bool,
)
    requires
        codec::compressed(d, level, v),
        codec::block_count(d.len() as int) <= u32::MAX,
        codec::raw_bytes(d, level).len() <= u32::MAX,
        d.len() <= usize::MAX,
    ensures
        wanted is None || wanted->0.contains(stem) ==> outputs_of(v, stem, wanted, backslash)
            == Ok::<Seq<Output>, SolidError>(seq![(seq![stem], d)]),
        wanted is Some && !wanted->0.contains(stem) ==> outputs_of(v, stem, wanted, backslash)
            == Ok::<Seq<Output>, SolidError>(Seq::empty()),
{
    archives_are_recognized(Seq::empty(), d, level, v);
    codec::archive_round_trip(d, level, v);
}

proof fn lemma_chosen_some(files: Seq<File>, k: int, w: Seq<Seq<char>>, backslash: bool)
    requires
        0 <= k <= files.len(),
    ensures
        chosen(files, k, Some(w), backslash) == files.take(k).filter(
            |f: File| w.contains(f.0),
        ).map_values(|f: File| (names::safe_parts(f.0, backslash), f.1)),
    decreases k,
{
    let p = |f: File| w.contains(f.0);
    let g = |f: File| (names::safe_parts(f.0, backslash), f.1);
    reveal_with_fuel(Seq::filter, 2);
    if k > 0 {
        lemma_chosen_some(files, k - 1, w, backslash);
        let t = files.take(k);
        assert(t.drop_last() =~= files.take(k - 1));
        assert(t.last() == files[k - 1]);
        let front = files.take(k - 1).filter(p);
        assert(front.push(t.last()).map_values(g) =~= front.map_values(g).push(g(t.last())));
    } else {
        assert(files.take(0) =~= Seq::empty());
        assert(chosen(files, k, Some(w), backslash) =~= files.take(k).filter(p).map_values(g));
    }
}

/// Extracting a selection from a solid archive writes exactly the selected files, in the
/// order they were packed in, with their contents.
pub proof fn extract_selected_restores(
    files: Seq<File>,
    level: u8,
    v: Seq<u8>,
    stem: Seq<char>,
    w: Seq<Seq<char>>,
    backslash: bool,
)
    requires
        solid::packed(files, level, v),
        solid::fits(files),
        ({
            let d = solid::contents(files, files.len() as int);
            &&& codec::block_count(d.len() as int) <= u32::MAX
            &&& codec::raw_bytes(d, level).len() <= u32::MAX
            &&& d.len() <= usize::MAX
        }),
    ensures
        outputs_of(v, stem, Some(w), backslash) == Ok::<Seq<Output>, SolidError>(
            files.filter(|f: File| w.contains(f.0)).map_values(
                |f: File| (names::safe_parts(f.0, backslash), f.1),
            ),
        ),
{
    archives_are_recognized(files, Seq::empty(), level, v);
    solid::solid_round_trip(files, level, v);
    lemma_chosen_some(files, files.len() as int, w, backslash);
    assert(files.take(files.len() as int) =~= files);
}

// ---------------------------------------------------------------------------
// Verifying
// ---------------------------------------------------------------------------

/// What verifying an archive found.
#[derive(Clone, Copy, Debug, PartialEq, Eq, Structural)]
pub struct Verified {
    /// Files in a solid archive; `None` for an archive of one file.
    pub files: Option<usize>,
    /// Bytes recovered.
    pub bytes: u128,
}

/// Total size of the first `k` files.
pub open spec fn total_size(files: Seq<File>, k: int) -> int
    decreases k,
{
    if k <= 0 {
        0
    } else {
        total_size(files, k - 1) + files[k - 1].1.len()
    }
}

/// `r` says what extracting everything from `v` gives, or why it fails.
pub open spec fn verdict(v: Seq<u8>, r: Result<Verified, SolidError>) -> bool {
    match r {
        Ok(t) => match t.files {
            Some(k) => {
                &&& kind_of(v) == Kind::Solid
                &&& solid::unpacked(v) matches Ok(files)
                &&& k == files.len()
                &&& t.bytes == total_size(files, files.len() as int)
            },
            None => {
                &&& kind_of(v) != Kind::Solid
                &&& codec::restored(v) matches Ok(d)
                &&& t.bytes == d.len()
            },
        },
        Err(e) => if kind_of(v) == Kind::Solid {
            solid::unpacked(v) == Err::<Seq<File>, SolidError>(e)
        } else {
            codec::restored(v) matches Err(c) && e == SolidError::Codec(c)
        },
    }
}

proof fn lemma_total_size(files: Seq<File>, k: int)
    requires
        0 <= k <= files.len(),
    ensures
        total_size(files, k) == solid::contents(files, k).len(),
    decreases k,
{
    if k > 0 {
        lemma_total_size(files, k - 1);
    }
}

/// Verifying an archive of one file tells its length, and verifying a solid archive the
/// number of files and their total length.
pub proof fn verdicts_are_true(
    files: Seq<File>,
    d: Seq<u8>,
    level: u8,
    v: Seq<u8>,
    r: Result<Verified, SolidError>,
)
    requires
        verdict(v, r),
        codec::block_count(d.len() as int) <= u32::MAX,
        codec::raw_bytes(d, level).len() <= u32::MAX,
        d.len() <= usize::MAX,
    ensures
        codec::compressed(d, level, v) ==> (r matches Ok(t) && t.files is None && t.bytes
            == d.len()),
        solid::packed(files, level, v) && solid::fits(files) && d == solid::contents(
            files,
            files.len() as int,
        ) ==> (r matches Ok(t) && t.files matches Some(k) && k == files.len() && t.bytes
            == d.len()),
{
    archives_are_recognized(files, d, level, v);
    if codec::compressed(d, level, v) {
        codec::archive_round_trip(d, level, v);
    }
    if solid::packed(files, level, v) && solid::fits(files) && d == solid::contents(
        files,
        files.len() as int,
    ) {
        solid::solid_round_trip(files, level, v);
        lemma_total_size(files, files.len() as int);
    }
}

/// Decompress an archive and say what it holds.
pub fn verify(v: &[u8]) -> (r: Result<Verified, SolidError>)
    ensures
        verdict(v@, r),
        !solid::cancelled(r),
{
    verify_watched(v, None)
}

/// Decompress an archive and say what it holds, with a handle to watch and cancel the
/// job.
pub fn verify_with_control(v: &[u8], ctrl: &Control) -> (r: Result<Verified, SolidError>)
    ensures
        if solid::cancelled(r) {
            reads_segments(v@) && ctrl.found(true)
        } else {
            verdict(v@, r) && read_under(v@, Some(ctrl))
        },
{
    verify_watched(v, Some(ctrl))
}

fn verify_watched(v: &[u8], ctrl: Option<&Control>) -> (r: Result<Verified, SolidError>)
    ensures
        if solid::cancelled(r) {
            reads_segments(v@) && control::stopped(ctrl)
        } else {
            verdict(v@, r) && read_under(v@, ctrl)
        },
{
    if kind(v) == Kind::Solid {
        match unpack_any(v, ctrl) {
            Ok(files) => {
                let ghost fs = solid::owned_files(files@);
                let n: usize = files.len();
                let mut total: u128 = 0;
                let mut i: usize = 0;
                while i < n
                    invariant
                        n == files@.len(),
                        i <= n,
                        fs == solid::owned_files(files@),
                        read_under(v@, ctrl),
                        total == total_size(fs, i as int),
                        total <= i * 0x1_0000_0000_0000_0000,
                    decreases n - i,
                {
                    let len: usize = files[i].1.len();
                    assert(fs[i as int].1.len() == len);
                    total = total + len as u128;
                    i = i + 1;
                }
                Ok(Verified { files: Some(n), bytes: total })
            },
            Err(e) => Err(e),
        }
    } else {
        match decompress_any(v, ctrl) {
            Ok(d) => Ok(Verified { files: None, bytes: d.len() as u128 }),
            Err(e) => Err(SolidError::Codec(e)),
        }
    }
}

} // verus!
