//! Solid archives: many files compressed as one stream.
//!
//! Layout of a solid archive:
//!
//! ```text
//! [0..4]   magic: "CPAS"
//! [4..8]   number of files, u32 LE
//! per file
//!   [2]      length of the name, u16 LE
//!   [..]     the name in UTF-8
//!   [8]      size, u64 LE
//! [rest]   archive of the contents of all files, one after the other
//! ```
use vstd::prelude::*;
use vstd::utf8::*;
use crate::bytes;
use crate::cm::control;
use crate::cm::control::Control;
use crate::codec;

verus! {

/// Why a solid archive could not be made or read.
#[derive(Clone, Copy, Debug, PartialEq, Eq, Structural)]
pub enum SolidError {
    /// Too short for a header.
    TooShort,
    /// Not a solid archive.
    BadMagic,
    /// The file table is incomplete.
    TruncatedTable,
    /// An entry of the file table is incomplete.
    TruncatedEntry,
    /// A file name is not UTF-8.
    BadName,
    /// The stream of contents cannot be made or read.
    Codec(codec::Error),
    /// The contents run out at this file.
    Underrun(usize),
}

/// A file: its name and its contents.
pub type File = (Seq<char>, Seq<u8>);

/// An entry of a file table: a name and a size.
pub type Listed = (Seq<char>, u64);

/// The files behind references.
pub open spec fn files_of(files: Seq<(&str, &[u8])>) -> Seq<File> {
    files.map_values(|f: (&str, &[u8])| (f.0@, f.1@))
}

/// "CPAS".
pub open spec fn magic() -> Seq<u8> {
    seq![67u8, 80, 65, 83]
}

/// A file's entry in the table.
pub open spec fn entry(f: File) -> Seq<u8> {
    bytes::le(encode_utf8(f.0).len(), 2) + encode_utf8(f.0) + bytes::le(f.1.len(), 8)
}

/// The entries of the first `k` files.
pub open spec fn table(files: Seq<File>, k: int) -> Seq<u8>
    decreases k,
{
    if k <= 0 {
        Seq::empty()
    } else {
        table(files, k - 1) + entry(files[k - 1])
    }
}

/// The contents of the first `k` files.
pub open spec fn contents(files: Seq<File>, k: int) -> Seq<u8>
    decreases k,
{
    if k <= 0 {
        Seq::empty()
    } else {
        contents(files, k - 1) + files[k - 1].1
    }
}

/// Everything in front of the stream of contents.
pub open spec fn front(files: Seq<File>) -> Seq<u8> {
    magic() + bytes::le(files.len(), 4) + table(files, files.len() as int)
}

/// `v` is a solid archive of the files at a level.
pub open spec fn packed(files: Seq<File>, level: u8, v: Seq<u8>) -> bool {
    exists|p: Seq<u8>|
        #[trigger] codec::compressed(contents(files, files.len() as int), level, p) && v == front(
            files,
        ) + p
}

/// `x` put before a list that was read.
pub open spec fn prepend_entry(
    x: Listed,
    r: Result<(Seq<Listed>, Seq<u8>), SolidError>,
) -> Result<(Seq<Listed>, Seq<u8>), SolidError> {
    match r {
        Ok((l, rest)) => Ok((seq![x] + l, rest)),
        Err(e) => Err(e),
    }
}

/// The next `k` entries of `s`, and what follows them.
pub open spec fn read_table(s: Seq<u8>, k: int) -> Result<(Seq<Listed>, Seq<u8>), SolidError>
    decreases k,
{
    let len = bytes::field(s, 0, 2) as int;
    let name = s.subrange(2, 2 + len);
    if k <= 0 {
        Ok((Seq::empty(), s))
    } else if s.len() < 2 {
        Err(SolidError::TruncatedTable)
    } else if s.len() < 10 + len {
        Err(SolidError::TruncatedEntry)
    } else if !valid_utf8(name) {
        Err(SolidError::BadName)
    } else {
        prepend_entry(
            (decode_utf8(name), bytes::field(s, 2 + len, 8) as u64),
            read_table(s.skip(10 + len), k - 1),
        )
    }
}

/// The file table of an archive, and what follows it.
pub open spec fn listing(v: Seq<u8>) -> Result<(Seq<Listed>, Seq<u8>), SolidError> {
    if v.len() < 8 {
        Err(SolidError::TooShort)
    } else if v.take(4) != magic() {
        Err(SolidError::BadMagic)
    } else {
        read_table(v.skip(8), bytes::field(v, 4, 4) as int)
    }
}

/// `x` put before a list of files.
pub open spec fn prepend_file(x: File, r: Result<Seq<File>, SolidError>) -> Result<
    Seq<File>,
    SolidError,
> {
    match r {
        Ok(l) => Ok(seq![x] + l),
        Err(e) => Err(e),
    }
}

/// The files from entry `i` on, whose contents stand at the front of `d`.
pub open spec fn split(l: Seq<Listed>, i: int, d: Seq<u8>) -> Result<Seq<File>, SolidError>
    decreases l.len() - i,
{
    if i < 0 || i >= l.len() {
        Ok(Seq::empty())
    } else if l[i].1 > d.len() {
        Err(SolidError::Underrun(i as usize))
    } else {
        prepend_file(
            (l[i].0, d.take(l[i].1 as int)),
            split(l, i + 1, d.skip(l[i].1 as int)),
        )
    }
}

/// The files in an archive.
pub open spec fn unpacked(v: Seq<u8>) -> Result<Seq<File>, SolidError> {
    match listing(v) {
        Err(e) => Err(e),
        Ok((l, rest)) => match codec::restored(rest) {
            Err(e) => Err(SolidError::Codec(e)),
            Ok(d) => split(l, 0, d),
        },
    }
}

// ---------------------------------------------------------------------------
// Laws
// ---------------------------------------------------------------------------

/// What the table of an archive of these files lists.
pub open spec fn listed(files: Seq<File>) -> Seq<Listed> {
    files.map_values(|f: File| (f.0, f.1.len() as u64))
}

/// Names and sizes fit their fields.
pub open spec fn fits(files: Seq<File>) -> bool {
    &&& files.len() <= u32::MAX
    &&& forall|i: int|
        0 <= i < files.len() ==> encode_utf8((#[trigger] files[i]).0).len() <= 0xffff
            && files[i].1.len() <= u64::MAX
}

proof fn lemma_table_grows(files: Seq<File>, i: int, k: int)
    requires
        0 <= i < k <= files.len(),
    ensures
        table(files, i).len() + entry(files[i]).len() <= table(files, k).len(),
        table(files, k).subrange(
            table(files, i).len() as int,
            (table(files, i).len() + entry(files[i]).len()) as int,
        ) == entry(files[i]),
    decreases k,
{
    let at = table(files, i).len() as int;
    let e = entry(files[i]);
    if i < k - 1 {
        lemma_table_grows(files, i, k - 1);
        assert(table(files, k).subrange(at, at + e.len()) =~= table(files, k - 1).subrange(
            at,
            at + e.len(),
        ));
    } else {
        assert(table(files, k).subrange(at, at + e.len()) =~= e);
    }
}

/// Where things stand in a solid archive: "CPAS", the number of files in four bytes, for
/// each file the length of its name in two bytes, its name in UTF-8 and its size in
/// eight bytes, and behind the table an archive of all contents one after the other.
pub proof fn solid_layout(files: Seq<File>, level: u8, v: Seq<u8>, i: int)
    requires
        packed(files, level, v),
        0 <= i < files.len(),
    ensures
        ({
            let name = encode_utf8(files[i].0);
            let l = name.len() as int;
            let at = 8 + table(files, i).len() as int;
            let end = 8 + table(files, files.len() as int).len() as int;
            &&& v.take(4) == seq![67u8, 80, 65, 83]
            &&& v.subrange(4, 8) == bytes::le(files.len(), 4)
            &&& v.subrange(at, at + 2) == bytes::le(name.len(), 2)
            &&& v.subrange(at + 2, at + 2 + l) == name
            &&& v.subrange(at + 2 + l, at + 10 + l) == bytes::le(
                files[i].1.len(),
                8,
            )
            &&& table(files, i + 1).len() == table(files, i).len() + l + 10
            &&& table(files, 0).len() == 0
            &&& codec::compressed(contents(files, files.len() as int), level, v.skip(end))
        }),
{
    let n = files.len() as int;
    let d = contents(files, n);
    let p = choose|p: Seq<u8>| #[trigger] codec::compressed(d, level, p) && v == front(files) + p;
    let name = encode_utf8(files[i].0);
    let l = name.len() as int;
    let at = 8 + table(files, i).len() as int;
    let e = entry(files[i]);
    bytes::least_significant_first(files.len(), 4, 0);
    bytes::least_significant_first(name.len(), 2, 0);
    bytes::least_significant_first(files[i].1.len(), 8, 0);
    lemma_table_grows(files, i, n);
    let t = table(files, n);
    assert(v.take(4) =~= seq![67u8, 80, 65, 83]);
    assert(v.subrange(4, 8) =~= bytes::le(files.len(), 4));
    assert(v.subrange(at, at + e.len()) =~= e) by {
        let u = t.subrange(at - 8, at - 8 + e.len());
        assert forall|j: int| 0 <= j < e.len() implies v[at + j] == e[j] by {
            assert(u[j] == e[j]);
            assert(v[at + j] == t[at - 8 + j]);
        }
    }
    let w = v.subrange(at, at + e.len());
    assert(v.subrange(at, at + 2) =~= w.subrange(0, 2));
    assert(w.subrange(0, 2) =~= bytes::le(name.len(), 2));
    assert(v.subrange(at + 2, at + 2 + l) =~= w.subrange(2, 2 + l));
    assert(w.subrange(2, 2 + l) =~= name);
    assert(v.subrange(at + 2 + l, at + 10 + l) =~= w.subrange(
        2 + l,
        10 + l,
    ));
    assert(w.subrange(2 + l, 10 + l) =~= bytes::le(files[i].1.len(), 8));
    assert(v.skip(8 + t.len() as int) =~= p);
}

proof fn lemma_contents_grow(files: Seq<File>, i: int, k: int)
    requires
        0 <= i < k <= files.len(),
    ensures
        contents(files, i).len() + files[i].1.len() <= contents(files, k).len(),
        contents(files, k).subrange(
            contents(files, i).len() as int,
            (contents(files, i).len() + files[i].1.len()) as int,
        ) == files[i].1,
    decreases k,
{
    let at = contents(files, i).len() as int;
    let c = files[i].1;
    if i < k - 1 {
        lemma_contents_grow(files, i, k - 1);
        assert(contents(files, k).subrange(at, at + c.len()) =~= contents(
            files,
            k - 1,
        ).subrange(at, at + c.len()));
    } else {
        assert(contents(files, k).subrange(at, at + c.len()) =~= c);
    }
}

/// Every file stands in the stream of contents, right behind the one before it.
pub proof fn contents_stand_in_order(files: Seq<File>, i: int)
    requires
        0 <= i < files.len(),
    ensures
        ({
            let d = contents(files, files.len() as int);
            let at = contents(files, i).len() as int;
            &&& at + files[i].1.len() <= d.len()
            &&& d.subrange(at, at + files[i].1.len()) == files[i].1
            &&& contents(files, i + 1).len() == at + files[i].1.len()
            &&& contents(files, 0).len() == 0
        }),
{
    lemma_contents_grow(files, i, files.len() as int);
}

/// At every level files have one archive.
pub proof fn archives_are_determined(files: Seq<File>, level: u8, v: Seq<u8>, w: Seq<u8>)
    requires
        packed(files, level, v),
        packed(files, level, w),
    ensures
        v == w,
{
    let d = contents(files, files.len() as int);
    let x = choose|x: Seq<u8>| #[trigger] codec::compressed(d, level, x) && v == front(files) + x;
    let y = choose|y: Seq<u8>| #[trigger] codec::compressed(d, level, y) && w == front(files) + y;
    codec::archives_are_determined(d, level, x, y);
}

proof fn lemma_table_front(files: Seq<File>, k: int)
    requires
        0 < k <= files.len(),
    ensures
        table(files, k) == entry(files[0]) + table(files.drop_first(), k - 1),
    decreases k,
{
    if k > 1 {
        lemma_table_front(files, k - 1);
        assert(files.drop_first()[k - 2] == files[k - 1]);
        assert(table(files, k) =~= entry(files[0]) + table(files.drop_first(), k - 1));
    } else {
        assert(table(files, 0) =~= Seq::empty());
        assert(table(files.drop_first(), 0) =~= Seq::empty());
        assert(table(files, 1) =~= entry(files[0]) + table(files.drop_first(), 0));
    }
}

proof fn lemma_read_table(files: Seq<File>, rest: Seq<u8>)
    requires
        fits(files),
    ensures
        read_table(table(files, files.len() as int) + rest, files.len() as int) == Ok::<
            (Seq<Listed>, Seq<u8>),
            SolidError,
        >((listed(files), rest)),
    decreases files.len(),
{
    let k = files.len() as int;
    let s = table(files, k) + rest;
    if k > 0 {
        let f = files[0];
        let more = files.drop_first();
        let name = encode_utf8(f.0);
        let len = name.len() as int;
        lemma_table_front(files, k);
        assert(encode_utf8(files[0].0).len() <= 0xffff && files[0].1.len() <= u64::MAX);
        bytes::lemma_widths();
        bytes::le_round_trip(name.len(), 2);
        bytes::le_round_trip(f.1.len(), 8);
        encode_utf8_valid_utf8(f.0);
        encode_utf8_decode_utf8(f.0);
        assert forall|i: int| 0 <= i < more.len() implies encode_utf8((#[trigger] more[i]).0).len()
            <= 0xffff && more[i].1.len() <= u64::MAX by {
            assert(more[i] == files[i + 1]);
        }
        lemma_read_table(more, rest);
        assert(s.subrange(0, 2) =~= bytes::le(name.len(), 2));
        assert(s.subrange(2, 2 + len) =~= name);
        assert(s.subrange(2 + len, 10 + len) =~= bytes::le(f.1.len(), 8));
        assert(s.skip(10 + len) =~= table(more, k - 1) + rest);
        assert(seq![(f.0, f.1.len() as u64)] + listed(more) =~= listed(files));
    } else {
        assert(s =~= rest);
        assert(listed(files) =~= Seq::empty());
    }
}

/// Listing an archive names every file with its size, in order.
pub proof fn list_is_true(files: Seq<File>, level: u8, v: Seq<u8>)
    requires
        packed(files, level, v),
        fits(files),
    ensures
        listing(v) matches Ok((l, rest)) && l == listed(files) && codec::compressed(
            contents(files, files.len() as int),
            level,
            rest,
        ),
{
    let p = choose|p: Seq<u8>|
        #[trigger] codec::compressed(contents(files, files.len() as int), level, p) && v == front(
            files,
        ) + p;
    bytes::lemma_widths();
    bytes::le_round_trip(files.len(), 4);
    assert(v.take(4) =~= magic());
    assert(v.subrange(4, 8) =~= bytes::le(files.len(), 4));
    assert(v.skip(8) =~= table(files, files.len() as int) + p);
    lemma_read_table(files, p);
}

proof fn lemma_contents_len(files: Seq<File>, i: int, k: int)
    requires
        0 <= i < k <= files.len(),
    ensures
        contents(files, i).len() + files[i].1.len() <= contents(files, k).len(),
        contents(files, i + 1).len() == contents(files, i).len() + files[i].1.len(),
        contents(files, k).subrange(
            contents(files, i).len() as int,
            (contents(files, i).len() + files[i].1.len()) as int,
        ) == files[i].1,
    decreases k,
{
    let at = contents(files, i).len() as int;
    let len = files[i].1.len() as int;
    if i < k - 1 {
        lemma_contents_len(files, i, k - 1);
        assert(contents(files, k).subrange(at, at + len) =~= contents(files, k - 1).subrange(
            at,
            at + len,
        ));
    } else {
        assert(contents(files, k).subrange(at, at + len) =~= files[i].1);
    }
}

proof fn lemma_split(files: Seq<File>, i: int)
    requires
        fits(files),
        0 <= i <= files.len(),
    ensures
        split(
            listed(files),
            i,
            contents(files, files.len() as int).skip(contents(files, i).len() as int),
        ) == Ok::<Seq<File>, SolidError>(files.skip(i)),
    decreases files.len() - i,
{
    let k = files.len() as int;
    let all = contents(files, k);
    if i < k {
        let f = files[i];
        let at = contents(files, i).len() as int;
        lemma_contents_len(files, i, k);
        lemma_split(files, i + 1);
        assert(encode_utf8(files[i].0).len() <= 0xffff && files[i].1.len() <= u64::MAX);
        assert(listed(files)[i] == (f.0, f.1.len() as u64));
        assert(all.skip(at).take(f.1.len() as int) =~= f.1);
        assert(all.skip(at).skip(f.1.len() as int) =~= all.skip(
            contents(files, i + 1).len() as int,
        ));
        assert(seq![f] + files.skip(i + 1) =~= files.skip(i));
    } else {
        assert(files.skip(i) =~= Seq::empty());
    }
}

/// Unpacking an archive gives back every file, with its name and its contents, in
/// order. Names, sizes and counts have to fit their fields.
pub proof fn solid_round_trip(files: Seq<File>, level: u8, v: Seq<u8>)
    requires
        packed(files, level, v),
        fits(files),
        ({
            let d = contents(files, files.len() as int);
            &&& codec::block_count(d.len() as int) <= u32::MAX
            &&& codec::raw_bytes(d, level).len() <= u32::MAX
            &&& d.len() <= usize::MAX
        }),
    ensures
        unpacked(v) == Ok::<Seq<File>, SolidError>(files),
{
    let d = contents(files, files.len() as int);
    list_is_true(files, level, v);
    let rest = listing(v)->Ok_0.1;
    codec::archive_round_trip(d, level, rest);
    lemma_split(files, 0);
    assert(contents(files, 0).len() == 0);
    assert(d.skip(0) =~= d);
    assert(files.skip(0) =~= files);
}

// ---------------------------------------------------------------------------
// Packing and unpacking
// ---------------------------------------------------------------------------

/// `String::from_utf8`.
///
/// Trusted: it fails exactly on bytes that are not valid UTF-8, and otherwise returns
/// the characters they encode.
#[verifier::external_body]
fn string_from_utf8(b: Vec<u8>) -> (r: Option<String>)
    ensures
        match r {
            Some(s) => valid_utf8(b@) && s@ == decode_utf8(b@),
            None => !valid_utf8(b@),
        },
{
    String::from_utf8(b).ok()
}

/// A file in a solid archive.
pub struct SolidEntry {
    pub name: String,
    pub size: u64,
    /// Where the file starts in the stream of contents.
    pub offset: u64,
}

/// A solid archive.
pub struct SolidArchive {
    pub files: Vec<SolidEntry>,
}

/// The control was heeded while the stream of contents was read.
pub open spec fn read_under(v: Seq<u8>, ctrl: Option<&Control>) -> bool {
    match listing(v) {
        Ok((_, stream)) => codec::read_under(stream, ctrl),
        Err(_) => true,
    }
}

/// Unpacking an archive gets as far as the segments of its payload.
pub open spec fn reads_segments(v: Seq<u8>) -> bool {
    listing(v) matches Ok((_, stream)) && codec::reads_segments(stream)
}

/// The entries behind a vector.
pub open spec fn listed_of(l: Seq<(String, u64)>) -> Seq<Listed> {
    l.map_values(|e: (String, u64)| (e.0@, e.1))
}

/// The files behind a vector.
pub open spec fn owned_files(l: Seq<(String, Vec<u8>)>) -> Seq<File> {
    l.map_values(|f: (String, Vec<u8>)| (f.0@, f.1@))
}

/// The answer to a job that was found cancelled.
pub open spec fn cancelled<T>(r: Result<T, SolidError>) -> bool {
    r matches Err(e) && e == SolidError::Codec(codec::Error::Cancelled)
}

/// The files in a result.
pub open spec fn seen(r: Result<Vec<(String, Vec<u8>)>, SolidError>) -> Result<
    Seq<File>,
    SolidError,
> {
    match r {
        Ok(l) => Ok(owned_files(l@)),
        Err(e) => Err(e),
    }
}

impl SolidArchive {
    /// An archive without files.
    pub fn new() -> (r: SolidArchive)
        ensures
            r.files@.len() == 0,
    {
        SolidArchive { files: Vec::new() }
    }

    /// The front of a solid archive, and the contents to compress behind it.
    pub fn layout(files: &[(&str, &[u8])]) -> (r: (Vec<u8>, Vec<u8>))
        ensures
            r.0@ == front(files_of(files@)),
            r.1@ == contents(files_of(files@), files@.len() as int),
    {
        let ghost fs = files_of(files@);
        let mut head: Vec<u8> = Vec::new();
        let mut data: Vec<u8> = Vec::new();
        head.push(67);
        head.push(80);
        head.push(65);
        head.push(83);
        bytes::push_le(&mut head, files.len() as u64, 4);
        let ghost start = head@;
        assert(start =~= magic() + bytes::le(fs.len(), 4));
        assert(start + table(fs, 0) =~= start);
        let mut i: usize = 0;
        while i < files.len()
            invariant
                i <= files@.len(),
                fs == files_of(files@),
                head@ == start + table(fs, i as int),
                data@ == contents(fs, i as int),
            decreases files@.len() - i,
        {
            let (name, content) = files[i];
            let ghost was = head@;
            let b = name.as_bytes();
            bytes::push_le(&mut head, b.len() as u64, 2);
            head.extend_from_slice(b);
            bytes::push_le(&mut head, content.len() as u64, 8);
            data.extend_from_slice(content);
            assert(fs[i as int] == (name@, content@));
            assert(head@ =~= was + entry(fs[i as int]));
            assert(head@ =~= start + table(fs, i + 1));
            assert(data@ =~= contents(fs, i + 1));
            i = i + 1;
        }
        (head, data)
    }

    /// Compress `files` into a solid archive.
    pub fn pack(files: &[(&str, &[u8])], level: u8) -> (r: Result<Vec<u8>, SolidError>)
        ensures
            r matches Ok(v) && packed(files_of(files@), level, v@),
    {
        let (mut out, data) = SolidArchive::layout(files);
        let ghost head = out@;
        match codec::compress(data.as_slice(), level) {
            Ok(p) => {
                out.extend_from_slice(p.as_slice());
                assert(codec::compressed(data@, level, p@));
                assert(out@ =~= head + p@);
                Ok(out)
            },
            Err(e) => Err(SolidError::Codec(e)),
        }
    }

    /// Compress `files`, with a handle to watch and cancel the job. Only cancelling can
    /// make it fail.
    pub fn pack_with_control(files: &[(&str, &[u8])], level: u8, ctrl: &Control) -> (r: Result<
        Vec<u8>,
        SolidError,
    >)
        ensures
            match r {
                Ok(v) => {
                    let d = contents(files_of(files@), files@.len() as int);
                    &&& packed(files_of(files@), level, v@)
                    &&& codec::written_under(d, level, Some(ctrl))
                },
                Err(e) => {
                    let d = contents(files_of(files@), files@.len() as int);
                    &&& e == SolidError::Codec(codec::Error::Cancelled)
                    &&& codec::mixed_bytes(d, level).len() > 0
                    &&& ctrl.found(true)
                },
            },
    {
        let (mut out, data) = SolidArchive::layout(files);
        let ghost head = out@;
        match codec::compress_with_control(data.as_slice(), level, ctrl) {
            Ok(p) => {
                out.extend_from_slice(p.as_slice());
                assert(codec::compressed(data@, level, p@));
                assert(out@ =~= head + p@);
                Ok(out)
            },
            Err(e) => Err(SolidError::Codec(e)),
        }
    }

    /// The file table of an archive, and where it ends.
    fn parse_table(v: &[u8]) -> (r: Result<(Vec<(String, u64)>, usize), SolidError>)
        ensures
            r matches Err(e) ==> !(e is Codec),
            match r {
                Ok((l, at)) => at <= v@.len() && listing(v@) == Ok::<
                    (Seq<Listed>, Seq<u8>),
                    SolidError,
                >((listed_of(l@), v@.skip(at as int))),
                Err(e) => listing(v@) == Err::<(Seq<Listed>, Seq<u8>), SolidError>(e),
            },
    {
        let n: usize = v.len();
        if n < 8 {
            return Err(SolidError::TooShort);
        }
        let m = [67u8, 80, 65, 83];
        assert(m@ =~= magic());
        assert(v@.subrange(0, 4) =~= v@.take(4));
        if !bytes::same_bytes(&v[0..4], &m) {
            return Err(SolidError::BadMagic);
        }
        proof {
            bytes::lemma_widths();
        }
        let count: u64 = bytes::read_le(v, 4, 4);
        let ghost whole = read_table(v@.skip(8), count as int);
        let mut l: Vec<(String, u64)> = Vec::new();
        let mut at: usize = 8;
        let mut i: u64 = 0;
        proof {
            match whole {
                Ok((x, _)) => {
                    assert(listed_of(l@) + x =~= x);
                },
                Err(_) => {},
            }
        }
        while i < count
            invariant
                n == v@.len(),
                8 <= at <= n,
                i <= count,
                listing(v@) == whole,
                whole == (match read_table(v@.skip(at as int), count - i) {
                    Ok((x, rest)) => Ok((listed_of(l@) + x, rest)),
                    Err(e) => Err(e),
                }),
            decreases count - i,
        {
            let ghost s = v@.skip(at as int);
            if n - at < 2 {
                return Err(SolidError::TruncatedTable);
            }
            proof {
                bytes::lemma_widths();
                assert(s.subrange(0, 2) =~= v@.subrange(at as int, at + 2));
            }
            let len: usize = bytes::read_le(v, at, 2) as usize;
            if n - at < 10 + len {
                return Err(SolidError::TruncatedEntry);
            }
            assert(s.subrange(2, 2 + len) =~= v@.subrange(at + 2, at + 2 + len));
            let mut b: Vec<u8> = Vec::new();
            b.extend_from_slice(&v[at + 2..at + 2 + len]);
            assert(b@ =~= s.subrange(2, 2 + len));
            let name = match string_from_utf8(b) {
                Some(x) => x,
                None => {
                    return Err(SolidError::BadName);
                },
            };
            assert(s.subrange(2 + len, 10 + len) =~= v@.subrange(at + 2 + len, at + 10 + len));
            let size: u64 = bytes::read_le(v, at + 2 + len, 8);
            let ghost was = listed_of(l@);
            let ghost e = (name@, size);
            l.push((name, size));
            proof {
                assert(listed_of(l@) =~= was.push(e));
                assert(s.skip(10 + len) =~= v@.skip(at + 10 + len));
                match read_table(s.skip(10 + len), count - i - 1) {
                    Ok((x, _)) => {
                        assert(was + (seq![e] + x) =~= listed_of(l@) + x);
                    },
                    Err(_) => {},
                }
            }
            at = at + 10 + len;
            i = i + 1;
        }
        assert(listed_of(l@) + Seq::<Listed>::empty() =~= listed_of(l@));
        Ok((l, at))
    }

    /// Decompress a solid archive into names and contents.
    pub fn unpack(v: &[u8]) -> (r: Result<Vec<(String, Vec<u8>)>, SolidError>)
        ensures
            seen(r) == unpacked(v@),
            !cancelled(r),
    {
        SolidArchive::unpack_watched(v, None)
    }

    /// Decompress a solid archive, with a handle to watch and cancel the job.
    pub fn unpack_with_control(v: &[u8], ctrl: &Control) -> (r: Result<
        Vec<(String, Vec<u8>)>,
        SolidError,
    >)
        ensures
            if cancelled(r) {
                reads_segments(v@) && ctrl.found(true)
            } else {
                seen(r) == unpacked(v@) && read_under(v@, Some(ctrl))
            },
    {
        SolidArchive::unpack_watched(v, Some(ctrl))
    }

    fn unpack_watched(v: &[u8], ctrl: Option<&Control>) -> (r: Result<
        Vec<(String, Vec<u8>)>,
        SolidError,
    >)
        ensures
            if cancelled(r) {
                reads_segments(v@) && control::stopped(ctrl)
            } else {
                seen(r) == unpacked(v@) && read_under(v@, ctrl)
            },
    {
        let (l, at) = match SolidArchive::parse_table(v) {
            Ok(x) => x,
            Err(e) => {
                return Err(e);
            },
        };
        let n: usize = v.len();
        assert(v@.subrange(at as int, n as int) =~= v@.skip(at as int));
        let result = match ctrl {
            Some(c) => codec::decompress_with_control(&v[at..n], c),
            None => codec::decompress(&v[at..n]),
        };
        let d = match result {
            Ok(d) => d,
            Err(e) => {
                return Err(SolidError::Codec(e));
            },
        };
        let ghost ls = listed_of(l@);
        let ghost whole = split(ls, 0, d@);
        let total: usize = d.len();
        let mut out: Vec<(String, Vec<u8>)> = Vec::new();
        let mut pos: usize = 0;
        let mut i: usize = 0;
        proof {
            assert(d@.skip(0) =~= d@);
            match whole {
                Ok(x) => {
                    assert(owned_files(out@) + x =~= x);
                },
                Err(_) => {},
            }
        }
        while i < l.len()
            invariant
                i <= l@.len(),
                total == d@.len(),
                pos <= total,
                ls == listed_of(l@),
                unpacked(v@) == whole,
                read_under(v@, ctrl),
                whole == (match split(ls, i as int, d@.skip(pos as int)) {
                    Ok(x) => Ok(owned_files(out@) + x),
                    Err(e) => Err(e),
                }),
            decreases l@.len() - i,
        {
            let ghost rest = d@.skip(pos as int);
            let size: u64 = l[i].1;
            assert(ls[i as int] == (l@[i as int].0@, size));
            if size > (total - pos) as u64 {
                return Err(SolidError::Underrun(i));
            }
            let len: usize = size as usize;
            let name = l[i].0.clone();
            let mut content: Vec<u8> = Vec::new();
            content.extend_from_slice(&d[pos..pos + len]);
            assert(content@ =~= rest.take(len as int));
            let ghost was = owned_files(out@);
            let ghost f = (name@, content@);
            out.push((name, content));
            proof {
                assert(owned_files(out@) =~= was.push(f));
                assert(rest.skip(len as int) =~= d@.skip(pos + len));
                match split(ls, i + 1, rest.skip(len as int)) {
                    Ok(x) => {
                        assert(was + (seq![f] + x) =~= owned_files(out@) + x);
                    },
                    Err(_) => {},
                }
            }
            pos = pos + len;
            i = i + 1;
        }
        assert(owned_files(out@) + Seq::<File>::empty() =~= owned_files(out@));
        Ok(out)
    }

    /// List names and sizes without decompressing.
    pub fn list(v: &[u8]) -> (r: Result<Vec<(String, u64)>, SolidError>)
        ensures
            match r {
                Ok(l) => listing(v@) matches Ok((x, _)) && x == listed_of(l@),
                Err(e) => listing(v@) == Err::<(Seq<Listed>, Seq<u8>), SolidError>(e),
            },
    {
        match SolidArchive::parse_table(v) {
            Ok((l, _)) => Ok(l),
            Err(e) => Err(e),
        }
    }
}

} // verus!
