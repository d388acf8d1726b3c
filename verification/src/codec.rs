//! Compressing and decompressing whole inputs.
//!
//! Layout of an archive with `k` blocks of 4096 bytes:
//!
//! ```text
//! [0..4]          magic: "CPGC"
//! [4]             version: 4
//! [5]             flags: bit 0 = has raw blocks, bit 1 = has transformed blocks
//! [6..14]         original length, u64 LE
//! [14..18]        k, u32 LE
//! [18..18+k]      one tag per block:
//!                   0x00        mixed as it is
//!                   0x01..0x08  mixed after the transform with that tag
//!                   0xFF        stored raw
//! [18+k..22+k]    length of the raw blocks, u32 LE
//! [22+k..26+k]    CRC-32 of the original bytes, u32 LE
//! [..]            the raw blocks
//! [rest]          the context mixer's payload for all other blocks, in order
//! ```
//!
//! The checksum is verified after decoding, so a corrupt archive fails loudly instead
//! of returning wrong bytes. Levels below 5 never transform; incompressible blocks are
//! stored raw at every level.
use vstd::prelude::*;
use crate::analyzer::classifier;
use crate::analyzer::classifier::WINDOW_SIZE;
use crate::analyzer::entropy;
use crate::analyzer::spread;
use crate::bytes;
use crate::checksum;
use crate::cm::control;
use crate::cm::control::Control;
use crate::cm::framing;
use crate::cm::levels;
use crate::cm::levels::Stop;
use crate::transform::search;

verus! {

/// Version of the archive format.
pub const VERSION: u8 = 4;

/// Length of the shortest archive.
pub const HEADER_MIN: usize = 26;

/// Tag of a block that is mixed as it is.
pub const TAG_NORMAL: u8 = 0x00;

/// Tag of a block that is stored raw.
pub const TAG_PASSTHROUGH: u8 = 0xFF;

/// Why an archive could not be made or read.
#[derive(Clone, Copy, Debug, PartialEq, Eq, Structural)]
pub enum Error {
    /// The job was cancelled.
    Cancelled,
    /// Too short for a header.
    TooShort,
    /// Not an archive.
    BadMagic,
    /// Written in another version of the format.
    BadVersion(u8),
    /// The table of blocks is incomplete.
    TruncatedTable,
    /// The raw blocks are incomplete.
    TruncatedRaw,
    /// The original does not fit in memory.
    TooLarge,
    /// The checksum of an empty archive is wrong.
    EmptyChecksum,
    /// The table lists blocks beyond the end of the original.
    BadTable,
    /// The mixer's payload is malformed.
    BadPayload,
    /// The raw bytes run out at this block.
    RawUnderrun(usize),
    /// The decoded bytes run out at this block.
    MixedUnderrun(usize),
    /// The decoded bytes run out at this transformed block.
    TransformUnderrun(usize),
    /// No transform has this tag.
    UnknownTag(u8),
    /// The decoded bytes do not have the recorded checksum.
    Checksum { expected: u32, actual: u32 },
}

// ---------------------------------------------------------------------------
// Blocks
// ---------------------------------------------------------------------------

/// Blocks of `n` bytes.
pub open spec fn block_count(n: int) -> int {
    framing::seg_count(n, 4096)
}

/// Block `i`.
pub open spec fn block_at(d: Seq<u8>, i: int) -> Seq<u8> {
    framing::seg_at(d, 4096, i)
}

/// Length of block `i` of `n` bytes.
pub open spec fn block_len(n: int, i: int) -> int {
    framing::seg_len(n, 4096, i)
}

/// Tag of a block: raw if it is incompressible, the best transform if there is one
/// and the level searches for it.
#[verifier::opaque]
pub open spec fn tag_of(b: Seq<u8>, level: u8) -> u8 {
    if classifier::incompressible(b) {
        TAG_PASSTHROUGH
    } else if level >= 5 && classifier::structured(b) && exists|k: int| search::is_best(b, k) {
        ((choose|k: int| search::is_best(b, k)) + 1) as u8
    } else {
        TAG_NORMAL
    }
}

/// What is mixed for a block with a tag.
pub open spec fn stored(b: Seq<u8>, tag: u8) -> Seq<u8> {
    if tag == TAG_NORMAL {
        b
    } else {
        search::candidate_ops()[tag - 1].applied(b)
    }
}

/// The tags of all blocks.
pub open spec fn tags(d: Seq<u8>, level: u8) -> Seq<u8> {
    Seq::new(block_count(d.len() as int) as nat, |i: int| tag_of(block_at(d, i), level))
}

/// What each block adds to the raw bytes.
pub open spec fn raw_parts(d: Seq<u8>, level: u8) -> Seq<Seq<u8>> {
    Seq::new(
        block_count(d.len() as int) as nat,
        |i: int|
            if tags(d, level)[i] == TAG_PASSTHROUGH {
                block_at(d, i)
            } else {
                Seq::empty()
            },
    )
}

/// What each block adds to the mixed bytes.
pub open spec fn mixed_parts(d: Seq<u8>, level: u8) -> Seq<Seq<u8>> {
    Seq::new(
        block_count(d.len() as int) as nat,
        |i: int|
            if tags(d, level)[i] == TAG_PASSTHROUGH {
                Seq::empty()
            } else {
                stored(block_at(d, i), tags(d, level)[i])
            },
    )
}

/// The bytes stored raw.
pub open spec fn raw_bytes(d: Seq<u8>, level: u8) -> Seq<u8> {
    framing::joined(raw_parts(d, level), block_count(d.len() as int))
}

/// The bytes handed to the context mixer.
pub open spec fn mixed_bytes(d: Seq<u8>, level: u8) -> Seq<u8> {
    framing::joined(mixed_parts(d, level), block_count(d.len() as int))
}

/// A tag of a transformed block.
pub open spec fn transform_tag(t: u8) -> bool {
    t != TAG_NORMAL && t != TAG_PASSTHROUGH
}

/// The flags of an archive.
pub open spec fn flags(d: Seq<u8>, level: u8) -> u8 {
    let t = tags(d, level);
    let raw = if raw_bytes(d, level).len() == 0 { 0int } else { 1int };
    let changed = if exists|i: int| 0 <= i < t.len() && transform_tag(#[trigger] t[i]) {
        2int
    } else {
        0int
    };
    (raw + changed) as u8
}

// ---------------------------------------------------------------------------
// Archives
// ---------------------------------------------------------------------------

/// "CPGC".
pub open spec fn magic() -> Seq<u8> {
    seq![67u8, 80, 71, 67]
}

/// An archive, given the mixer's payload.
pub open spec fn archive(d: Seq<u8>, level: u8, payload: Seq<u8>) -> Seq<u8> {
    let t = tags(d, level);
    let raw = raw_bytes(d, level);
    magic() + seq![VERSION, flags(d, level)] + bytes::le(d.len(), 8) + bytes::le(t.len(), 4) + t
        + bytes::le(raw.len(), 4) + bytes::le(checksum::crc32_of(d) as nat, 4) + raw + payload
}

/// `v` is the archive of `d` at a level.
pub open spec fn compressed(d: Seq<u8>, level: u8, v: Seq<u8>) -> bool {
    let s = levels::settings_of(level);
    let m = mixed_bytes(d, level);
    exists|t: Option<Seq<u8>>|
        #[trigger] levels::prepared(m, s, t) && v == archive(d, level, levels::payload_of(m, s, t))
}

/// `x` put before a result.
pub open spec fn prepend(x: Seq<u8>, r: Result<Seq<u8>, Error>) -> Result<Seq<u8>, Error> {
    match r {
        Ok(s) => Ok(x + s),
        Err(e) => Err(e),
    }
}

/// Blocks from `i` on of an original of `n` bytes, from their tags and from what is
/// left of the raw and the decoded bytes.
pub open spec fn rebuilt(
    t: Seq<u8>,
    i: int,
    n: int,
    raw: Seq<u8>,
    mixed: Seq<u8>,
) -> Result<Seq<u8>, Error>
    decreases t.len() - i,
{
    let len = block_len(n, i);
    if i < 0 || i >= t.len() {
        Ok(Seq::empty())
    } else if t[i] == TAG_PASSTHROUGH {
        if raw.len() < len {
            Err(Error::RawUnderrun(i as usize))
        } else {
            prepend(raw.take(len), rebuilt(t, i + 1, n, raw.skip(len), mixed))
        }
    } else if mixed.len() < len {
        if t[i] == TAG_NORMAL {
            Err(Error::MixedUnderrun(i as usize))
        } else {
            Err(Error::TransformUnderrun(i as usize))
        }
    } else if t[i] == TAG_NORMAL {
        prepend(mixed.take(len), rebuilt(t, i + 1, n, raw, mixed.skip(len)))
    } else if t[i] - 1 >= search::candidate_ops().len() {
        Err(Error::UnknownTag(t[i]))
    } else {
        prepend(
            search::candidate_ops()[t[i] - 1].inverted(mixed.take(len)),
            rebuilt(t, i + 1, n, raw, mixed.skip(len)),
        )
    }
}

/// Bytes that the mixer has to deliver for the first `k` blocks.
pub open spec fn mixed_len(t: Seq<u8>, n: int, k: int) -> int
    decreases k,
{
    if k <= 0 {
        0
    } else {
        mixed_len(t, n, k - 1) + if t[k - 1] == TAG_PASSTHROUGH { 0 } else { block_len(n, k - 1) }
    }
}

/// The table lists a block that starts beyond the end of the original.
pub open spec fn overlong(k: int, n: int) -> bool {
    k > 0 && (k - 1) * 4096 > n
}

/// Check decoded bytes against their recorded checksum.
pub open spec fn verified(r: Result<Seq<u8>, Error>, crc: u32) -> Result<Seq<u8>, Error> {
    match r {
        Ok(d) => if checksum::crc32_of(d) == crc {
            Ok(d)
        } else {
            Err(Error::Checksum { expected: crc, actual: checksum::crc32_of(d) })
        },
        Err(e) => Err(e),
    }
}

/// What an archive decompresses to.
pub open spec fn restored(v: Seq<u8>) -> Result<Seq<u8>, Error> {
    let n = bytes::field(v, 6, 8) as int;
    let k = bytes::field(v, 14, 4) as int;
    let raw_len = bytes::field(v, 18 + k, 4) as int;
    let crc = bytes::field(v, 22 + k, 4) as u32;
    let t = v.subrange(18, 18 + k);
    if v.len() < HEADER_MIN {
        Err(Error::TooShort)
    } else if v.take(4) != magic() {
        Err(Error::BadMagic)
    } else if v[4] != VERSION {
        Err(Error::BadVersion(v[4]))
    } else if v.len() < 26 + k {
        Err(Error::TruncatedTable)
    } else if v.len() < 26 + k + raw_len {
        Err(Error::TruncatedRaw)
    } else if n > usize::MAX {
        Err(Error::TooLarge)
    } else if n == 0 {
        if crc == checksum::crc32_of(Seq::empty()) {
            Ok(Seq::empty())
        } else {
            Err(Error::EmptyChecksum)
        }
    } else if overlong(k, n) {
        Err(Error::BadTable)
    } else {
        match levels::payload_data(v.skip(26 + k + raw_len), mixed_len(t, n, k)) {
            None => Err(Error::BadPayload),
            Some(mixed) => verified(
                rebuilt(t, 0, n, v.subrange(26 + k, 26 + k + raw_len), mixed),
                crc,
            ),
        }
    }
}

/// An archive is sound up to its payload, and its original is not empty.
pub open spec fn sound(v: Seq<u8>) -> bool {
    let n = bytes::field(v, 6, 8) as int;
    let k = bytes::field(v, 14, 4) as int;
    &&& v.len() >= HEADER_MIN
    &&& v.take(4) == magic()
    &&& v[4] == VERSION
    &&& v.len() >= 26 + k
    &&& v.len() >= 26 + k + bytes::field(v, 18 + k, 4)
    &&& 0 < n <= usize::MAX
    &&& !overlong(k, n)
}

/// The mixer's payload in an archive.
pub open spec fn payload_in(v: Seq<u8>) -> Seq<u8> {
    let k = bytes::field(v, 14, 4) as int;
    v.skip(26 + k + bytes::field(v, 18 + k, 4))
}

/// Bytes that the mixer has to deliver.
pub open spec fn owed(v: Seq<u8>) -> int {
    let k = bytes::field(v, 14, 4) as int;
    mixed_len(v.subrange(18, 18 + k), bytes::field(v, 6, 8) as int, k)
}

/// The bytes that the mixer delivers on the way: none, if the archive is refused before
/// its payload is read, or the payload is malformed.
pub open spec fn delivered(v: Seq<u8>) -> Seq<u8> {
    match levels::payload_data(payload_in(v), owed(v)) {
        Some(mixed) => if sound(v) {
            mixed
        } else {
            Seq::empty()
        },
        None => Seq::empty(),
    }
}

/// If there was anything to mix, the switch of the job's control was found off, and the
/// lengths of all segments were reported to it.
pub open spec fn written_under(d: Seq<u8>, level: u8, ctrl: Option<&Control>) -> bool {
    let m = mixed_bytes(d, level);
    m.len() > 0 ==> control::went_on(ctrl) && levels::tallied(m, levels::settings_of(level), ctrl)
}

/// If the mixer delivered any bytes, the switch of the job's control was found off, and
/// the lengths of all segments were reported to it.
pub open spec fn read_under(v: Seq<u8>, ctrl: Option<&Control>) -> bool {
    delivered(v).len() > 0 ==> control::went_on(ctrl) && levels::tallied_payload(
        payload_in(v),
        owed(v),
        ctrl,
    )
}

/// Reading an archive gets as far as the segments of its payload.
pub open spec fn reads_segments(v: Seq<u8>) -> bool {
    sound(v) && levels::reads_segments(payload_in(v), owed(v))
}

// ---------------------------------------------------------------------------
// Laws
// ---------------------------------------------------------------------------

/// At every level an input has one archive: neither the machine nor its memory nor the
/// number of its cores makes a difference.
pub proof fn archives_are_determined(d: Seq<u8>, level: u8, v: Seq<u8>, w: Seq<u8>)
    requires
        compressed(d, level, v),
        compressed(d, level, w),
    ensures
        v == w,
{
    let s = levels::settings_of(level);
    let m = mixed_bytes(d, level);
    let a = choose|t: Option<Seq<u8>>|
        #[trigger] levels::prepared(m, s, t) && v == archive(d, level, levels::payload_of(m, s, t));
    let b = choose|t: Option<Seq<u8>>|
        #[trigger] levels::prepared(m, s, t) && w == archive(d, level, levels::payload_of(m, s, t));
    levels::prepared_once(m, s, a, b);
}

/// Nothing is returned that does not have the recorded checksum.
pub proof fn wrong_bytes_are_refused(v: Seq<u8>, d: Seq<u8>)
    requires
        restored(v) == Ok::<Seq<u8>, Error>(d),
    ensures
        checksum::crc32_of(d) == bytes::field(
            v,
            22 + bytes::field(v, 14, 4) as int,
            4,
        ) as u32,
{
}

/// Text in ASCII is always mixed: no block of it is stored raw, at any level.
pub proof fn ascii_is_never_stored_raw(d: Seq<u8>, level: u8)
    requires
        forall|i: int| 0 <= i < d.len() ==> #[trigger] d[i] < 128,
    ensures
        forall|i: int| 0 <= i < tags(d, level).len() ==> #[trigger] tags(d, level)[i] != 0xFF,
        raw_bytes(d, level).len() == 0,
        flags(d, level) % 2 == 0,
{
    let n = d.len() as int;
    assert forall|i: int| 0 <= i < tags(d, level).len() implies #[trigger] tags(d, level)[i]
        != 0xFF by {
        if n > 0 {
            lemma_block(n, i);
        }
        let b = block_at(d, i);
        assert forall|j: int| 0 <= j < b.len() implies #[trigger] b[j] < 128 by {
            assert(b[j] == d[i * 4096 + j]);
        }
        spread::ascii_is_not_random(b);
        lemma_tag(b, level);
        reveal(tag_of);
    }
    lemma_nothing_raw(d, level, block_count(n));
}

proof fn lemma_nothing_raw(d: Seq<u8>, level: u8, k: int)
    requires
        0 <= k <= tags(d, level).len(),
        forall|i: int| 0 <= i < tags(d, level).len() ==> #[trigger] tags(d, level)[i] != 0xFF,
    ensures
        framing::joined(raw_parts(d, level), k).len() == 0,
    decreases k,
{
    if k > 0 {
        lemma_nothing_raw(d, level, k - 1);
        assert(tags(d, level)[k - 1] != 0xFF);
    }
}

/// A block is stored raw exactly if it has more than 7.5 bits per byte, at every level.
/// Below level 5 every other block is mixed as it is. From level 5 on, a block with less
/// than 6 bits per byte, for which differences of neighbours do not already save half a
/// bit, gets a transform exactly if one saves more than 8 bits over the whole block, and
/// then one that no other candidate outdoes.
pub proof fn blocks_are_tagged_by_what_helps(d: Seq<u8>, level: u8, i: int)
    requires
        0 <= i < tags(d, level).len(),
    ensures
        ({
            let b = block_at(d, i);
            let t = tags(d, level)[i];
            let ops = search::candidate_ops();
            let e = entropy::entropy(b);
            let delta = b.len() >= 2 && 2 * (e - entropy::entropy(classifier::differences(b)))
                > 0x10_0000;
            let looked = level >= 5 && e < 6 * 0x10_0000 && !delta;
            let pays = |k: int|
                (e - entropy::entropy(ops[k].applied(b))) * b.len() > 8 * 0x10_0000;
            &&& (t == 0xFF) == (2 * e > 15 * 0x10_0000)
            &&& t != 0xFF ==> 0 <= t <= ops.len()
            &&& 1 <= t < 0xFF ==> looked && pays(t - 1) && forall|j: int|
                0 <= j < ops.len() ==> entropy::entropy(ops[t - 1].applied(b)) * b.len()
                    <= entropy::entropy(#[trigger] ops[j].applied(b)) * b.len()
            &&& t == 0 && looked ==> forall|j: int| 0 <= j < ops.len() ==> !#[trigger] pays(j)
        }),
{
    let b = block_at(d, i);
    let t = tags(d, level)[i];
    let ops = search::candidate_ops();
    let e = entropy::entropy(b);
    reveal(tag_of);
    lemma_tag(b, level);
    if exists|k: int| search::is_best(b, k) {
        let k = choose|k: int| search::is_best(b, k);
        assert(search::is_best(b, k));
        assert forall|j: int| 0 <= j < ops.len() implies entropy::entropy(ops[k].applied(b))
            * b.len() <= entropy::entropy(#[trigger] ops[j].applied(b)) * b.len() by {
            assert(search::gain(b, ops[j]) <= search::gain(b, ops[k]));
            let (x, y, n) = (
                entropy::entropy(ops[j].applied(b)),
                entropy::entropy(ops[k].applied(b)),
                b.len() as int,
            );
            assert((e - x) * n == e * n - x * n && (e - y) * n == e * n - y * n)
                by (nonlinear_arith);
        }
    } else {
        search::best_exists(b);
    }
}

proof fn lemma_tag(b: Seq<u8>, level: u8)
    ensures
        tag_of(b, level) == TAG_NORMAL || tag_of(b, level) == TAG_PASSTHROUGH || 1 <= tag_of(
            b,
            level,
        ) <= 8,
{
    reveal(tag_of);
    if exists|k: int| search::is_best(b, k) {
        let k = choose|k: int| search::is_best(b, k);
        assert(search::is_best(b, k));
    }
}

/// What is mixed for a block has its length and can be turned back.
proof fn lemma_stored(b: Seq<u8>, level: u8)
    requires
        tag_of(b, level) != TAG_PASSTHROUGH,
    ensures
        stored(b, tag_of(b, level)).len() == b.len(),
        tag_of(b, level) != TAG_NORMAL ==> search::candidate_ops()[tag_of(b, level) - 1].inverted(
            stored(b, tag_of(b, level)),
        ) == b,
{
    let tag = tag_of(b, level);
    lemma_tag(b, level);
    if tag != TAG_NORMAL {
        search::candidates_are_reversible(tag - 1, b);
    }
}

proof fn lemma_block(n: int, i: int)
    requires
        n > 0,
        0 <= i < block_count(n),
    ensures
        0 <= i * 4096 < n,
        0 < block_len(n, i) <= 4096,
        i * 4096 + block_len(n, i) <= n,
        i + 1 < block_count(n) ==> block_len(n, i) == 4096,
        i + 1 == block_count(n) ==> i * 4096 + block_len(n, i) == n,
{
}

proof fn lemma_joined_step(parts: Seq<Seq<u8>>, i: int, k: int)
    requires
        0 <= i < k <= parts.len(),
    ensures
        framing::joined(parts, i).len() + parts[i].len() <= framing::joined(parts, k).len(),
        framing::joined(parts, k).skip(framing::joined(parts, i).len() as int).take(
            parts[i].len() as int,
        ) == parts[i],
        framing::joined(parts, k).skip(framing::joined(parts, i).len() as int).skip(
            parts[i].len() as int,
        ) == framing::joined(parts, k).skip(framing::joined(parts, i + 1).len() as int),
        framing::joined(parts, i + 1).len() == framing::joined(parts, i).len() + parts[i].len(),
    decreases k,
{
    let all = framing::joined(parts, k);
    let at = framing::joined(parts, i).len() as int;
    let len = parts[i].len() as int;
    if i < k - 1 {
        lemma_joined_step(parts, i, k - 1);
        let less = framing::joined(parts, k - 1);
        assert(all.skip(at).take(len) =~= less.skip(at).take(len));
    } else {
        assert(all.skip(at).take(len) =~= parts[i]);
    }
    assert(all.skip(at).skip(len) =~= all.skip(at + len));
}

proof fn lemma_mixed_len(d: Seq<u8>, level: u8, k: int)
    requires
        0 <= k <= block_count(d.len() as int),
        d.len() > 0,
    ensures
        mixed_len(tags(d, level), d.len() as int, k) == framing::joined(
            mixed_parts(d, level),
            k,
        ).len(),
    decreases k,
{
    if k > 0 {
        lemma_mixed_len(d, level, k - 1);
        lemma_block(d.len() as int, k - 1);
        let b = block_at(d, k - 1);
        if tag_of(b, level) != TAG_PASSTHROUGH {
            lemma_stored(b, level);
        }
    }
}

/// Rebuilding from the streams that were written gives the original from block `i` on.
proof fn lemma_rebuilt(d: Seq<u8>, level: u8, i: int)
    requires
        d.len() > 0,
        0 <= i <= block_count(d.len() as int),
    ensures
        rebuilt(
            tags(d, level),
            i,
            d.len() as int,
            raw_bytes(d, level).skip(framing::joined(raw_parts(d, level), i).len() as int),
            mixed_bytes(d, level).skip(framing::joined(mixed_parts(d, level), i).len() as int),
        ) == Ok::<Seq<u8>, Error>(
            if i < block_count(d.len() as int) {
                d.skip(i * 4096)
            } else {
                Seq::empty()
            },
        ),
    decreases block_count(d.len() as int) - i,
{
    let n = d.len() as int;
    let k = block_count(n);
    if i < k {
        let t = tags(d, level);
        let b = block_at(d, i);
        lemma_block(n, i);
        lemma_rebuilt(d, level, i + 1);
        lemma_joined_step(raw_parts(d, level), i, k);
        lemma_joined_step(mixed_parts(d, level), i, k);
        lemma_tag(b, level);
        let none = Seq::<u8>::empty();
        let (rp, mp) = (raw_parts(d, level), mixed_parts(d, level));
        let rw = raw_bytes(d, level).skip(framing::joined(rp, i).len() as int);
        let mx = mixed_bytes(d, level).skip(framing::joined(mp, i).len() as int);
        let rw2 = raw_bytes(d, level).skip(framing::joined(rp, i + 1).len() as int);
        let mx2 = mixed_bytes(d, level).skip(framing::joined(mp, i + 1).len() as int);
        let rest = if i + 1 < k { d.skip((i + 1) * 4096) } else { none };
        assert(d.skip(i * 4096) =~= b + rest);
        assert(t[i] == tag_of(b, level));
        let tail = rebuilt(t, i + 1, n, rw2, mx2);
        assert(tail == Ok::<Seq<u8>, Error>(rest));
        let len = block_len(n, i);
        if t[i] == TAG_PASSTHROUGH {
            assert(rp[i] == b && mp[i] == none);
            assert(mx2 == mx);
            assert(rw.take(len) == b && rw.skip(len) == rw2);
            assert(rebuilt(t, i, n, rw, mx) == prepend(b, tail));
        } else {
            lemma_stored(b, level);
            assert(rp[i] == none && mp[i] == stored(b, t[i]));
            assert(rw2 == rw);
            assert(mx.take(len) == stored(b, t[i]) && mx.skip(len) == mx2);
            assert(rebuilt(t, i, n, rw, mx) == prepend(b, tail));
        }
    }
}

/// What was mixed is read back from the payload.
proof fn lemma_payload(d: Seq<u8>, level: u8, x: Option<Seq<u8>>)
    requires
        d.len() > 0,
        levels::prepared(mixed_bytes(d, level), levels::settings_of(level), x),
        block_count(d.len() as int) <= u32::MAX,
        d.len() <= usize::MAX,
    ensures
        levels::payload_data(
            levels::payload_of(mixed_bytes(d, level), levels::settings_of(level), x),
            mixed_len(tags(d, level), d.len() as int, tags(d, level).len() as int),
        ) == Some(mixed_bytes(d, level)),
        !overlong(tags(d, level).len() as int, d.len() as int),
{
    let s = levels::settings_of(level);
    let m = mixed_bytes(d, level);
    let n = d.len() as int;
    let k = block_count(n);
    lemma_mixed_len(d, level, k);
    lemma_mixed_bound(d, level, k);
    assert(framing::seg_count(m.len() as int, s.seg_size as int) <= u32::MAX) by {
        lemma_fewer_segments(m.len() as int, n, s.seg_size as int);
    }
    levels::payload_round_trip(m, level, x);
    lemma_block(n, k - 1);
}

/// How an archive was made, and what its fields are.
proof fn lemma_made(d: Seq<u8>, level: u8, v: Seq<u8>) -> (x: Option<Seq<u8>>)
    requires
        compressed(d, level, v),
        block_count(d.len() as int) <= u32::MAX,
        raw_bytes(d, level).len() <= u32::MAX,
        d.len() <= usize::MAX,
    ensures
        levels::prepared(mixed_bytes(d, level), levels::settings_of(level), x),
        ({
            let t = tags(d, level);
            let raw = raw_bytes(d, level);
            let k = t.len() as int;
            let r = raw.len() as int;
            &&& v.len() >= 26 + k + r
            &&& v.take(4) == magic()
            &&& v[4] == VERSION
            &&& bytes::field(v, 6, 8) == d.len()
            &&& bytes::field(v, 14, 4) == k
            &&& v.subrange(18, 18 + k) == t
            &&& bytes::field(v, 18 + k, 4) == r
            &&& bytes::field(v, 22 + k, 4) == checksum::crc32_of(d)
            &&& v.subrange(26 + k, 26 + k + r) == raw
            &&& v.skip(26 + k + r) == levels::payload_of(
                mixed_bytes(d, level),
                levels::settings_of(level),
                x,
            )
        }),
{
    let s = levels::settings_of(level);
    let m = mixed_bytes(d, level);
    let x = choose|x: Option<Seq<u8>>|
        #[trigger] levels::prepared(m, s, x) && v == archive(
            d,
            level,
            levels::payload_of(m, s, x),
        );
    lemma_archive_fields(d, level, levels::payload_of(m, s, x));
    x
}

/// Decompressing an archive gives back the original, at every level. The number of
/// blocks and the length of the raw bytes have to fit their 32-bit fields.
pub proof fn archive_round_trip(d: Seq<u8>, level: u8, v: Seq<u8>)
    requires
        compressed(d, level, v),
        block_count(d.len() as int) <= u32::MAX,
        raw_bytes(d, level).len() <= u32::MAX,
        d.len() <= usize::MAX,
    ensures
        restored(v) == Ok::<Seq<u8>, Error>(d),
{
    let x = lemma_made(d, level, v);
    if d.len() > 0 {
        lemma_payload(d, level, x);
        lemma_rebuilt(d, level, 0);
        let (raw, m) = (raw_bytes(d, level), mixed_bytes(d, level));
        assert(raw.skip(0) =~= raw);
        assert(m.skip(0) =~= m);
        assert(d.skip(0) =~= d);
    } else {
        assert(d =~= Seq::empty());
    }
}

proof fn lemma_layout(d: Seq<u8>, level: u8, p: Seq<u8>)
    ensures
        ({
            let v = archive(d, level, p);
            let t = tags(d, level);
            let k = t.len() as int;
            let raw = raw_bytes(d, level);
            let r = raw.len() as int;
            &&& v.len() == 26 + k + r + p.len()
            &&& v[0] == 67 && v[1] == 80 && v[2] == 71 && v[3] == 67
            &&& v[4] == VERSION
            &&& v[5] == flags(d, level)
            &&& v.subrange(6, 14) == bytes::le(d.len(), 8)
            &&& v.subrange(14, 18) == bytes::le(t.len(), 4)
            &&& v.subrange(18, 18 + k) == t
            &&& v.subrange(18 + k, 22 + k) == bytes::le(r as nat, 4)
            &&& v.subrange(22 + k, 26 + k) == bytes::le(checksum::crc32_of(d) as nat, 4)
            &&& v.subrange(26 + k, 26 + k + r) == raw
            &&& v.skip(26 + k + r) == p
        }),
{
    let v = archive(d, level, p);
    let t = tags(d, level);
    let k = t.len() as int;
    let raw = raw_bytes(d, level);
    let r = raw.len() as int;
    let crc = checksum::crc32_of(d);
    bytes::least_significant_first(d.len(), 8, 0);
    bytes::least_significant_first(t.len(), 4, 0);
    bytes::least_significant_first(raw.len(), 4, 0);
    bytes::least_significant_first(crc as nat, 4, 0);
    assert(v.subrange(6, 14) =~= bytes::le(d.len(), 8));
    assert(v.subrange(14, 18) =~= bytes::le(t.len(), 4));
    assert(v.subrange(18, 18 + k) =~= t);
    assert(v.subrange(18 + k, 22 + k) =~= bytes::le(raw.len(), 4));
    assert(v.subrange(22 + k, 26 + k) =~= bytes::le(crc as nat, 4));
    assert(v.subrange(26 + k, 26 + k + r) =~= raw);
    assert(v.skip(26 + k + r) =~= p);
}

/// Where things stand in an archive with `k` blocks of 4096 bytes: "CPGC", version 4,
/// the flags, the length in eight bytes, `k` in four, a tag for each block, the length
/// of the raw bytes in four, the checksum of the original in four, the raw bytes, and
/// what was mixed. A flag tells whether there are raw bytes.
pub proof fn archive_layout(d: Seq<u8>, level: u8, v: Seq<u8>)
    requires
        compressed(d, level, v),
    ensures
        ({
            let n = d.len() as int;
            let k = n / 4096 + if n % 4096 > 0 { 1int } else { 0int };
            let raw = raw_bytes(d, level);
            let r = raw.len() as int;
            &&& v[0] == 67 && v[1] == 80 && v[2] == 71 && v[3] == 67
            &&& v[4] == 4
            &&& v[5] < 4
            &&& (v[5] % 2 == 1) == (r > 0)
            &&& v.subrange(6, 14) == bytes::le(n as nat, 8)
            &&& v.subrange(14, 18) == bytes::le(k as nat, 4)
            &&& v.subrange(18, 18 + k) == tags(d, level)
            &&& v.subrange(18 + k, 22 + k) == bytes::le(r as nat, 4)
            &&& v.subrange(22 + k, 26 + k) == bytes::le(checksum::crc32_of(d) as nat, 4)
            &&& v.subrange(26 + k, 26 + k + r) == raw
            &&& mixed_bytes(d, level).len() == 0 ==> v.len() == 26 + k + r
        }),
{
    let s = levels::settings_of(level);
    let m = mixed_bytes(d, level);
    let x = choose|x: Option<Seq<u8>>|
        #[trigger] levels::prepared(m, s, x) && v == archive(
            d,
            level,
            levels::payload_of(m, s, x),
        );
    lemma_layout(d, level, levels::payload_of(m, s, x));
}

/// A flag tells whether any block was transformed.
pub proof fn flags_tell_of_transforms(d: Seq<u8>, level: u8)
    ensures
        (flags(d, level) / 2 == 1) == exists|i: int|
            0 <= i < tags(d, level).len() && 1 <= #[trigger] tags(d, level)[i] < 0xFF,
{
    let t = tags(d, level);
    if exists|i: int| 0 <= i < t.len() && transform_tag(#[trigger] t[i]) {
        let i = choose|i: int| 0 <= i < t.len() && transform_tag(#[trigger] t[i]);
        assert(1 <= t[i] < 0xFF);
    }
    if exists|i: int| 0 <= i < t.len() && 1 <= #[trigger] t[i] < 0xFF {
        let i = choose|i: int| 0 <= i < t.len() && 1 <= #[trigger] t[i] < 0xFF;
        assert(transform_tag(t[i]));
    }
}

/// What was mixed starts with the memory profile, whether the turbo model was used, and
/// the segment size of the level.
pub proof fn archive_names_its_level(d: Seq<u8>, level: u8, v: Seq<u8>)
    requires
        compressed(d, level, v),
        1 <= level <= 9,
        mixed_bytes(d, level).len() > 0,
    ensures
        ({
            let at = 26 + tags(d, level).len() + raw_bytes(d, level).len() as int;
            &&& v.len() >= at + 5
            &&& v[at] / 4 == (if level <= 6 { 0 } else { level - 6 })
            &&& v[at] % 2 == (if level <= 3 { 1int } else { 0int })
            &&& bytes::field(v, at + 1, 4) == seq![1int, 2, 4, 8, 16, 32, 64, 64, 256][level - 1]
                * 1048576
        }),
{
    let s = levels::settings_of(level);
    let m = mixed_bytes(d, level);
    let x = choose|x: Option<Seq<u8>>|
        #[trigger] levels::prepared(m, s, x) && v == archive(
            d,
            level,
            levels::payload_of(m, s, x),
        );
    let p = levels::payload_of(m, s, x);
    let at = 26 + tags(d, level).len() + raw_bytes(d, level).len() as int;
    lemma_layout(d, level, p);
    levels::payload_names_its_level(m, level, x);
    let w = v.skip(at);
    assert(v[at] == w[0]);
    assert(v.subrange(at + 1, at + 5) =~= w.subrange(1, 5));
}

/// What is mixed into an archive is what the mixer delivers when it is read.
pub proof fn mixed_bytes_are_delivered(d: Seq<u8>, level: u8, v: Seq<u8>)
    requires
        compressed(d, level, v),
        block_count(d.len() as int) <= u32::MAX,
        raw_bytes(d, level).len() <= u32::MAX,
        d.len() <= usize::MAX,
    ensures
        delivered(v) == mixed_bytes(d, level),
{
    let x = lemma_made(d, level, v);
    if d.len() > 0 {
        lemma_payload(d, level, x);
    } else {
        assert(mixed_bytes(d, level) =~= Seq::empty());
    }
}

proof fn lemma_mixed_bound(d: Seq<u8>, level: u8, k: int)
    requires
        d.len() > 0,
        0 <= k <= block_count(d.len() as int),
    ensures
        framing::joined(mixed_parts(d, level), k).len() <= d.len(),
        framing::joined(mixed_parts(d, level), k).len() <= k * 4096,
    decreases k,
{
    if k > 0 {
        lemma_mixed_bound(d, level, k - 1);
        lemma_block(d.len() as int, k - 1);
        let b = block_at(d, k - 1);
        if tag_of(b, level) != TAG_PASSTHROUGH {
            lemma_stored(b, level);
        }
    }
}

/// Larger pieces are fewer.
proof fn lemma_fewer_segments(m: int, n: int, seg: int)
    requires
        0 <= m <= n,
        seg >= 4096,
        block_count(n) <= u32::MAX,
    ensures
        framing::seg_count(m, seg) <= u32::MAX,
{
    let c = block_count(n);
    assert(n <= c * 4096);
    assert(m <= c * seg) by (nonlinear_arith)
        requires
            m <= c * 4096,
            seg >= 4096,
            c >= 0,
    ;
    assert(framing::seg_count(m, seg) <= c) by (nonlinear_arith)
        requires
            0 <= m <= c * seg,
            seg > 0,
            framing::seg_count(m, seg) == m / seg + (if m % seg > 0 {
                1int
            } else {
                0int
            }),
    ;
}

/// The fields of an archive are where they should be.
proof fn lemma_archive_fields(d: Seq<u8>, level: u8, payload: Seq<u8>)
    requires
        block_count(d.len() as int) <= u32::MAX,
        raw_bytes(d, level).len() <= u32::MAX,
        d.len() <= usize::MAX,
    ensures
        ({
            let v = archive(d, level, payload);
            let t = tags(d, level);
            let raw = raw_bytes(d, level);
            let k = t.len() as int;
            let r = raw.len() as int;
            &&& v.len() == 26 + k + r + payload.len()
            &&& v.take(4) == magic()
            &&& v[4] == VERSION
            &&& v[5] == flags(d, level)
            &&& bytes::field(v, 6, 8) == d.len()
            &&& bytes::field(v, 14, 4) == k
            &&& v.subrange(18, 18 + k) == t
            &&& bytes::field(v, 18 + k, 4) == r
            &&& bytes::field(v, 22 + k, 4) == checksum::crc32_of(d)
            &&& v.subrange(26 + k, 26 + k + r) == raw
            &&& v.skip(26 + k + r) == payload
        }),
{
    let v = archive(d, level, payload);
    let t = tags(d, level);
    let raw = raw_bytes(d, level);
    let k = t.len() as int;
    let r = raw.len() as int;
    let crc = checksum::crc32_of(d);
    bytes::lemma_widths();
    bytes::le_round_trip(d.len(), 8);
    bytes::le_round_trip(t.len(), 4);
    bytes::le_round_trip(raw.len(), 4);
    bytes::le_round_trip(crc as nat, 4);
    assert(v.take(4) =~= magic());
    assert(v.subrange(6, 14) =~= bytes::le(d.len(), 8));
    assert(v.subrange(14, 18) =~= bytes::le(t.len(), 4));
    assert(v.subrange(18, 18 + k) =~= t);
    assert(v.subrange(18 + k, 22 + k) =~= bytes::le(raw.len(), 4));
    assert(v.subrange(22 + k, 26 + k) =~= bytes::le(crc as nat, 4));
    assert(v.subrange(26 + k, 26 + k + r) =~= raw);
    assert(v.skip(26 + k + r) =~= payload);
}

// ---------------------------------------------------------------------------
// Compressing
// ---------------------------------------------------------------------------

/// The tag of a block, and the transformed block if there is one.
fn tag_block(b: &[u8], level: u8, raw: bool, search_it: bool) -> (r: (u8, Option<Vec<u8>>))
    requires
        raw == classifier::incompressible(b@),
        search_it == (!raw && classifier::structured(b@)),
    ensures
        r.0 == tag_of(b@, level),
        match r.1 {
            Some(t) => transform_tag(r.0) && t@ == stored(b@, r.0),
            None => !transform_tag(r.0),
        },
{
    proof {
        reveal(tag_of);
    }
    if raw {
        return (TAG_PASSTHROUGH, None);
    }
    if level >= 5 && search_it {
        if let Some((op, t)) = search::find_best_transform(b) {
            let ghost k = choose|k: int|
                #[trigger] search::is_best(b@, k) && op == search::candidate_ops()[k];
            if let Some(tag) = search::op_to_tag(op) {
                proof {
                    search::candidates_differ(tag - 1, k);
                    let j = choose|j: int| search::is_best(b@, j);
                    search::best_is_unique(b@, j, k);
                }
                return (tag, Some(t));
            }
            assert(search::candidate_ops()[k] == op);
        } else {
            assert forall|k: int| !search::is_best(b@, k) by {
                if search::is_best(b@, k) {
                    assert(search::gain(b@, search::candidate_ops()[k]) > search::TRANSFORM_COST);
                }
            }
        }
    }
    (TAG_NORMAL, None)
}

/// The tags of all blocks, the raw and the mixed bytes, and whether any block was
/// transformed.
struct Plan {
    tags: Vec<u8>,
    raw: Vec<u8>,
    mixed: Vec<u8>,
    changed: bool,
}

fn plan(input: &[u8], level: u8) -> (p: Plan)
    ensures
        p.tags@ == tags(input@, level),
        p.raw@ == raw_bytes(input@, level),
        p.mixed@ == mixed_bytes(input@, level),
        p.changed == exists|i: int|
            0 <= i < tags(input@, level).len() && transform_tag(#[trigger] tags(input@, level)[i]),
{
    let n: usize = input.len();
    let ghost d = input@;
    let ghost goal = tags(d, level);
    let regions = classifier::classify(input);
    let count: usize = regions.len();
    let mut p = Plan {
        tags: Vec::new(),
        raw: Vec::new(),
        mixed: Vec::new(),
        changed: false,
    };
    let mut i: usize = 0;
    let mut start: usize = 0;
    while i < count
        invariant
            n == input@.len(),
            d == input@,
            goal == tags(d, level),
            count == block_count(n as int) == goal.len(),
            regions@ == classifier::regions(d, false),
            i <= count,
            i < count ==> start == i * 4096,
            p.tags@ == goal.take(i as int),
            p.raw@ == framing::joined(raw_parts(d, level), i as int),
            p.mixed@ == framing::joined(mixed_parts(d, level), i as int),
            p.changed == exists|j: int| 0 <= j < i && transform_tag(#[trigger] goal[j]),
        decreases count - i,
    {
        proof {
            lemma_block(n as int, i as int);
            if i + 1 < count {
                lemma_block(n as int, i + 1);
            }
        }
        let len: usize = if WINDOW_SIZE < n - start {
            WINDOW_SIZE
        } else {
            n - start
        };
        let b = &input[start..start + len];
        assert(b@ == block_at(d, i as int));
        let r = regions[i];
        assert(r == classifier::region(b@, i * 4096, false));
        let (tag, t) = tag_block(b, level, r.passthrough, r.use_transform);
        assert(tag == goal[i as int]);
        let ghost was = p;
        p.tags.push(tag);
        assert(p.tags@ =~= goal.take(i + 1));
        if tag == TAG_PASSTHROUGH {
            p.raw.extend_from_slice(b);
        } else {
            match t {
                Some(t) => {
                    p.mixed.extend_from_slice(t.as_slice());
                    p.changed = true;
                },
                None => {
                    p.mixed.extend_from_slice(b);
                },
            }
        }
        proof {
            let (rp, mp) = (raw_parts(d, level), mixed_parts(d, level));
            assert(p.raw@ =~= was.raw@ + rp[i as int]);
            assert(p.mixed@ =~= was.mixed@ + mp[i as int]);
            if transform_tag(goal[i as int]) {
                assert(p.changed);
            } else if was.changed {
                let j = choose|j: int| 0 <= j < i && transform_tag(#[trigger] goal[j]);
                assert(transform_tag(goal[j]));
            }
        }
        start = start + len;
        i = i + 1;
    }
    assert(goal.take(count as int) =~= goal);
    p
}

/// Compress, unless `ctrl` asks to stop.
fn compress_watched(input: &[u8], level: u8, ctrl: Option<&Control>) -> (r: Result<Vec<u8>, Error>)
    ensures
        match r {
            Ok(v) => {
                &&& compressed(input@, level, v@)
                &&& written_under(input@, level, ctrl)
            },
            Err(e) => {
                &&& e == Error::Cancelled
                &&& mixed_bytes(input@, level).len() > 0
                &&& control::stopped(ctrl)
            },
        },
{
    let ghost d = input@;
    let p = plan(input, level);
    let payload = match levels::encode_level(p.mixed.as_slice(), level, ctrl) {
        Some(v) => v,
        None => {
            return Err(Error::Cancelled);
        },
    };
    let ghost m = mixed_bytes(d, level);
    let ghost s = levels::settings_of(level);
    let ghost t = choose|t: Option<Seq<u8>>|
        #[trigger] levels::prepared(m, s, t) && payload@ == levels::payload_of(m, s, t);
    let crc = checksum::crc32(input);
    let mut flag: u8 = 0;
    if p.raw.len() > 0 {
        flag = 1;
    }
    if p.changed {
        flag = flag + 2;
    }
    assert(flag == flags(d, level));
    let mut out: Vec<u8> = Vec::new();
    out.push(67);
    out.push(80);
    out.push(71);
    out.push(67);
    out.push(VERSION);
    out.push(flag);
    bytes::push_le(&mut out, input.len() as u64, 8);
    bytes::push_le(&mut out, p.tags.len() as u64, 4);
    out.extend_from_slice(p.tags.as_slice());
    bytes::push_le(&mut out, p.raw.len() as u64, 4);
    bytes::push_le(&mut out, crc as u64, 4);
    out.extend_from_slice(p.raw.as_slice());
    out.extend_from_slice(payload.as_slice());
    assert(out@ =~= archive(d, level, payload@));
    assert(levels::prepared(m, s, t));
    Ok(out)
}

/// Compress `input`.
pub fn compress(input: &[u8], level: u8) -> (r: Result<Vec<u8>, Error>)
    ensures
        r matches Ok(v) && compressed(input@, level, v@),
{
    compress_watched(input, level, None)
}

/// Compress `input`, with a handle to watch and cancel the job. It fails only
/// if it was found cancelled, and never if there is nothing to mix; if there is, it
/// succeeds only if it was found not cancelled.
pub fn compress_with_control(input: &[u8], level: u8, ctrl: &Control) -> (r: Result<
    Vec<u8>,
    Error,
>)
    ensures
        match r {
            Ok(v) => {
                &&& compressed(input@, level, v@)
                &&& written_under(input@, level, Some(ctrl))
            },
            Err(e) => {
                &&& e == Error::Cancelled
                &&& mixed_bytes(input@, level).len() > 0
                &&& ctrl.found(true)
            },
        },
{
    compress_watched(input, level, Some(ctrl))
}

// ---------------------------------------------------------------------------
// Decompressing
// ---------------------------------------------------------------------------

/// The bytes in a result.
pub open spec fn seen(r: Result<Vec<u8>, Error>) -> Result<Seq<u8>, Error> {
    match r {
        Ok(v) => Ok(v@),
        Err(e) => Err(e),
    }
}

fn is_magic(v: &[u8]) -> (r: bool)
    requires
        v@.len() >= 4,
    ensures
        r == (v@.take(4) == magic()),
{
    let r = v[0] == 67 && v[1] == 80 && v[2] == 71 && v[3] == 67;
    proof {
        let t = v@.take(4);
        if r {
            assert(t =~= magic());
        } else {
            assert(t[0] == v@[0] && t[1] == v@[1] && t[2] == v@[2] && t[3] == v@[3]);
            assert(magic()[0] == 67 && magic()[1] == 80 && magic()[2] == 71 && magic()[3] == 67);
        }
    }
    r
}

/// Bytes that the mixer has to deliver.
fn mixed_total(t: &[u8], n: usize) -> (r: usize)
    requires
        !overlong(t@.len() as int, n as int),
    ensures
        r == mixed_len(t@, n as int, t@.len() as int),
        r <= n,
{
    let mut total: usize = 0;
    let mut start: usize = 0;
    let mut i: usize = 0;
    while i < t.len()
        invariant
            i <= t@.len(),
            !overlong(t@.len() as int, n as int),
            i < t@.len() ==> start == i * 4096,
            start <= n,
            total <= start,
            total == mixed_len(t@, n as int, i as int),
        decreases t@.len() - i,
    {
        let len: usize = if WINDOW_SIZE < n - start {
            WINDOW_SIZE
        } else {
            n - start
        };
        assert(len == block_len(n as int, i as int));
        if t[i] != TAG_PASSTHROUGH {
            total = total + len;
        }
        start = start + len;
        i = i + 1;
    }
    total
}

proof fn lemma_prepend(a: Seq<u8>, b: Seq<u8>, r: Result<Seq<u8>, Error>)
    ensures
        prepend(a, prepend(b, r)) == prepend(a + b, r),
{
    match r {
        Ok(s) => {
            assert(a + (b + s) =~= a + b + s);
        },
        Err(_) => {},
    }
}

/// Put the blocks back in order.
fn rebuild(t: &[u8], n: usize, raw: &[u8], mixed: &[u8]) -> (r: Result<Vec<u8>, Error>)
    requires
        !overlong(t@.len() as int, n as int),
    ensures
        seen(r) == rebuilt(t@, 0, n as int, raw@, mixed@),
        !(r matches Err(Error::Cancelled)),
{
    let ghost whole = rebuilt(t@, 0, n as int, raw@, mixed@);
    let ops = search::candidates();
    let raw_len: usize = raw.len();
    let mixed_len: usize = mixed.len();
    let mut out: Vec<u8> = Vec::new();
    let mut rp: usize = 0;
    let mut mp: usize = 0;
    let mut start: usize = 0;
    let mut i: usize = 0;
    proof {
        assert(raw@.skip(0) =~= raw@);
        assert(mixed@.skip(0) =~= mixed@);
        match whole {
            Ok(s) => {
                assert(out@ + s =~= s);
            },
            Err(_) => {},
        }
    }
    while i < t.len()
        invariant
            i <= t@.len(),
            !overlong(t@.len() as int, n as int),
            i < t@.len() ==> start == i * 4096,
            start <= n,
            raw_len == raw@.len(),
            mixed_len == mixed@.len(),
            rp <= raw_len,
            mp <= mixed_len,
            ops@ == search::candidate_ops(),
            whole == rebuilt(t@, 0, n as int, raw@, mixed@),
            whole == prepend(
                out@,
                rebuilt(
                    t@,
                    i as int,
                    n as int,
                    raw@.skip(rp as int),
                    mixed@.skip(mp as int),
                ),
            ),
        decreases t@.len() - i,
    {
        let len: usize = if WINDOW_SIZE < n - start {
            WINDOW_SIZE
        } else {
            n - start
        };
        let ghost was = out@;
        let ghost (rw, mx) = (raw@.skip(rp as int), mixed@.skip(mp as int));
        assert(len == block_len(n as int, i as int));
        let tag = t[i];
        if tag == TAG_PASSTHROUGH {
            if raw_len - rp < len {
                return Err(Error::RawUnderrun(i));
            }
            out.extend_from_slice(&raw[rp..rp + len]);
            proof {
                assert(rw.take(len as int) =~= raw@.subrange(rp as int, rp + len));
                assert(rw.skip(len as int) =~= raw@.skip(rp + len));
                lemma_prepend(
                    was,
                    rw.take(len as int),
                    rebuilt(t@, i + 1, n as int, raw@.skip(rp + len), mx),
                );
            }
            assert(rebuilt(t@, i as int, n as int, rw, mx) == prepend(
                rw.take(len as int),
                rebuilt(t@, i + 1, n as int, raw@.skip(rp + len), mx),
            ));
            assert(out@ == was + rw.take(len as int));
            rp = rp + len;
        } else {
            if mixed_len - mp < len {
                if tag == TAG_NORMAL {
                    return Err(Error::MixedUnderrun(i));
                }
                return Err(Error::TransformUnderrun(i));
            }
            let ghost part = mx.take(len as int);
            proof {
                assert(part =~= mixed@.subrange(mp as int, mp + len));
                assert(mx.skip(len as int) =~= mixed@.skip(mp + len));
            }
            let ghost tail = rebuilt(t@, i + 1, n as int, rw, mixed@.skip(mp + len));
            if tag == TAG_NORMAL {
                out.extend_from_slice(&mixed[mp..mp + len]);
                proof {
                    assert(rebuilt(t@, i as int, n as int, rw, mx) == prepend(part, tail));
                    lemma_prepend(was, part, tail);
                    assert(out@ =~= was + part);
                }
            } else {
                if tag > 8 {
                    return Err(Error::UnknownTag(tag));
                }
                let mut block: Vec<u8> = Vec::new();
                block.extend_from_slice(&mixed[mp..mp + len]);
                assert(block@ =~= part);
                let op = ops[tag as usize - 1];
                assert(op == search::candidate_ops()[tag - 1]);
                op.invert(&mut block);
                out.extend_from_slice(block.as_slice());
                proof {
                    assert(rebuilt(t@, i as int, n as int, rw, mx) == prepend(block@, tail));
                    lemma_prepend(was, block@, tail);
                    assert(out@ =~= was + block@);
                }
            }
            assert(whole == prepend(out@, tail));
            mp = mp + len;
        }
        start = start + len;
        i = i + 1;
    }
    assert(out@ + Seq::<u8>::empty() =~= out@);
    Ok(out)
}

/// Decompress, unless `ctrl` asks to stop.
fn decompress_watched(v: &[u8], ctrl: Option<&Control>) -> (r: Result<Vec<u8>, Error>)
    ensures
        match r {
            Err(Error::Cancelled) => reads_segments(v@) && control::stopped(ctrl),
            _ => {
                &&& seen(r) == restored(v@)
                &&& read_under(v@, ctrl)
            },
        },
{
    let len: usize = v.len();
    if len < HEADER_MIN {
        return Err(Error::TooShort);
    }
    if !is_magic(v) {
        return Err(Error::BadMagic);
    }
    if v[4] != VERSION {
        return Err(Error::BadVersion(v[4]));
    }
    proof {
        bytes::lemma_widths();
    }
    let orig_len: u64 = bytes::read_le(v, 6, 8);
    let k64: u64 = bytes::read_le(v, 14, 4);
    if (len as u64) < 26 + k64 {
        return Err(Error::TruncatedTable);
    }
    let k: usize = k64 as usize;
    let raw64: u64 = bytes::read_le(v, 18 + k, 4);
    let crc: u32 = bytes::read_le(v, 22 + k, 4) as u32;
    if (len as u64) < 26 + k64 + raw64 {
        return Err(Error::TruncatedRaw);
    }
    let raw_len: usize = raw64 as usize;
    if orig_len > usize::MAX as u64 {
        return Err(Error::TooLarge);
    }
    let n: usize = orig_len as usize;
    if n == 0 {
        let empty: Vec<u8> = Vec::new();
        assert(empty@ =~= Seq::empty());
        if crc != checksum::crc32(empty.as_slice()) {
            return Err(Error::EmptyChecksum);
        }
        return Ok(empty);
    }
    if k > 0 && (k64 - 1) * 4096 > orig_len {
        return Err(Error::BadTable);
    }
    let t = &v[18..18 + k];
    let raw = &v[26 + k..26 + k + raw_len];
    let total = mixed_total(t, n);
    assert(v@.subrange(26 + k + raw_len, len as int) =~= v@.skip(26 + k + raw_len));
    let mixed = match levels::decode_level(&v[26 + k + raw_len..len], total, ctrl) {
        Ok(m) => m,
        Err(Stop::Malformed) => {
            return Err(Error::BadPayload);
        },
        Err(Stop::Cancelled) => {
            return Err(Error::Cancelled);
        },
    };
    match rebuild(t, n, raw, mixed.as_slice()) {
        Ok(out) => {
            let actual = checksum::crc32(out.as_slice());
            if actual != crc {
                return Err(Error::Checksum { expected: crc, actual });
            }
            Ok(out)
        },
        Err(e) => Err(e),
    }
}

/// Decompress an archive.
pub fn decompress(input: &[u8]) -> (r: Result<Vec<u8>, Error>)
    ensures
        seen(r) == restored(input@),
        !(r matches Err(Error::Cancelled)),
{
    decompress_watched(input, None)
}

/// Decompress an archive, with a handle to watch and cancel the job. It is answered
/// `Cancelled` only if its segments were reached and it was found cancelled; any other
/// answer for which the mixer delivered bytes means that it was found not cancelled.
pub fn decompress_with_control(input: &[u8], ctrl: &Control) -> (r: Result<Vec<u8>, Error>)
    ensures
        match r {
            Err(Error::Cancelled) => reads_segments(input@) && ctrl.found(true),
            _ => {
                &&& seen(r) == restored(input@)
                &&& read_under(input@, Some(ctrl))
            },
        },
{
    decompress_watched(input, Some(ctrl))
}

// ---------------------------------------------------------------------------
// Looking at an archive
// ---------------------------------------------------------------------------

/// What the header of an archive says.
#[derive(Clone, Copy, Debug, PartialEq, Eq, Structural)]
pub struct Info {
    pub version: u8,
    pub flags: u8,
    pub orig_len: u64,
    pub blocks: u64,
    /// Length of the raw blocks; 0 if the archive ends before it says.
    pub raw_len: u64,
    /// Length of the mixer's payload.
    pub payload_len: u64,
}

/// What the header of `v` says, checking no more than that it is one.
pub open spec fn header_info(v: Seq<u8>) -> Result<Info, Error> {
    let k = bytes::field(v, 14, 4) as int;
    let raw_len = if v.len() >= 22 + k { bytes::field(v, 18 + k, 4) as int } else { 0 };
    let rest = v.len() - (26 + k + raw_len);
    if v.len() < 22 {
        Err(Error::TooShort)
    } else if v.take(4) != magic() {
        Err(Error::BadMagic)
    } else {
        Ok(
            Info {
                version: v[4],
                flags: v[5],
                orig_len: bytes::field(v, 6, 8) as u64,
                blocks: k as u64,
                raw_len: raw_len as u64,
                payload_len: (if rest > 0 { rest } else { 0 }) as u64,
            },
        )
    }
}

/// What the header of an archive says.
pub fn archive_info(v: &[u8]) -> (r: Result<Info, Error>)
    ensures
        r == header_info(v@),
{
    let len: usize = v.len();
    if len < 22 {
        return Err(Error::TooShort);
    }
    if !is_magic(v) {
        return Err(Error::BadMagic);
    }
    proof {
        bytes::lemma_widths();
    }
    let k: u64 = bytes::read_le(v, 14, 4);
    let raw_len: u64 = if len as u64 >= 22 + k {
        bytes::read_le(v, 18 + k as usize, 4)
    } else {
        0
    };
    let front: u64 = 26 + k + raw_len;
    Ok(
        Info {
            version: v[4],
            flags: v[5],
            orig_len: bytes::read_le(v, 6, 8),
            blocks: k,
            raw_len,
            payload_len: if len as u64 > front {
                len as u64 - front
            } else {
                0
            },
        },
    )
}

/// The header of an archive says what it was made from.
pub proof fn info_is_true(d: Seq<u8>, level: u8, v: Seq<u8>)
    requires
        compressed(d, level, v),
        block_count(d.len() as int) <= u32::MAX,
        raw_bytes(d, level).len() <= u32::MAX,
        d.len() <= usize::MAX,
    ensures
        header_info(v) matches Ok(i) && {
            &&& i.version == VERSION
            &&& i.flags == flags(d, level)
            &&& i.orig_len == d.len()
            &&& i.blocks == block_count(d.len() as int)
            &&& i.raw_len == raw_bytes(d, level).len()
            &&& v.len() <= u64::MAX ==> i.payload_len + 26 + i.blocks + i.raw_len == v.len()
        },
{
    let s = levels::settings_of(level);
    let m = mixed_bytes(d, level);
    let x = choose|x: Option<Seq<u8>>|
        #[trigger] levels::prepared(m, s, x) && v == archive(
            d,
            level,
            levels::payload_of(m, s, x),
        );
    lemma_archive_fields(d, level, levels::payload_of(m, s, x));
}

} // verus!
