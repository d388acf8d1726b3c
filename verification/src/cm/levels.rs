//! Compression levels: which segment size, model and preprocessing each level uses.
//!
//! A payload records what it was made with, so it can be decoded without knowing the
//! level. It is empty for empty input; else it starts with
//!
//! ```text
//! [0]      bit 0: turbo, bit 1: text dictionary, the rest: memory profile
//! [1..5]   segment size, u32 LE
//! [5..13]  with a text dictionary only: length of the transformed text, u64 LE
//! ```
//!
//! and goes on with the framed codes of the segments.
use vstd::prelude::*;
use crate::bytes;
use crate::cm::control;
use crate::cm::control::Control;
use crate::cm::framing;
use crate::cm::segment::Profile;
use crate::transform::textdict;

verus! {

/// What a level stands for.
#[derive(Clone, Copy, PartialEq, Eq, Structural)]
pub struct Settings {
    /// Bytes per segment.
    pub seg_size: u32,
    /// The model.
    pub prof: Profile,
    /// Try the text dictionary.
    pub dict: bool,
}

/// The settings of a level; levels below 1 count as 1, above 9 as 9.
pub open spec fn settings_of(level: u8) -> Settings {
    let turbo = Profile { turbo: true, mem: 0 };
    let full = Profile { turbo: false, mem: 0 };
    if level <= 1 {
        Settings { seg_size: 0x10_0000, prof: turbo, dict: true }
    } else if level == 2 {
        Settings { seg_size: 0x20_0000, prof: turbo, dict: true }
    } else if level == 3 {
        Settings { seg_size: 0x40_0000, prof: turbo, dict: true }
    } else if level == 4 {
        Settings { seg_size: 0x80_0000, prof: full, dict: false }
    } else if level == 5 {
        Settings { seg_size: 0x100_0000, prof: full, dict: false }
    } else if level == 6 {
        Settings { seg_size: 0x200_0000, prof: full, dict: false }
    } else if level == 7 {
        Settings { seg_size: 0x400_0000, prof: Profile { turbo: false, mem: 1 }, dict: false }
    } else if level == 8 {
        Settings { seg_size: 0x400_0000, prof: Profile { turbo: false, mem: 2 }, dict: false }
    } else {
        Settings { seg_size: 0x1000_0000, prof: Profile { turbo: false, mem: 3 }, dict: false }
    }
}

/// The settings of a level.
pub fn settings(level: u8) -> (r: Settings)
    ensures
        r == settings_of(level),
{
    let turbo = Profile { turbo: true, mem: 0 };
    let full = Profile { turbo: false, mem: 0 };
    if level <= 1 {
        Settings { seg_size: 0x10_0000, prof: turbo, dict: true }
    } else if level == 2 {
        Settings { seg_size: 0x20_0000, prof: turbo, dict: true }
    } else if level == 3 {
        Settings { seg_size: 0x40_0000, prof: turbo, dict: true }
    } else if level == 4 {
        Settings { seg_size: 0x80_0000, prof: full, dict: false }
    } else if level == 5 {
        Settings { seg_size: 0x100_0000, prof: full, dict: false }
    } else if level == 6 {
        Settings { seg_size: 0x200_0000, prof: full, dict: false }
    } else if level == 7 {
        Settings { seg_size: 0x400_0000, prof: Profile { turbo: false, mem: 1 }, dict: false }
    } else if level == 8 {
        Settings { seg_size: 0x400_0000, prof: Profile { turbo: false, mem: 2 }, dict: false }
    } else {
        Settings { seg_size: 0x1000_0000, prof: Profile { turbo: false, mem: 3 }, dict: false }
    }
}

/// The table of levels: segments of 1, 2, 4, 8, 16, 32, 64, 64 and 256 MiB; the turbo
/// model and the text dictionary up to level 3 only; more and more memory from level 7.
pub proof fn level_table(level: u8)
    requires
        1 <= level <= 9,
    ensures
        ({
            let s = settings_of(level);
            &&& s.seg_size == seq![1int, 2, 4, 8, 16, 32, 64, 64, 256][level - 1] * 1048576
            &&& s.prof.turbo == (level <= 3)
            &&& s.dict == (level <= 3)
            &&& s.prof.mem == (if level <= 6 { 0 } else { level - 6 })
        }),
{
    let t = seq![1int, 2, 4, 8, 16, 32, 64, 64, 256];
    assert(t[0] == 1 && t[1] == 2 && t[2] == 4 && t[3] == 8 && t[4] == 16 && t[5] == 32 && t[6]
        == 64 && t[7] == 64 && t[8] == 256);
}

/// A higher level never has smaller segments, less memory or a smaller model; what is
/// out of range counts as the nearest level.
pub proof fn levels_ascend(a: u8, b: u8)
    requires
        a <= b,
    ensures
        settings_of(a).seg_size <= settings_of(b).seg_size,
        settings_of(a).prof.mem <= settings_of(b).prof.mem,
        settings_of(b).prof.turbo ==> settings_of(a).prof.turbo,
        settings_of(b).dict ==> settings_of(a).dict,
        a < b <= 9 && 1 <= a ==> settings_of(a) != settings_of(b),
        9 <= a ==> settings_of(a) == settings_of(9),
        b <= 1 ==> settings_of(b) == settings_of(1),
{
}

/// A payload starts with the memory profile, whether the dictionary and the turbo model
/// were used, and the segment size of its level.
pub proof fn payload_names_its_level(data: Seq<u8>, level: u8, t: Option<Seq<u8>>)
    requires
        1 <= level <= 9,
        data.len() > 0,
        prepared(data, settings_of(level), t),
    ensures
        ({
            let p = payload_of(data, settings_of(level), t);
            &&& p.len() >= 5
            &&& p[0] % 2 == (if level <= 3 { 1int } else { 0int })
            &&& p[0] / 2 % 2 == (if t is Some { 1int } else { 0int })
            &&& p[0] / 4 == (if level <= 6 { 0 } else { level - 6 })
            &&& bytes::field(p, 1, 4) == seq![1int, 2, 4, 8, 16, 32, 64, 64, 256][level - 1]
                * 1048576
            &&& t is Some ==> level <= 3
        }),
{
    let s = settings_of(level);
    let p = payload_of(data, s, t);
    level_table(level);
    bytes::lemma_widths();
    bytes::le_round_trip(s.seg_size as nat, 4);
    assert(p.subrange(1, 5) =~= bytes::le(s.seg_size as nat, 4));
}

/// The profile byte of a payload.
pub open spec fn profile_byte(prof: Profile, dict: bool) -> u8 {
    (prof.mem * 4 + (if dict { 2int } else { 0int }) + if prof.turbo { 1int } else { 0int }) as u8
}

/// `t` is what the text dictionary makes of the data at these settings.
pub open spec fn prepared(data: Seq<u8>, s: Settings, t: Option<Seq<u8>>) -> bool {
    if s.dict && data.len() > 0 {
        textdict::outcome(data, t)
    } else {
        t is None
    }
}

/// The text dictionary makes one thing of the data.
pub proof fn prepared_once(
    data: Seq<u8>,
    s: Settings,
    a: Option<Seq<u8>>,
    b: Option<Seq<u8>>,
)
    requires
        prepared(data, s, a),
        prepared(data, s, b),
    ensures
        a == b,
{
    if s.dict && data.len() > 0 {
        textdict::outcome_is_unique(data, a, b);
    }
}

/// The payload of `data`, which the text dictionary turned into `t`, if anything.
pub open spec fn payload_of(data: Seq<u8>, s: Settings, t: Option<Seq<u8>>) -> Seq<u8> {
    let seg = s.seg_size as int;
    if data.len() == 0 {
        Seq::empty()
    } else {
        match t {
            Some(x) => seq![profile_byte(s.prof, true)] + bytes::le(s.seg_size as nat, 4)
                + bytes::le(x.len(), 8) + framing::framed(x, seg, s.prof),
            None => seq![profile_byte(s.prof, false)] + bytes::le(s.seg_size as nat, 4)
                + framing::framed(data, seg, s.prof),
        }
    }
}

/// The profile a payload was made with.
pub open spec fn payload_profile(p: Seq<u8>) -> Profile {
    Profile { turbo: p[0] as int % 2 == 1, mem: (p[0] as int / 4) as u8 }
}

/// A payload was made with the text dictionary.
pub open spec fn payload_dict(p: Seq<u8>) -> bool {
    p[0] as int / 2 % 2 == 1
}

/// `n` bytes decoded from a framed payload; `None` if it is malformed.
pub open spec fn checked_unframed(p: Seq<u8>, n: int, seg: int, prof: Profile) -> Option<Seq<u8>> {
    if framing::well_framed(p, n, seg) {
        Some(framing::unframed(p, n, seg, prof))
    } else {
        None
    }
}

/// What a payload for `n` bytes decodes to; `None` if it is malformed.
pub open spec fn payload_data(p: Seq<u8>, n: int) -> Option<Seq<u8>> {
    let seg = bytes::field(p, 1, 4) as int;
    if n == 0 {
        Some(Seq::empty())
    } else if p.len() < 5 || seg == 0 {
        None
    } else if !payload_dict(p) {
        checked_unframed(p.skip(5), n, seg, payload_profile(p))
    } else if p.len() < 13 || bytes::field(p, 5, 8) > usize::MAX {
        None
    } else {
        match checked_unframed(p.skip(13), bytes::field(p, 5, 8) as int, seg, payload_profile(p)) {
            Some(t) => textdict::inverse(t),
            None => None,
        }
    }
}

/// The framed part of a payload for `n` bytes and how many bytes it should hold; `None`
/// if the payload is refused before any segment is decoded.
pub open spec fn frame_of(p: Seq<u8>, n: int) -> Option<(Seq<u8>, int)> {
    let seg = bytes::field(p, 1, 4) as int;
    let (body, m) = if payload_dict(p) {
        (p.skip(13), bytes::field(p, 5, 8) as int)
    } else {
        (p.skip(5), n)
    };
    let complete = p.len() >= (if payload_dict(p) { 13int } else { 5int });
    if n > 0 && complete && seg > 0 && m <= usize::MAX && framing::well_framed(body, m, seg) {
        Some((body, m))
    } else {
        None
    }
}

/// Decoding a payload for `n` bytes gets as far as its segments.
pub open spec fn reads_segments(p: Seq<u8>, n: int) -> bool {
    frame_of(p, n) matches Some((body, m)) && m > 0 && body.len() >= 4
}

/// The lengths of all segments of a payload were reported to the control.
pub open spec fn tallied_payload(p: Seq<u8>, n: int, ctrl: Option<&Control>) -> bool {
    match frame_of(p, n) {
        Some((body, m)) => m > 0 && body.len() >= 4 ==> framing::counted_segments(
            ctrl,
            m,
            bytes::field(p, 1, 4) as int,
            framing::claimed(body),
        ),
        None => true,
    }
}

/// The lengths of all segments of `data`, as the text dictionary prepared it, were
/// reported to the control.
pub open spec fn tallied(data: Seq<u8>, s: Settings, ctrl: Option<&Control>) -> bool {
    exists|t: Option<Seq<u8>>| #[trigger]
        prepared(data, s, t) && {
            let n = match t {
                Some(x) => x.len() as int,
                None => data.len() as int,
            };
            framing::counted_segments(
                ctrl,
                n,
                s.seg_size as int,
                framing::seg_count(n, s.seg_size as int),
            )
        }
}

/// The fields at the front of a payload.
proof fn lemma_payload_front(s: Settings, dict: bool, rest: Seq<u8>)
    requires
        s.prof.mem <= 3,
    ensures
        ({
            let p = seq![profile_byte(s.prof, dict)] + bytes::le(s.seg_size as nat, 4) + rest;
            &&& p.len() == 5 + rest.len()
            &&& payload_profile(p) == s.prof
            &&& payload_dict(p) == dict
            &&& bytes::field(p, 1, 4) == s.seg_size
            &&& p.skip(5) == rest
        }),
{
    let p = seq![profile_byte(s.prof, dict)] + bytes::le(s.seg_size as nat, 4) + rest;
    bytes::lemma_widths();
    bytes::le_round_trip(s.seg_size as nat, 4);
    assert(p.subrange(1, 5) =~= bytes::le(s.seg_size as nat, 4));
    assert(p.skip(5) =~= rest);
}

proof fn lemma_framed_back(data: Seq<u8>, s: Settings)
    requires
        0 < s.seg_size <= 0x1000_0000,
        framing::seg_count(data.len() as int, s.seg_size as int) <= u32::MAX,
    ensures
        checked_unframed(
            framing::framed(data, s.seg_size as int, s.prof),
            data.len() as int,
            s.seg_size as int,
            s.prof,
        ) == Some(data),
{
    framing::moderate_segments_fit(data, s.seg_size as int, s.prof);
    framing::framing_round_trip(data, s.seg_size as int, s.prof);
}

/// A payload decodes to the data it was made from, at every level, as long as the
/// number of segments fits its 32-bit field.
pub proof fn payload_round_trip(data: Seq<u8>, level: u8, t: Option<Seq<u8>>)
    requires
        prepared(data, settings_of(level), t),
        framing::seg_count(data.len() as int, settings_of(level).seg_size as int) <= u32::MAX,
        data.len() <= usize::MAX,
    ensures
        payload_data(payload_of(data, settings_of(level), t), data.len() as int) == Some(data),
{
    let s = settings_of(level);
    assert(0 < s.seg_size <= 0x1000_0000 && s.prof.mem <= 3);
    lemma_settings_round_trip(data, s, t);
}

proof fn lemma_settings_round_trip(data: Seq<u8>, s: Settings, t: Option<Seq<u8>>)
    requires
        prepared(data, s, t),
        0 < s.seg_size <= 0x1000_0000,
        s.prof.mem <= 3,
        framing::seg_count(data.len() as int, s.seg_size as int) <= u32::MAX,
        data.len() <= usize::MAX,
    ensures
        payload_data(payload_of(data, s, t), data.len() as int) == Some(data),
{
    let p = payload_of(data, s, t);
    let seg = s.seg_size as int;
    if data.len() > 0 {
        match t {
            Some(x) => {
                let f = framing::framed(x, seg, s.prof);
                let rest = bytes::le(x.len(), 8) + f;
                assert(p =~= seq![profile_byte(s.prof, true)] + bytes::le(s.seg_size as nat, 4)
                    + rest);
                lemma_payload_front(s, true, rest);
                textdict::outcome_is_invertible(data, x);
                bytes::lemma_widths();
                bytes::le_round_trip(x.len(), 8);
                assert(p.subrange(5, 13) =~= p.skip(5).take(8));
                assert(rest.take(8) =~= bytes::le(x.len(), 8));
                assert(p.skip(13) =~= p.skip(5).skip(8));
                assert(rest.skip(8) =~= f);
                lemma_count_monotone(x.len() as int, data.len() as int, seg);
                lemma_framed_back(x, s);
            },
            None => {
                let f = framing::framed(data, seg, s.prof);
                lemma_payload_front(s, false, f);
                lemma_framed_back(data, s);
            },
        }
    } else {
        assert(data =~= Seq::empty());
    }
}

proof fn lemma_count_monotone(m: int, n: int, seg: int)
    requires
        0 <= m <= n,
        seg > 0,
    ensures
        framing::seg_count(m, seg) <= framing::seg_count(n, seg),
{
    vstd::arithmetic::div_mod::lemma_fundamental_div_mod(m, seg);
    vstd::arithmetic::div_mod::lemma_fundamental_div_mod(n, seg);
    let (a, b) = (m / seg, n / seg);
    assert(a <= b && (a == b ==> m % seg <= n % seg)) by (nonlinear_arith)
        requires
            m == seg * a + m % seg,
            n == seg * b + n % seg,
            0 <= m % seg < seg,
            0 <= n % seg < seg,
            m <= n,
    ;
}

/// Why decoding stopped.
#[derive(Clone, Copy, Debug, PartialEq, Eq, Structural)]
pub enum Stop {
    /// The job was cancelled.
    Cancelled,
    /// The payload is malformed.
    Malformed,
}

/// Compress `data` at a level, unless `ctrl` asks to stop.
pub fn encode_level(data: &[u8], level: u8, ctrl: Option<&Control>) -> (r: Option<Vec<u8>>)
    ensures
        r is None ==> data@.len() > 0 && control::stopped(ctrl),
        r is Some && data@.len() > 0 ==> control::went_on(ctrl) && tallied(
            data@,
            settings_of(level),
            ctrl,
        ),
        r matches Some(v) ==> exists|t: Option<Seq<u8>>|
            #[trigger] prepared(data@, settings_of(level), t) && v@ == payload_of(
                data@,
                settings_of(level),
                t,
            ),
{
    let s = settings(level);
    let n: usize = data.len();
    if n == 0 {
        let out: Vec<u8> = Vec::new();
        assert(prepared(data@, s, None));
        assert(out@ =~= payload_of(data@, s, None));
        return Some(out);
    }
    let tdata: Option<Vec<u8>> = if s.dict {
        textdict::apply(data)
    } else {
        None
    };
    let ghost t = bytes::viewed(tdata);
    assert(prepared(data@, s, t));
    let mut out: Vec<u8> = Vec::new();
    let base: u8 = s.prof.mem * 4 + if s.prof.turbo {
        1
    } else {
        0
    };
    match tdata {
        Some(x) => {
            out.push(base + 2);
            bytes::push_le(&mut out, s.seg_size as u64, 4);
            bytes::push_le(&mut out, x.len() as u64, 8);
            match framing::encode_framed_watched(
                x.as_slice(),
                s.seg_size as usize,
                s.prof,
                ctrl,
            ) {
                Some(f) => {
                    out.extend_from_slice(f.as_slice());
                },
                None => {
                    return None;
                },
            }
        },
        None => {
            out.push(base);
            bytes::push_le(&mut out, s.seg_size as u64, 4);
            match framing::encode_framed_watched(data, s.seg_size as usize, s.prof, ctrl) {
                Some(f) => {
                    out.extend_from_slice(f.as_slice());
                },
                None => {
                    return None;
                },
            }
        },
    }
    assert(out@ =~= payload_of(data@, s, t));
    Some(out)
}

/// Decode a framed payload after checking it.
fn decode_checked(
    p: &[u8],
    n: usize,
    seg_size: usize,
    prof: Profile,
    ctrl: Option<&Control>,
) -> (r: Result<Vec<u8>, Stop>)
    requires
        0 < seg_size <= u32::MAX,
    ensures
        match r {
            Ok(v) => {
                &&& checked_unframed(p@, n as int, seg_size as int, prof) == Some(v@)
                &&& v@.len() > 0 ==> control::went_on(ctrl)
                &&& n > 0 && p@.len() >= 4 ==> framing::counted_segments(
                    ctrl,
                    n as int,
                    seg_size as int,
                    framing::claimed(p@),
                )
            },
            Err(Stop::Malformed) => checked_unframed(p@, n as int, seg_size as int, prof) is None,
            Err(Stop::Cancelled) => {
                &&& n > 0
                &&& p@.len() >= 4
                &&& framing::well_framed(p@, n as int, seg_size as int)
                &&& control::stopped(ctrl)
            },
        },
{
    if !framing::frame_ok(p, n, seg_size) {
        return Err(Stop::Malformed);
    }
    match framing::decode_framed_watched(p, n, seg_size, prof, ctrl) {
        Some(v) => Ok(v),
        None => Err(Stop::Cancelled),
    }
}

/// Decode `n` bytes from a payload, unless `ctrl` asks to stop.
pub fn decode_level(p: &[u8], n: usize, ctrl: Option<&Control>) -> (r: Result<Vec<u8>, Stop>)
    ensures
        match r {
            Ok(v) => {
                &&& payload_data(p@, n as int) == Some(v@)
                &&& v@.len() > 0 ==> control::went_on(ctrl)
                &&& tallied_payload(p@, n as int, ctrl)
            },
            Err(Stop::Malformed) => payload_data(p@, n as int) is None,
            Err(Stop::Cancelled) => reads_segments(p@, n as int) && control::stopped(ctrl),
        },
{
    let len: usize = p.len();
    if n == 0 {
        return Ok(Vec::new());
    }
    if len < 5 {
        return Err(Stop::Malformed);
    }
    proof {
        bytes::lemma_widths();
    }
    let seg_size: usize = bytes::read_le(p, 1, 4) as usize;
    if seg_size == 0 {
        return Err(Stop::Malformed);
    }
    let prof = Profile { turbo: p[0] % 2 == 1, mem: p[0] / 4 };
    if p[0] / 2 % 2 == 0 {
        return decode_checked(&p[5..len], n, seg_size, prof, ctrl);
    }
    if len < 13 {
        return Err(Stop::Malformed);
    }
    let m: u64 = bytes::read_le(p, 5, 8);
    if m > usize::MAX as u64 {
        return Err(Stop::Malformed);
    }
    match decode_checked(&p[13..len], m as usize, seg_size, prof, ctrl) {
        Ok(t) => match textdict::invert(t.as_slice()) {
            Some(v) => Ok(v),
            None => Err(Stop::Malformed),
        },
        Err(e) => Err(e),
    }
}

/// Compress `data` at a level, with a handle to watch and cancel the job; `None` if
/// it was found cancelled, which no job without data can be. It succeeds only if it
/// was found not cancelled.
pub fn encode_with_control(data: &[u8], level: u8, ctrl: &Control) -> (r: Option<Vec<u8>>)
    ensures
        r is None ==> data@.len() > 0 && ctrl.found(true),
        r is Some && data@.len() > 0 ==> ctrl.found(false) && tallied(
            data@,
            settings_of(level),
            Some(ctrl),
        ),
        r matches Some(v) ==> exists|t: Option<Seq<u8>>|
            #[trigger] prepared(data@, settings_of(level), t) && v@ == payload_of(
                data@,
                settings_of(level),
                t,
            ),
{
    encode_level(data, level, Some(ctrl))
}

/// Decode `n` bytes from a payload, with a handle to watch and cancel the job.
pub fn decode_with_control(p: &[u8], n: usize, ctrl: &Control) -> (r: Result<Vec<u8>, Stop>)
    ensures
        match r {
            Ok(v) => {
                &&& payload_data(p@, n as int) == Some(v@)
                &&& v@.len() > 0 ==> ctrl.found(false)
                &&& tallied_payload(p@, n as int, Some(ctrl))
            },
            Err(Stop::Malformed) => payload_data(p@, n as int) is None,
            Err(Stop::Cancelled) => reads_segments(p@, n as int) && ctrl.found(true),
        },
{
    decode_level(p, n, Some(ctrl))
}

} // verus!
