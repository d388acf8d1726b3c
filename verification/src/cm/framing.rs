//! Splitting the input into independent segments that are coded in parallel.
//!
//! Layout of a framed payload, which is empty for empty input:
//!
//! ```text
//! [0..4]   number of segments, u32 LE
//! [4..]    length of each segment's code, u32 LE
//! [rest]   the codes, in order
//! ```
//!
//! Segment `i` holds the bytes from `i * seg_size` on, so only the lengths of the
//! codes are stored. The segment size never depends on the number of cores.
use vstd::prelude::*;
use crate::bytes;
use crate::cm::control;
use crate::cm::control::Control;
use crate::cm::logistic;
use crate::cm::parallel;
use crate::cm::segment;
use crate::cm::segment::Profile;
use crate::cm::sizing;

verus! {

/// Bytes per segment unless said otherwise: 16 MiB.
pub const SEG_SIZE: usize = 0x100_0000;

// ---------------------------------------------------------------------------
// Segments
// ---------------------------------------------------------------------------

/// Segments that `n` bytes are split into.
pub open spec fn seg_count(n: int, seg: int) -> int {
    n / seg + if n % seg > 0 { 1int } else { 0int }
}

/// Length of segment `i`.
pub open spec fn seg_len(n: int, seg: int, i: int) -> int {
    sizing::min(seg, n - i * seg)
}

/// Segment `i`.
pub open spec fn seg_at(data: Seq<u8>, seg: int, i: int) -> Seq<u8> {
    data.subrange(i * seg, i * seg + seg_len(data.len() as int, seg, i))
}

/// The first `k` of `parts`, one after the other.
pub open spec fn joined(parts: Seq<Seq<u8>>, k: int) -> Seq<u8>
    decreases k,
{
    if k <= 0 {
        Seq::empty()
    } else {
        joined(parts, k - 1) + parts[k - 1]
    }
}

/// The lengths of the first `k` of `parts`.
pub open spec fn lengths(parts: Seq<Seq<u8>>, k: int) -> Seq<u8>
    decreases k,
{
    if k <= 0 {
        Seq::empty()
    } else {
        lengths(parts, k - 1) + bytes::le(parts[k - 1].len(), 4)
    }
}

/// The code of each segment.
pub open spec fn codes(data: Seq<u8>, seg: int, prof: Profile) -> Seq<Seq<u8>> {
    Seq::new(
        seg_count(data.len() as int, seg) as nat,
        |i: int| segment::segment_code(seg_at(data, seg, i), prof),
    )
}

/// The framed payload of `data`.
pub open spec fn framed(data: Seq<u8>, seg: int, prof: Profile) -> Seq<u8> {
    if data.len() == 0 {
        Seq::empty()
    } else {
        let c = codes(data, seg, prof);
        bytes::le(c.len(), 4) + lengths(c, c.len() as int) + joined(c, c.len() as int)
    }
}

// ---------------------------------------------------------------------------
// Reading a payload
// ---------------------------------------------------------------------------

/// Segments a payload claims to hold.
pub open spec fn claimed(payload: Seq<u8>) -> int {
    bytes::field(payload, 0, 4) as int
}

/// Where the code of segment `i` starts, if the payload is long enough.
pub open spec fn code_start(payload: Seq<u8>, i: int) -> int
    decreases i,
{
    if i <= 0 {
        4 + 4 * claimed(payload)
    } else {
        code_start(payload, i - 1) + bytes::field(payload, 4 * i, 4)
    }
}

/// The code of segment `i`, cut short where the payload ends.
pub open spec fn code_at(payload: Seq<u8>, i: int) -> Seq<u8> {
    let end = payload.len() as int;
    payload.subrange(
        sizing::min(code_start(payload, i), end),
        sizing::min(code_start(payload, i + 1), end),
    )
}

/// The payload holds its table of lengths, and no segment starts beyond the `n`
/// bytes it should hold.
pub open spec fn well_framed(payload: Seq<u8>, n: int, seg: int) -> bool {
    n == 0 || payload.len() < 4 || {
        &&& 4 + 4 * claimed(payload) <= payload.len()
        &&& claimed(payload) > 0 ==> (claimed(payload) - 1) * seg <= n
    }
}

/// What each segment of a payload decodes to.
pub open spec fn parts(payload: Seq<u8>, n: int, seg: int, prof: Profile) -> Seq<Seq<u8>> {
    Seq::new(
        claimed(payload) as nat,
        |i: int|
            segment::segment_data(code_at(payload, i), seg_len(n, seg, i) as nat, prof),
    )
}

/// What a payload decodes to.
pub open spec fn unframed(payload: Seq<u8>, n: int, seg: int, prof: Profile) -> Seq<u8> {
    if n == 0 || payload.len() < 4 {
        Seq::empty()
    } else {
        joined(parts(payload, n, seg, prof), claimed(payload))
    }
}

// ---------------------------------------------------------------------------
// Laws
// ---------------------------------------------------------------------------

/// The counts and lengths of a payload fit their 32-bit fields.
pub open spec fn fits(data: Seq<u8>, seg: int, prof: Profile) -> bool {
    let c = codes(data, seg, prof);
    &&& c.len() <= u32::MAX
    &&& forall|i: int| 0 <= i < c.len() ==> (#[trigger] c[i]).len() <= u32::MAX
}

proof fn lemma_count(n: int, seg: int)
    requires
        n > 0,
        seg > 0,
    ensures
        seg_count(n, seg) > 0,
        (seg_count(n, seg) - 1) * seg < n,
        n <= seg_count(n, seg) * seg,
        seg_count(n, seg) <= n,
{
    assert((seg_count(n, seg) - 1) * seg < n && n <= seg_count(n, seg) * seg && seg_count(n, seg)
        > 0) by (nonlinear_arith)
        requires
            n > 0,
            seg > 0,
            seg_count(n, seg) == n / seg + (if n % seg > 0 {
                1int
            } else {
                0int
            }),
    ;
    let c = seg_count(n, seg);
    assert(c - 1 <= (c - 1) * seg) by (nonlinear_arith)
        requires
            c >= 1,
            seg >= 1,
    ;
}

proof fn lemma_seg_range(n: int, seg: int, i: int)
    requires
        n > 0,
        seg > 0,
        0 <= i < seg_count(n, seg),
    ensures
        0 <= i * seg < n,
        0 < seg_len(n, seg, i) <= seg,
        i * seg + seg_len(n, seg, i) == sizing::min((i + 1) * seg, n),
{
    lemma_count(n, seg);
    let c = seg_count(n, seg);
    assert(0 <= i * seg <= (c - 1) * seg && (i + 1) * seg == i * seg + seg) by (nonlinear_arith)
        requires
            seg > 0,
            0 <= i <= c - 1,
    ;
}

/// Segments of up to 256 MiB always have codes whose lengths fit.
pub proof fn moderate_segments_fit(data: Seq<u8>, seg: int, prof: Profile)
    requires
        0 < seg <= 0x1000_0000,
        seg_count(data.len() as int, seg) <= u32::MAX,
    ensures
        fits(data, seg, prof),
{
    let c = codes(data, seg, prof);
    assert forall|i: int| 0 <= i < c.len() implies (#[trigger] c[i]).len() <= u32::MAX by {
        if data.len() > 0 {
            lemma_seg_range(data.len() as int, seg, i);
            segment::segment_code_length(seg_at(data, seg, i), prof);
        } else {
            assert(0int / seg == 0 && 0int % seg == 0) by (nonlinear_arith)
                requires
                    seg > 0,
            ;
        }
    }
}

proof fn lemma_lengths(c: Seq<Seq<u8>>, k: int, i: int)
    requires
        0 <= i < k <= c.len(),
        forall|j: int| 0 <= j < c.len() ==> (#[trigger] c[j]).len() <= u32::MAX,
    ensures
        lengths(c, k).len() == 4 * k,
        bytes::field(lengths(c, k), 4 * i, 4) == c[i].len(),
    decreases k,
{
    let last = bytes::le(c[k - 1].len(), 4);
    bytes::lemma_widths();
    assert(c[k - 1].len() <= u32::MAX);
    bytes::le_round_trip(c[k - 1].len(), 4);
    if k > 1 {
        lemma_lengths(c, k - 1, if i < k - 1 { i } else { 0 });
    }
    if i < k - 1 {
        assert(lengths(c, k).subrange(4 * i, 4 * i + 4) =~= lengths(c, k - 1).subrange(
            4 * i,
            4 * i + 4,
        ));
    } else {
        assert(lengths(c, k).subrange(4 * i, 4 * i + 4) =~= last);
    }
}

proof fn lemma_joined_len(c: Seq<Seq<u8>>, i: int, k: int)
    requires
        0 <= i < k <= c.len(),
    ensures
        joined(c, i).len() + c[i].len() <= joined(c, k).len(),
        joined(c, k).subrange(joined(c, i).len() as int, (joined(c, i).len() + c[i].len()) as int)
            == c[i],
        joined(c, i + 1).len() == joined(c, i).len() + c[i].len(),
    decreases k,
{
    let j = joined(c, k);
    let at = joined(c, i).len() as int;
    if i < k - 1 {
        lemma_joined_len(c, i, k - 1);
        assert(j.subrange(at, at + c[i].len()) =~= joined(c, k - 1).subrange(at, at + c[i].len()));
    } else {
        assert(j.subrange(at, at + c[i].len()) =~= c[i]);
    }
}

proof fn lemma_code_start(payload: Seq<u8>, c: Seq<Seq<u8>>, i: int)
    requires
        payload == bytes::le(c.len(), 4) + lengths(c, c.len() as int) + joined(
            c,
            c.len() as int,
        ),
        0 < c.len() <= u32::MAX,
        forall|j: int| 0 <= j < c.len() ==> (#[trigger] c[j]).len() <= u32::MAX,
        0 <= i <= c.len(),
    ensures
        claimed(payload) == c.len(),
        lengths(c, c.len() as int).len() == 4 * c.len(),
        code_start(payload, i) == 4 + 4 * c.len() + joined(c, i).len(),
        code_start(payload, i) <= payload.len(),
        payload.skip((4 + 4 * c.len()) as int) == joined(c, c.len() as int),
        payload.len() == 4 + 4 * c.len() + joined(c, c.len() as int).len(),
    decreases i,
{
    let k = c.len() as int;
    bytes::lemma_widths();
    bytes::le_round_trip(c.len(), 4);
    lemma_lengths(c, k, 0);
    assert(payload.subrange(0, 4) =~= bytes::le(c.len(), 4));
    assert(payload.skip((4 + 4 * c.len()) as int) =~= joined(c, k));
    if i > 0 {
        lemma_code_start(payload, c, i - 1);
        lemma_lengths(c, k, i - 1);
        assert(payload.subrange(4 * i, 4 * i + 4) =~= lengths(c, k).subrange(
            4 * (i - 1),
            4 * (i - 1) + 4,
        ));
        lemma_joined_len(c, i - 1, k);
    }
}

proof fn lemma_rejoin(data: Seq<u8>, seg: int, p: Seq<Seq<u8>>, k: int)
    requires
        seg > 0,
        data.len() > 0,
        0 <= k <= seg_count(data.len() as int, seg) == p.len(),
        forall|i: int| 0 <= i < p.len() ==> #[trigger] p[i] == seg_at(data, seg, i),
    ensures
        joined(p, k) == data.take(sizing::min(k * seg, data.len() as int)),
    decreases k,
{
    let n = data.len() as int;
    if k > 0 {
        lemma_rejoin(data, seg, p, k - 1);
        lemma_seg_range(n, seg, k - 1);
        assert(joined(p, k) =~= data.take(sizing::min(k * seg, n)));
    } else {
        assert(0 * seg == 0);
        assert(joined(p, k) =~= data.take(0));
    }
}

/// Decoding a framed payload gives the data back, whatever the segment size.
pub proof fn framing_round_trip(data: Seq<u8>, seg: int, prof: Profile)
    requires
        seg > 0,
        fits(data, seg, prof),
    ensures
        well_framed(framed(data, seg, prof), data.len() as int, seg),
        unframed(framed(data, seg, prof), data.len() as int, seg, prof) == data,
{
    let n = data.len() as int;
    let payload = framed(data, seg, prof);
    if n > 0 {
        let c = codes(data, seg, prof);
        let k = c.len() as int;
        lemma_count(n, seg);
        lemma_code_start(payload, c, k);
        let p = parts(payload, n, seg, prof);
        assert forall|i: int| 0 <= i < k implies #[trigger] p[i] == seg_at(data, seg, i) by {
            lemma_seg_range(n, seg, i);
            lemma_code_start(payload, c, i);
            lemma_code_start(payload, c, i + 1);
            lemma_joined_len(c, i, k);
            let at = joined(c, i).len() as int;
            assert(code_at(payload, i) =~= payload.skip(4 + 4 * k).subrange(at, at + c[i].len()));
            segment::segment_round_trip(seg_at(data, seg, i), prof, Seq::empty());
        }
        lemma_rejoin(data, seg, p, k);
        assert(data.take(n) =~= data);
    } else {
        assert(data =~= Seq::empty());
    }
}

proof fn lemma_parts_len(payload: Seq<u8>, n: int, seg: int, prof: Profile, k: int)
    requires
        seg > 0,
        n >= 0,
        0 <= k <= claimed(payload),
        k > 0 ==> (k - 1) * seg <= n,
    ensures
        joined(parts(payload, n, seg, prof), k).len() == sizing::min(k * seg, n),
    decreases k,
{
    if k > 0 {
        let p = parts(payload, n, seg, prof);
        assert((k - 1) * seg == k * seg - seg && (k - 2) * seg == k * seg - 2 * seg)
            by (nonlinear_arith);
        lemma_parts_len(payload, n, seg, prof, k - 1);
        segment::segment_data_length(
            code_at(payload, k - 1),
            seg_len(n, seg, k - 1) as nat,
            prof,
        );
    } else {
        assert(0 * seg == 0);
    }
}

/// A payload never decodes to more bytes than were asked for, and to exactly that
/// many if it claims enough segments.
pub proof fn unframed_length(payload: Seq<u8>, n: int, seg: int, prof: Profile)
    requires
        seg > 0,
        n >= 0,
        well_framed(payload, n, seg),
    ensures
        unframed(payload, n, seg, prof).len() <= n,
        n > 0 && payload.len() >= 4 ==> unframed(payload, n, seg, prof).len() == sizing::min(
            claimed(payload) * seg,
            n,
        ),
{
    if n > 0 && payload.len() >= 4 {
        lemma_parts_len(payload, n, seg, prof, claimed(payload));
    }
}

// ---------------------------------------------------------------------------
// Coding
// ---------------------------------------------------------------------------

/// Segments of `n` bytes to code at a time: all there are, or as many as the job's
/// memory budget affords models for, at least one.
pub open spec fn affordable(n: int, prof: Profile, budget: Option<u64>) -> int {
    match budget {
        None => usize::MAX as int,
        Some(b) => logistic::clamp(
            b as int / sizing::model_bytes_spec(n, prof.turbo, prof.mem as int),
            1,
            0xffff,
        ),
    }
}

/// The models of the segments that are coded at a time fit the budget, unless already
/// one does not; and one more would not fit.
pub proof fn waves_fit_the_budget(n: int, prof: Profile, budget: u64)
    requires
        n >= 0,
    ensures
        ({
            let w = affordable(n, prof, Some(budget));
            let cost = sizing::model_bytes_spec(n, prof.turbo, prof.mem as int);
            &&& w >= 1
            &&& w == 1 || w * cost <= budget
            &&& w < 0xffff ==> (w + 1) * cost > budget
        }),
{
    let cost = sizing::model_bytes_spec(n, prof.turbo, prof.mem as int);
    sizing::lemma_model_bytes_positive(n, prof.turbo, prof.mem as int);
    let q = budget as int / cost;
    assert(q * cost <= budget < (q + 1) * cost) by (nonlinear_arith)
        requires
            q == budget as int / cost,
            cost > 0,
    ;
    let w = affordable(n, prof, Some(budget));
    if w == q {
    } else if q < 1 {
        assert((w + 1) * cost > budget) by (nonlinear_arith)
            requires
                budget < (q + 1) * cost,
                q < 1 == w,
                cost > 0,
        ;
    } else {
        assert(w * cost <= budget) by (nonlinear_arith)
            requires
                w <= q,
                q * cost <= budget,
                cost > 0,
        ;
    }
}

/// The memory budget of a job, if it has one.
pub open spec fn budget_of(ctrl: Option<&Control>) -> Option<u64> {
    match ctrl {
        Some(c) => c.limit(),
        None => None,
    }
}

/// Segments to code at a time.
fn in_flight(n: usize, prof: Profile, ctrl: Option<&Control>) -> (w: usize)
    requires
        n <= u32::MAX,
    ensures
        w == affordable(n as int, prof, budget_of(ctrl)),
        w >= 1,
{
    match ctrl {
        None => usize::MAX,
        Some(c) => match c.budget() {
            None => usize::MAX,
            Some(b) => {
                let cost: u64 = sizing::table_bytes(n, prof.turbo, prof.mem) + n as u64;
                let w: u64 = b / cost;
                if w == 0 {
                    1
                } else if w > 0xffff {
                    0xffff
                } else {
                    w as usize
                }
            },
        },
    }
}

/// The lengths of the first `k` segments of `n` bytes were reported to the control.
pub open spec fn counted_segments(ctrl: Option<&Control>, n: int, seg: int, k: int) -> bool {
    forall|i: int| 0 <= i < k ==> segment::counted(ctrl, #[trigger] seg_len(n, seg, i))
}

/// The segments of `data` from `from` on that are coded next: no more at a time than
/// the memory budget affords.
fn encode_jobs<'a>(
    data: &'a [u8],
    seg_size: usize,
    from: usize,
    count: usize,
    prof: Profile,
    ctrl: Option<&Control>,
) -> (jobs: Vec<&'a [u8]>)
    requires
        data@.len() > 0,
        seg_size > 0,
        seg_size <= u32::MAX || data@.len() <= u32::MAX,
        from < count == seg_count(data@.len() as int, seg_size as int),
    ensures
        0 < jobs@.len() <= affordable(
            sizing::min(seg_size as int, data@.len() as int),
            prof,
            budget_of(ctrl),
        ),
        from + jobs@.len() <= count,
        forall|j: int|
            0 <= j < jobs@.len() ==> (#[trigger] jobs@[j])@ == seg_at(
                data@,
                seg_size as int,
                from + j,
            ),
{
    let n = data.len();
    let ghost seg = seg_size as int;
    let most: usize = if seg_size < n {
        seg_size
    } else {
        n
    };
    let w = in_flight(most, prof, ctrl);
    proof {
        lemma_seg_range(n as int, seg, from as int);
    }
    let mut start: usize = from * seg_size;
    let mut i: usize = from;
    let mut jobs: Vec<&'a [u8]> = Vec::new();
    while i < count && jobs.len() < w
        invariant
            n == data@.len() > 0,
            seg_size > 0,
            seg == seg_size,
            count == seg_count(n as int, seg),
            w >= 1,
            from <= i <= count,
            i < count ==> start == i * seg,
            jobs@.len() == i - from,
            jobs@.len() <= w,
            forall|j: int|
                0 <= j < jobs@.len() ==> (#[trigger] jobs@[j])@ == seg_at(data@, seg, from + j),
        decreases count - i,
    {
        proof {
            lemma_seg_range(n as int, seg, i as int);
            assert((i + 1) * seg == i * seg + seg) by (nonlinear_arith);
            if i + 1 < count {
                lemma_seg_range(n as int, seg, i + 1);
            }
        }
        let len: usize = if seg_size < n - start {
            seg_size
        } else {
            n - start
        };
        jobs.push(&data[start..start + len]);
        start = start + len;
        i = i + 1;
    }
    jobs
}

/// Code segments of at most `most` bytes in parallel. Their models are all in memory at
/// the same time, so there may be no more than the budget affords.
fn encode_wave(jobs: &Vec<&[u8]>, most: usize, prof: Profile, ctrl: Option<&Control>) -> (done: Vec<
    Option<Vec<u8>>,
>)
    requires
        jobs@.len() <= affordable(most as int, prof, budget_of(ctrl)),
        most <= u32::MAX,
        forall|j: int| 0 <= j < jobs@.len() ==> (#[trigger] jobs@[j])@.len() <= most,
    ensures
        done@.len() == jobs@.len(),
        forall|j: int|
            0 <= j < done@.len() ==> match #[trigger] done@[j] {
                Some(v) => {
                    &&& v@ == segment::segment_code(jobs@[j]@, prof)
                    &&& jobs@[j]@.len() > 0 ==> control::went_on(ctrl)
                    &&& segment::counted(ctrl, jobs@[j]@.len() as int)
                },
                None => control::stopped(ctrl),
            },
{
    let f = |x: &&[u8]| -> (o: Option<Vec<u8>>)
        requires
            x@.len() <= u32::MAX,
        ensures
            o is None ==> control::stopped(ctrl),
            o is Some && x@.len() > 0 ==> control::went_on(ctrl),
            o is Some ==> segment::counted(ctrl, x@.len() as int),
            o matches Some(v) ==> v@ == segment::segment_code(x@, prof),
        { segment::encode_watched(*x, prof, ctrl) };
    let done = parallel::par_map(jobs, f);
    assert forall|j: int| 0 <= j < done@.len() implies match #[trigger] done@[j] {
        Some(v) => {
            &&& v@ == segment::segment_code(jobs@[j]@, prof)
            &&& jobs@[j]@.len() > 0 ==> control::went_on(ctrl)
            &&& segment::counted(ctrl, jobs@[j]@.len() as int)
        },
        None => control::stopped(ctrl),
    } by {
        assert(call_ensures(f, (&jobs@[j],), done@[j]));
    }
    done
}

/// Code `data` in segments, unless `ctrl` asks to stop. Segments are coded in parallel
/// as far as the control's memory budget goes.
pub fn encode_framed_watched(
    data: &[u8],
    seg_size: usize,
    prof: Profile,
    ctrl: Option<&Control>,
) -> (r: Option<Vec<u8>>)
    requires
        data@.len() > 0 ==> seg_size > 0,
        seg_size <= u32::MAX || data@.len() <= u32::MAX,
    ensures
        r is None ==> data@.len() > 0 && control::stopped(ctrl),
        r is Some && data@.len() > 0 ==> control::went_on(ctrl) && counted_segments(
            ctrl,
            data@.len() as int,
            seg_size as int,
            seg_count(data@.len() as int, seg_size as int),
        ),
        r matches Some(v) ==> v@ == framed(data@, seg_size as int, prof),
{
    let n = data.len();
    if n == 0 {
        return Some(Vec::new());
    }
    let ghost seg = seg_size as int;
    let ghost c = codes(data@, seg, prof);
    proof {
        lemma_count(n as int, seg);
    }
    let count: usize = n / seg_size + if n % seg_size > 0 {
        1
    } else {
        0
    };
    let most: usize = if seg_size < n {
        seg_size
    } else {
        n
    };
    let mut table: Vec<u8> = Vec::new();
    let mut body: Vec<u8> = Vec::new();
    let mut i: usize = 0;
    while i < count
        invariant
            n == data@.len() > 0,
            seg_size > 0,
            seg_size <= u32::MAX || data@.len() <= u32::MAX,
            seg == seg_size,
            count == seg_count(n as int, seg),
            c == codes(data@, seg, prof),
            i <= count,
            most <= u32::MAX,
            most == sizing::min(seg, n as int),
            i > 0 ==> control::went_on(ctrl),
            counted_segments(ctrl, n as int, seg, i as int),
            table@ == lengths(c, i as int),
            body@ == joined(c, i as int),
        decreases count - i,
    {
        let jobs = encode_jobs(data, seg_size, i, count, prof, ctrl);
        assert forall|j: int| 0 <= j < jobs@.len() implies 0 < (#[trigger] jobs@[j])@.len() <= most
            && jobs@[j]@.len() == seg_len(n as int, seg, i + j) by {
            lemma_seg_range(n as int, seg, i + j);
        }
        let done = encode_wave(&jobs, most, prof, ctrl);
        let mut j: usize = 0;
        while j < done.len()
            invariant
                n == data@.len() > 0,
                i < i + done@.len() <= count,
                count == seg_count(n as int, seg),
                c == codes(data@, seg, prof),
                jobs@.len() == done@.len(),
                j <= done@.len(),
                forall|k: int|
                    0 <= k < jobs@.len() ==> (#[trigger] jobs@[k])@ == seg_at(data@, seg, i + k)
                        && 0 < jobs@[k]@.len() && jobs@[k]@.len() == seg_len(n as int, seg, i + k),
                forall|k: int|
                    0 <= k < done@.len() ==> match #[trigger] done@[k] {
                        Some(v) => {
                            &&& v@ == segment::segment_code(jobs@[k]@, prof)
                            &&& jobs@[k]@.len() > 0 ==> control::went_on(ctrl)
                            &&& segment::counted(ctrl, jobs@[k]@.len() as int)
                        },
                        None => control::stopped(ctrl),
                    },
                j > 0 ==> control::went_on(ctrl),
                counted_segments(ctrl, n as int, seg, i + j),
                table@ == lengths(c, i + j),
                body@ == joined(c, i + j),
            decreases done@.len() - j,
        {
            assert(jobs@[j as int]@ == seg_at(data@, seg, i + j));
            match &done[j] {
                Some(v) => {
                    assert(v@ == c[i + j]);
                    bytes::push_le(&mut table, v.len() as u64, 4);
                    body.extend_from_slice(v.as_slice());
                    assert(body@ =~= joined(c, i + j + 1));
                },
                None => {
                    return None;
                },
            }
            j = j + 1;
        }
        i = i + done.len();
    }
    let mut out: Vec<u8> = Vec::new();
    bytes::push_le(&mut out, count as u64, 4);
    out.extend_from_slice(table.as_slice());
    out.extend_from_slice(body.as_slice());
    assert(out@ =~= framed(data@, seg, prof));
    Some(out)
}

/// Whether a payload can be decoded to `n` bytes: its table of lengths is complete
/// and no segment starts beyond them.
pub fn frame_ok(payload: &[u8], n: usize, seg_size: usize) -> (r: bool)
    requires
        seg_size > 0,
    ensures
        r == well_framed(payload@, n as int, seg_size as int),
{
    if n == 0 || payload.len() < 4 {
        return true;
    }
    let k = bytes::read_le(payload, 0, 4);
    proof {
        bytes::lemma_widths();
    }
    if k > (payload.len() as u64 - 4) / 4 {
        return false;
    }
    if k == 0 {
        return true;
    }
    let m: u64 = k - 1;
    let s: u64 = seg_size as u64;
    proof {
        assert(m * s <= n <==> m <= n as int / s as int) by (nonlinear_arith)
            requires
                s > 0,
                m >= 0,
                n >= 0,
        ;
    }
    m <= n as u64 / s
}

/// The segments of a payload from `from` on, the code of which starts at `at`, that are
/// decoded next, each with its length: no more at a time than the memory budget
/// affords. The second result is where the code of the segment after them starts.
fn decode_jobs<'a>(
    payload: &'a [u8],
    n: usize,
    seg_size: usize,
    from: usize,
    at: usize,
    prof: Profile,
    ctrl: Option<&Control>,
) -> (r: (Vec<(&'a [u8], usize)>, usize))
    requires
        n > 0,
        seg_size > 0,
        seg_size <= u32::MAX || n <= u32::MAX,
        payload@.len() >= 4,
        well_framed(payload@, n as int, seg_size as int),
        from < claimed(payload@),
        at == sizing::min(code_start(payload@, from as int), payload@.len() as int),
    ensures
        0 < r.0@.len() <= affordable(
            sizing::min(seg_size as int, n as int),
            prof,
            budget_of(ctrl),
        ),
        from + r.0@.len() <= claimed(payload@),
        r.1 == sizing::min(code_start(payload@, from + r.0@.len()), payload@.len() as int),
        forall|j: int|
            0 <= j < r.0@.len() ==> (#[trigger] r.0@[j]).0@ == code_at(payload@, from + j)
                && r.0@[j].1 == seg_len(n as int, seg_size as int, from + j),
{
    let end: usize = payload.len();
    proof {
        bytes::lemma_widths();
    }
    let count: usize = bytes::read_le(payload, 0, 4) as usize;
    let ghost seg = seg_size as int;
    let most: usize = if seg_size < n {
        seg_size
    } else {
        n
    };
    let w = in_flight(most, prof, ctrl);
    assert(0 <= from * seg <= (count - 1) * seg) by (nonlinear_arith)
        requires
            seg > 0,
            0 <= from <= count - 1,
    ;
    let mut start: usize = from * seg_size;
    let mut at: usize = at;
    let mut i: usize = from;
    let mut jobs: Vec<(&'a [u8], usize)> = Vec::new();
    while i < count && jobs.len() < w
        invariant
            n > 0,
            seg_size > 0,
            seg == seg_size,
            end == payload@.len() >= 4,
            count == claimed(payload@) <= u32::MAX,
            4 + 4 * count <= end,
            count > 0 ==> (count - 1) * seg <= n,
            w >= 1,
            from <= i <= count,
            i < count ==> start == i * seg,
            at == sizing::min(code_start(payload@, i as int), end as int),
            jobs@.len() == i - from,
            jobs@.len() <= w,
            forall|j: int|
                0 <= j < jobs@.len() ==> (#[trigger] jobs@[j]).0@ == code_at(payload@, from + j)
                    && jobs@[j].1 == seg_len(n as int, seg, from + j),
        decreases count - i,
    {
        proof {
            bytes::lemma_widths();
            assert(i * seg <= (count - 1) * seg && (i + 1) * seg == i * seg + seg)
                by (nonlinear_arith)
                requires
                    seg > 0,
                    0 <= i <= count - 1,
            ;
            if i + 1 < count {
                assert((i + 1) * seg <= (count - 1) * seg) by (nonlinear_arith)
                    requires
                        seg > 0,
                        0 <= i + 1 <= count - 1,
                ;
            }
        }
        let len: usize = if seg_size < n - start {
            seg_size
        } else {
            n - start
        };
        assert(4 + 4 * i + 4 <= end);
        let code_len: usize = bytes::read_le(payload, 4 + 4 * i, 4) as usize;
        let stop: usize = if code_len < end - at {
            at + code_len
        } else {
            end
        };
        assert(code_start(payload@, i + 1) == code_start(payload@, i as int) + code_len);
        jobs.push((&payload[at..stop], len));
        at = stop;
        start = start + len;
        i = i + 1;
    }
    (jobs, at)
}

/// Decode segments of at most `most` bytes in parallel. Their models are all in memory
/// at the same time, so there may be no more than the budget affords.
fn decode_wave(jobs: &Vec<(&[u8], usize)>, most: usize, prof: Profile, ctrl: Option<&Control>) -> (done:
    Vec<Option<Vec<u8>>>)
    requires
        jobs@.len() <= affordable(most as int, prof, budget_of(ctrl)),
        most <= u32::MAX,
        forall|j: int| 0 <= j < jobs@.len() ==> (#[trigger] jobs@[j]).1 <= most,
    ensures
        done@.len() == jobs@.len(),
        forall|j: int|
            0 <= j < done@.len() ==> match #[trigger] done@[j] {
                Some(v) => {
                    &&& v@ == segment::segment_data(jobs@[j].0@, jobs@[j].1 as nat, prof)
                    &&& v@.len() > 0 ==> control::went_on(ctrl)
                    &&& segment::counted(ctrl, jobs@[j].1 as int)
                },
                None => control::stopped(ctrl),
            },
{
    let f = |x: &(&[u8], usize)| -> (o: Option<Vec<u8>>)
        requires
            x.1 <= u32::MAX,
        ensures
            o is None ==> control::stopped(ctrl),
            o matches Some(v) ==> v@.len() > 0 ==> control::went_on(ctrl),
            o is Some ==> segment::counted(ctrl, x.1 as int),
            o matches Some(v) ==> v@ == segment::segment_data(x.0@, x.1 as nat, prof),
        { segment::decode_watched(x.0, x.1, prof, ctrl) };
    let done = parallel::par_map(jobs, f);
    assert forall|j: int| 0 <= j < done@.len() implies match #[trigger] done@[j] {
        Some(v) => {
            &&& v@ == segment::segment_data(jobs@[j].0@, jobs@[j].1 as nat, prof)
            &&& v@.len() > 0 ==> control::went_on(ctrl)
            &&& segment::counted(ctrl, jobs@[j].1 as int)
        },
        None => control::stopped(ctrl),
    } by {
        assert(call_ensures(f, (&jobs@[j],), done@[j]));
    }
    done
}

/// Decode `n` bytes from a framed payload, unless `ctrl` asks to stop. Segments are
/// decoded in parallel as far as the control's memory budget goes.
pub fn decode_framed_watched(
    payload: &[u8],
    n: usize,
    seg_size: usize,
    prof: Profile,
    ctrl: Option<&Control>,
) -> (r: Option<Vec<u8>>)
    requires
        seg_size > 0,
        seg_size <= u32::MAX || n <= u32::MAX,
        well_framed(payload@, n as int, seg_size as int),
    ensures
        r is None ==> n > 0 && payload@.len() >= 4 && control::stopped(ctrl),
        r matches Some(v) ==> v@ == unframed(payload@, n as int, seg_size as int, prof),
        r matches Some(v) ==> v@.len() > 0 ==> control::went_on(ctrl),
        r is Some && n > 0 && payload@.len() >= 4 ==> counted_segments(
            ctrl,
            n as int,
            seg_size as int,
            claimed(payload@),
        ),
{
    let end: usize = payload.len();
    if n == 0 || end < 4 {
        return Some(Vec::new());
    }
    proof {
        bytes::lemma_widths();
    }
    let count: usize = bytes::read_le(payload, 0, 4) as usize;
    let ghost seg = seg_size as int;
    let ghost p = parts(payload@, n as int, seg, prof);
    let most: usize = if seg_size < n {
        seg_size
    } else {
        n
    };
    let mut out: Vec<u8> = Vec::new();
    let mut i: usize = 0;
    let mut at: usize = 4 + 4 * count;
    while i < count
        invariant
            n > 0,
            seg_size > 0,
            seg_size <= u32::MAX || n <= u32::MAX,
            seg == seg_size,
            end == payload@.len() >= 4,
            count == claimed(payload@) <= u32::MAX,
            well_framed(payload@, n as int, seg),
            p == parts(payload@, n as int, seg, prof),
            i <= count,
            most <= u32::MAX,
            most == sizing::min(seg, n as int),
            at == sizing::min(code_start(payload@, i as int), end as int),
            out@ == joined(p, i as int),
            out@.len() > 0 ==> control::went_on(ctrl),
            counted_segments(ctrl, n as int, seg, i as int),
        decreases count - i,
    {
        let (jobs, next) = decode_jobs(payload, n, seg_size, i, at, prof, ctrl);
        assert forall|j: int| 0 <= j < jobs@.len() implies (#[trigger] jobs@[j]).1 <= most by {
            assert(0 <= (i + j) * seg) by (nonlinear_arith)
                requires
                    seg > 0,
                    0 <= i,
                    0 <= j,
            ;
        }
        let done = decode_wave(&jobs, most, prof, ctrl);
        let mut j: usize = 0;
        while j < done.len()
            invariant
                n > 0,
                end == payload@.len() >= 4,
                i < i + done@.len() <= count == p.len(),
                p == parts(payload@, n as int, seg, prof),
                jobs@.len() == done@.len(),
                j <= done@.len(),
                forall|k: int|
                    0 <= k < jobs@.len() ==> (#[trigger] jobs@[k]).0@ == code_at(payload@, i + k)
                        && jobs@[k].1 == seg_len(n as int, seg, i + k),
                forall|k: int|
                    0 <= k < done@.len() ==> match #[trigger] done@[k] {
                        Some(v) => {
                            &&& v@ == segment::segment_data(jobs@[k].0@, jobs@[k].1 as nat, prof)
                            &&& v@.len() > 0 ==> control::went_on(ctrl)
                            &&& segment::counted(ctrl, jobs@[k].1 as int)
                        },
                        None => control::stopped(ctrl),
                    },
                out@ == joined(p, i + j),
                out@.len() > 0 ==> control::went_on(ctrl),
                counted_segments(ctrl, n as int, seg, i + j),
            decreases done@.len() - j,
        {
            assert(jobs@[j as int].0@ == code_at(payload@, i + j));
            match &done[j] {
                Some(v) => {
                    assert(v@ == p[i + j]);
                    out.extend_from_slice(v.as_slice());
                    assert(out@ =~= joined(p, i + j + 1));
                },
                None => {
                    return None;
                },
            }
            j = j + 1;
        }
        i = i + done.len();
        at = next;
    }
    Some(out)
}

/// Code `data` in segments of `seg_size` bytes under the standard profile.
pub fn encode_framed(data: &[u8], seg_size: usize) -> (r: Vec<u8>)
    requires
        data@.len() > 0 ==> seg_size > 0,
        seg_size <= u32::MAX || data@.len() <= u32::MAX,
    ensures
        r@ == framed(data@, seg_size as int, segment::standard()),
{
    match encode_framed_watched(data, seg_size, Profile { turbo: false, mem: 0 }, None) {
        Some(v) => v,
        None => Vec::new(),
    }
}

/// Decode `n` bytes from a payload in segments of `seg_size` bytes under the
/// standard profile.
pub fn decode_framed(payload: &[u8], n: usize, seg_size: usize) -> (r: Vec<u8>)
    requires
        seg_size > 0,
        seg_size <= u32::MAX || n <= u32::MAX,
        well_framed(payload@, n as int, seg_size as int),
    ensures
        r@ == unframed(payload@, n as int, seg_size as int, segment::standard()),
{
    match decode_framed_watched(payload, n, seg_size, Profile { turbo: false, mem: 0 }, None) {
        Some(v) => v,
        None => Vec::new(),
    }
}

/// Compress `data` into a self-contained payload. It carries no total length: the
/// caller is expected to know how many bytes to decode.
pub fn encode(data: &[u8]) -> (r: Vec<u8>)
    ensures
        r@ == framed(data@, SEG_SIZE as int, segment::standard()),
{
    encode_framed(data, SEG_SIZE)
}

/// Decode exactly `n` bytes from a payload produced by [`encode`].
pub fn decode(payload: &[u8], n: usize) -> (r: Vec<u8>)
    requires
        well_framed(payload@, n as int, SEG_SIZE as int),
    ensures
        r@ == unframed(payload@, n as int, SEG_SIZE as int, segment::standard()),
{
    decode_framed(payload, n, SEG_SIZE)
}

} // verus!
