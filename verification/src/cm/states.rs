//! Bit-history states and the hashed tables that hold them.
//!
//! A state is one byte: the high nibble counts zeros, the low nibble ones, both
//! capped at 15. Observing a bit raises its own count and discounts a large
//! opposite one, so a state tells both the evidence and its recency.
use vstd::prelude::*;
use crate::cm::counters;
use crate::cm::logistic;
use crate::cm::logistic::Logistic;

verus! {

/// A count after one more observation of its bit.
pub open spec fn raised(n: int) -> int {
    if n < 15 {
        n + 1
    } else {
        15
    }
}

/// A count after an observation of the opposite bit.
pub open spec fn discounted(n: int) -> int {
    if n > 3 {
        n / 2 + 1
    } else {
        n
    }
}

/// The state after observing `bit`.
pub open spec fn state_after(s: u8, bit: bool) -> u8 {
    let n0 = s as int / 16;
    let n1 = s as int % 16;
    if bit {
        (discounted(n0) * 16 + raised(n1)) as u8
    } else {
        (raised(n0) * 16 + discounted(n1)) as u8
    }
}

/// Advance a state by one observed bit.
pub fn state_next(s: u8, bit: bool) -> (r: u8)
    ensures
        r == state_after(s, bit),
{
    let n0: u8 = s / 16;
    let n1: u8 = s % 16;
    let (up, down) = if bit {
        (n1, n0)
    } else {
        (n0, n1)
    };
    let u: u8 = if up < 15 {
        up + 1
    } else {
        15
    };
    let d: u8 = if down > 3 {
        down / 2 + 1
    } else {
        down
    };
    if bit {
        d * 16 + u
    } else {
        u * 16 + d
    }
}

/// `a / b` scaled by `scale` and rounded to the nearest integer.
pub open spec fn scaled(a: int, b: int, scale: int) -> int {
    (2 * a * scale + b) / (2 * b)
}

/// Closed-form estimate of `P(bit == 1)` from a state's counts, in units of
/// `1 / scale`: `(2 * n1 + 1) / (2 * n0 + 2 * n1 + 2)`.
pub open spec fn estimate(s: int, scale: int) -> int {
    let n0 = s / 16;
    let n1 = s % 16;
    scaled(2 * n1 + 1, 2 * n0 + 2 * n1 + 2, scale)
}

/// The closed-form estimate of a state in the stretched domain.
pub open spec fn direct(s: int) -> int {
    logistic::stretch(logistic::clamp(estimate(s, 4096), 1, 4095))
}

/// A bit history votes for the bit it has seen more of, and has no opinion where it has
/// seen both equally often.
pub proof fn histories_vote_for_the_majority(s: u8)
    ensures
        s as int % 16 > s as int / 16 ==> direct(s as int) > 0,
        s as int % 16 < s as int / 16 ==> direct(s as int) < 0,
        s as int % 16 == s as int / 16 ==> direct(s as int) == 0,
{
    let (n0, n1) = (s as int / 16, s as int % 16);
    let (a, b) = (2 * n1 + 1, 2 * n0 + 2 * n1 + 2);
    let p = (2 * a * 4096 + b) / (2 * b);
    if n1 > n0 {
        assert(p >= 2056) by (nonlinear_arith)
            requires
                60 * a >= 31 * b,
                b > 0,
                p == (2 * a * 4096 + b) / (2 * b),
        ;
    } else if n1 < n0 {
        assert(p <= 2040) by (nonlinear_arith)
            requires
                60 * a <= 29 * b,
                b > 0,
                p == (2 * a * 4096 + b) / (2 * b),
        ;
    } else {
        assert(p == 2048) by (nonlinear_arith)
            requires
                2 * a == b,
                b > 0,
                p == (2 * a * 4096 + b) / (2 * b),
        ;
    }
    logistic::stretch_decides(logistic::clamp(p, 1, 4095));
}

/// A sighting counts for its bit, up to 15, and halves a long record of the other.
pub proof fn sightings_count(s: u8)
    ensures
        ({
            let (n0, n1) = (s as int / 16, s as int % 16);
            let (one, zero) = (state_after(s, true) as int, state_after(s, false) as int);
            &&& one % 16 == (if n1 < 15 { n1 + 1 } else { 15 })
            &&& one / 16 == (if n0 > 3 { n0 / 2 + 1 } else { n0 })
            &&& zero / 16 == (if n0 < 15 { n0 + 1 } else { 15 })
            &&& zero % 16 == (if n1 > 3 { n1 / 2 + 1 } else { n1 })
        }),
{
    let (n0, n1) = (s as int / 16, s as int % 16);
    let (x, y) = (discounted(n0), raised(n1));
    assert(0 <= x <= 15 && 0 <= y <= 15);
    assert((x * 16 + y) / 16 == x && (x * 16 + y) % 16 == y);
    let (u, v) = (raised(n0), discounted(n1));
    assert(0 <= u <= 15 && 0 <= v <= 15);
    assert((u * 16 + v) / 16 == u && (u * 16 + v) % 16 == v);
}

/// Four sightings in a row win any bit history over.
pub proof fn four_sightings_win(s: u8)
    ensures
        ({
            let t = state_after(state_after(state_after(state_after(s, true), true), true), true);
            direct(t as int) > 0
        }),
        ({
            let t = state_after(
                state_after(state_after(state_after(s, false), false), false),
                false,
            );
            direct(t as int) < 0
        }),
{
    let (a1, b1) = (state_after(s, true), state_after(s, false));
    let (a2, b2) = (state_after(a1, true), state_after(b1, false));
    let (a3, b3) = (state_after(a2, true), state_after(b2, false));
    let (a4, b4) = (state_after(a3, true), state_after(b3, false));
    sightings_count(s);
    sightings_count(a1);
    sightings_count(a2);
    sightings_count(a3);
    sightings_count(b1);
    sightings_count(b2);
    sightings_count(b3);
    histories_vote_for_the_majority(a4);
    histories_vote_for_the_majority(b4);
}

fn estimate_of(s: u8, scale: u32) -> (r: u32)
    requires
        1 <= scale <= 65536,
    ensures
        r == estimate(s as int, scale as int),
{
    let n0: u32 = s as u32 / 16;
    let n1: u32 = s as u32 % 16;
    let a: u32 = 2 * n1 + 1;
    let b: u32 = 2 * n0 + 2 * n1 + 2;
    assert(2 * a * scale <= 62 * 65536) by (nonlinear_arith)
        requires
            a <= 31,
            scale <= 65536,
    ;
    (2 * a * scale + b) / (2 * b)
}

/// Table of the closed-form estimates of all 256 states.
pub fn direct_table(lg: &Logistic) -> (t: Vec<i16>)
    ensures
        t@.len() == 256,
        forall|s: int| 0 <= s < 256 ==> #[trigger] t@[s] == direct(s),
{
    let mut t: Vec<i16> = Vec::new();
    let mut i: usize = 0;
    while i < 256
        invariant
            i <= 256,
            t@.len() == i,
            forall|s: int| 0 <= s < i ==> #[trigger] t@[s] == direct(s),
        decreases 256 - i,
    {
        let e: u32 = estimate_of(i as u8, 4096);
        let c: i32 = if e < 1 {
            1
        } else if e > 4095 {
            4095
        } else {
            e as i32
        };
        t.push(lg.stretch(c) as i16);
        i = i + 1;
    }
    t
}

/// A state-map entry: the learned `P(bit == 1)` of one state.
#[derive(Clone, Copy)]
pub struct SmEntry {
    pub p: u16,
    pub cnt: u16,
}

impl SmEntry {
    /// The entry after observing `bit`.
    pub open spec fn after(self, bit: bool) -> SmEntry {
        SmEntry {
            p: counters::drift(self.p as int, bit, counters::rate(self.cnt as int), 65536) as u16,
            cnt: counters::counted(self.cnt),
        }
    }

    /// The entry of state `s` before anything was observed.
    pub open spec fn seed(s: int) -> SmEntry {
        SmEntry { p: logistic::clamp(estimate(s, 65536), 1, 65535) as u16, cnt: 0 }
    }

    /// Observe one bit.
    pub fn update(&mut self, bit: bool)
        ensures
            *final(self) == old(self).after(bit),
    {
        let r = counters::rate_of(self.cnt);
        self.p = counters::drift_by(self.p, bit, r);
        self.cnt = counters::count_up(self.cnt);
    }
}

/// Entries of one state map: a plane of 256 for each depth within a nibble.
pub const SM_SIZE: usize = 1024;

/// A state map before anything was observed: every plane is seeded with the
/// closed-form estimates.
pub open spec fn fresh_map() -> Seq<SmEntry> {
    Seq::new(1024, |i: int| SmEntry::seed(i % 256))
}

/// A fresh state map.
pub fn sm_init() -> (t: Vec<SmEntry>)
    ensures
        t@ == fresh_map(),
{
    let mut t: Vec<SmEntry> = Vec::new();
    let mut i: usize = 0;
    while i < SM_SIZE
        invariant
            i <= 1024,
            t@.len() == i,
            forall|j: int| 0 <= j < i ==> #[trigger] t@[j] == fresh_map()[j],
        decreases 1024 - i,
    {
        let e: u32 = estimate_of((i % 256) as u8, 65536);
        let p: u32 = if e < 1 {
            1
        } else if e > 65535 {
            65535
        } else {
            e
        };
        t.push(SmEntry { p: p as u16, cnt: 0 });
        i = i + 1;
    }
    assert(t@ =~= fresh_map());
    t
}

// ---------------------------------------------------------------------------
// Hash table of nibble buckets
// ---------------------------------------------------------------------------

/// Bytes per bucket: a checksum and the 15 states of one nibble's tree.
pub const BUCKET: usize = 16;

/// Contents of a bit-history table.
#[verifier::ext_equal]
pub struct Buckets {
    pub t: Seq<u8>,
    pub mask: u32,
    pub ways: u32,
}

/// Checksum that marks a bucket as belonging to hash `h`; never 0.
pub open spec fn checksum(h: u32) -> u8 {
    ((h >> 24) as u8) | 1
}

impl Buckets {
    /// All buckets empty, `2^bits` of them.
    pub open spec fn empty(bits: u32, ways: u32) -> Buckets {
        Buckets {
            t: Seq::new((16 * (1u32 << bits)) as nat, |i: int| 0u8),
            mask: ((1u32 << bits) - 1) as u32,
            ways,
        }
    }

    /// Every candidate of every hash is a bucket of the table.
    pub open spec fn wf(self) -> bool {
        &&& self.ways == 2 || self.ways == 4
        &&& self.mask & 3 == 3
        &&& self.mask < 0x400_0000
        &&& self.t.len() == (self.mask + 1) * 16
    }

    /// Byte offset of candidate `w` for hash `h`.
    pub open spec fn at(self, h: u32, w: int) -> int {
        ((h & self.mask & !((self.ways - 1) as u32)) + w) * 16
    }

    /// First candidate from `w` on that carries the checksum of `h`, or -1.
    pub open spec fn hit(self, h: u32, w: int) -> int
        decreases self.ways - w,
    {
        if w >= self.ways {
            -1
        } else if self.t[self.at(h, w)] == checksum(h) {
            w
        } else {
            self.hit(h, w + 1)
        }
    }

    /// Observations recorded at the root state of candidate `w`.
    pub open spec fn evidence(self, h: u32, w: int) -> int {
        let e = self.t[self.at(h, w) + 1];
        e as int / 16 + e as int % 16
    }

    /// Candidate to recycle: the first free one from `w` on, else the least
    /// established of those and `best`.
    pub open spec fn victim(self, h: u32, w: int, best: int, least: int) -> int
        decreases self.ways - w,
    {
        if w >= self.ways {
            best
        } else if self.t[self.at(h, w)] == 0 {
            w
        } else if self.evidence(h, w) < least {
            self.victim(h, w + 1, w, self.evidence(h, w))
        } else {
            self.victim(h, w + 1, best, least)
        }
    }

    /// The candidate that serves hash `h`.
    pub open spec fn choice(self, h: u32) -> int {
        if self.hit(h, 0) >= 0 {
            self.hit(h, 0)
        } else {
            self.victim(h, 0, 0, 0x1_0000)
        }
    }

    /// Offset of the 15 states that serve hash `h`.
    pub open spec fn offset(self, h: u32) -> int {
        self.at(h, self.choice(h)) + 1
    }

    /// The table with the bucket of `h` in place: unchanged on a hit, else with
    /// the recycled bucket cleared and marked.
    pub open spec fn found(self, h: u32) -> Buckets {
        if self.hit(h, 0) >= 0 {
            self
        } else {
            let i = self.at(h, self.choice(h));
            Buckets {
                t: Seq::new(
                    self.t.len(),
                    |k: int|
                        if k == i {
                            checksum(h)
                        } else if i < k < i + 16 {
                            0u8
                        } else {
                            self.t[k]
                        },
                ),
                ..self
            }
        }
    }

    /// The table with one state replaced.
    pub open spec fn with_state(self, i: int, s: u8) -> Buckets {
        Buckets { t: self.t.update(i, s), ..self }
    }

    proof fn lemma_at(self, h: u32, w: int)
        requires
            self.wf(),
            0 <= w < self.ways,
        ensures
            0 <= self.at(h, w),
            self.at(h, w) + 16 <= self.t.len(),
            (h & self.mask & !((self.ways - 1) as u32)) + self.ways <= self.mask + 1,
    {
        let m = self.mask;
        assert(m & 3 == 3 ==> (h & m & !1u32) + 2 <= m + 1) by (bit_vector);
        assert(m & 3 == 3 ==> (h & m & !3u32) + 4 <= m + 1) by (bit_vector);
    }

    proof fn lemma_choice_from(self, h: u32, w: int, best: int, least: int)
        requires
            self.wf(),
            0 <= w <= self.ways,
            0 <= best < self.ways,
        ensures
            0 <= self.victim(h, w, best, least) < self.ways,
            -1 <= self.hit(h, w) < self.ways,
            self.hit(h, w) == -1 || self.hit(h, w) >= w,
        decreases self.ways - w,
    {
        if w < self.ways {
            self.lemma_choice_from(h, w + 1, best, least);
            self.lemma_choice_from(h, w + 1, w, self.evidence(h, w));
        }
    }

    /// Looking a hash up keeps the table well formed and yields 15 states inside
    /// it.
    pub proof fn lemma_found(self, h: u32)
        requires
            self.wf(),
        ensures
            self.found(h).wf(),
            0 <= self.choice(h) < self.ways,
            1 <= self.offset(h),
            self.offset(h) + 15 <= self.t.len(),
            self.found(h).t.len() == self.t.len(),
    {
        self.lemma_choice_from(h, 0, 0, 0x1_0000);
        self.lemma_at(h, self.choice(h));
    }
}

impl Buckets {
    proof fn lemma_hit(self, h: u32, w: int, g: int)
        requires
            0 <= w <= g < self.ways,
            self.t[self.at(h, g)] == checksum(h),
            forall|v: int| w <= v < g ==> self.t[#[trigger] self.at(h, v)] != checksum(h),
        ensures
            self.hit(h, w) == g,
        decreases g - w,
    {
        if w < g {
            assert(self.t[self.at(h, w)] != checksum(h));
            self.lemma_hit(h, w + 1, g);
        }
    }

    proof fn lemma_hit_is(self, h: u32, w: int)
        requires
            0 <= w,
        ensures
            self.hit(h, w) >= 0 ==> w <= self.hit(h, w) < self.ways && self.t[self.at(
                h,
                self.hit(h, w),
            )] == checksum(h) && (forall|v: int|
                w <= v < self.hit(h, w) ==> self.t[#[trigger] self.at(h, v)] != checksum(h)),
            self.hit(h, w) < 0 ==> forall|v: int|
                w <= v < self.ways ==> self.t[#[trigger] self.at(h, v)] != checksum(h),
        decreases self.ways - w,
    {
        if w < self.ways {
            self.lemma_hit_is(h, w + 1);
        }
    }

    /// What was looked up once is found again, in the same place and with what was
    /// noted there since.
    pub proof fn what_was_noted_is_found_again(self, h: u32, j: int, s: u8)
        requires
            self.wf(),
            0 <= j < 15,
        ensures
            ({
                let f = self.found(h).with_state(self.offset(h) + j, s);
                &&& f.wf()
                &&& f.found(h) == f
                &&& f.offset(h) == self.offset(h)
                &&& f.t[f.offset(h) + j] == s
            }),
    {
        self.lemma_found(h);
        self.lemma_hit_is(h, 0);
        let g = self.choice(h);
        let o = self.offset(h);
        let f0 = self.found(h);
        let f = f0.with_state(o + j, s);
        assert(checksum(h) != 0) by {
            let c = (h >> 24) as u8;
            assert(c | 1 != 0u8) by (bit_vector);
        }
        self.lemma_at(h, g);
        assert(f.t[f.at(h, g)] == checksum(h));
        assert forall|v: int| 0 <= v < g implies f.t[#[trigger] f.at(h, v)] != checksum(h) by {
            self.lemma_at(h, v);
            assert(self.t[self.at(h, v)] != checksum(h));
            assert(f.at(h, v) == self.at(h, v));
            assert(self.at(h, v) + 16 <= self.at(h, g));
            assert(f.t[f.at(h, v)] == self.t[self.at(h, v)]);
        }
        f.lemma_hit(h, 0, g);
        assert(f.offset(h) == o);
    }
}

/// A hashed table of bit-history states.
pub struct BhTable {
    t: Vec<u8>,
    mask: u32,
    ways: u32,
}

impl View for BhTable {
    type V = Buckets;

    closed spec fn view(&self) -> Buckets {
        Buckets { t: self.t@, mask: self.mask, ways: self.ways }
    }
}

impl BhTable {
    /// A table of `2^bits` empty buckets, probed `ways` at a time.
    pub fn new(bits: u32, ways: u32) -> (r: BhTable)
        requires
            2 <= bits <= 25,
            ways == 2 || ways == 4,
        ensures
            r@ == Buckets::empty(bits, ways),
            r@.wf(),
    {
        assert(2u32 <= bits && bits <= 25u32 ==> (1u32 << bits) <= 0x200_0000u32 && (1u32 << bits)
            >= 4u32 && (1u32 << bits) & 3u32 == 0u32) by (bit_vector);
        let n: u32 = 1u32 << bits;
        assert(n & 3 == 0 && n >= 4 ==> ((n - 1) as u32) & 3 == 3) by (bit_vector);
        let r = BhTable { t: vec![0u8; 16 * n as usize], mask: n - 1, ways };
        assert(r@.t =~= Buckets::empty(bits, ways).t);
        r
    }

    /// State at offset `i`.
    pub fn state(&self, i: usize) -> (s: u8)
        requires
            i < self@.t.len(),
        ensures
            s == self@.t[i as int],
    {
        self.t[i]
    }

    /// Replace the state at offset `i`.
    pub fn set_state(&mut self, i: usize, s: u8)
        requires
            i < old(self)@.t.len(),
        ensures
            final(self)@ == old(self)@.with_state(i as int, s),
    {
        self.t[i] = s;
    }

    /// Find or allocate the bucket for hash `h`; returns the offset of its states.
    pub fn find(&mut self, h: u32) -> (r: usize)
        requires
            old(self)@.wf(),
        ensures
            final(self)@ == old(self)@.found(h),
            r == old(self)@.offset(h),
            final(self)@.wf(),
            1 <= r,
            r + 15 <= final(self)@.t.len(),
    {
        let ghost b = self@;
        proof {
            b.lemma_found(h);
            b.lemma_at(h, 0);
        }
        let cs: u8 = ((h >> 24) as u8) | 1;
        let ways: usize = self.ways as usize;
        let first: u32 = h & self.mask & !(self.ways - 1);
        let base: usize = first as usize * BUCKET;
        let mut w: usize = 0;
        while w < ways
            invariant
                b.wf(),
                self@ == b,
                w <= ways == b.ways,
                base == b.at(h, 0),
                cs == checksum(h),
                b.hit(h, 0) == b.hit(h, w as int),
                1 <= b.offset(h),
                b.offset(h) + 15 <= b.t.len(),
            decreases ways - w,
        {
            proof {
                b.lemma_at(h, w as int);
                b.lemma_choice_from(h, w as int, 0, 0);
            }
            let i: usize = base + w * BUCKET;
            if self.t[i] == cs {
                return i + 1;
            }
            w = w + 1;
        }
        let mut victim: usize = 0;
        let mut least: u32 = 0x1_0000;
        let mut w: usize = 0;
        while w < ways
            invariant
                b.wf(),
                self@ == b,
                w <= ways == b.ways,
                victim < ways,
                base == b.at(h, 0),
                b.victim(h, 0, 0, 0x1_0000) == b.victim(h, w as int, victim as int, least as int),
            ensures
                victim == b.victim(h, 0, 0, 0x1_0000),
            decreases ways - w,
        {
            proof {
                b.lemma_at(h, w as int);
            }
            let i: usize = base + w * BUCKET;
            if self.t[i] == 0 {
                victim = w;
                break;
            }
            let e: u8 = self.t[i + 1];
            let ev: u32 = (e / 16) as u32 + (e % 16) as u32;
            if ev < least {
                least = ev;
                victim = w;
            }
            w = w + 1;
        }
        proof {
            b.lemma_at(h, victim as int);
        }
        let i: usize = base + victim * BUCKET;
        assert(i == b.at(h, b.choice(h)));
        self.t[i] = cs;
        let mut k: usize = 1;
        while k < BUCKET
            invariant
                1 <= k <= 16,
                i + 16 <= b.t.len(),
                self.mask == b.mask,
                self.ways == b.ways,
                self.t@.len() == b.t.len(),
                forall|j: int|
                    0 <= j < b.t.len() ==> #[trigger] self.t@[j] == (if j == i {
                        cs
                    } else if i < j < i + k {
                        0u8
                    } else {
                        b.t[j]
                    }),
            decreases 16 - k,
        {
            assert(i + k < self.t.len());
            self.t[i + k] = 0;
            k = k + 1;
        }
        assert(self@.t =~= b.found(h).t);
        i + 1
    }
}

} // verus!
