//! Adaptive 16-bit probability estimates.
use vstd::prelude::*;

verus! {

/// What an estimate of `P(bit == 1)` moves toward when `bit` is observed.
pub open spec fn target(bit: bool) -> int {
    if bit {
        65536
    } else {
        0
    }
}

/// The estimate `v` moved `num / den` of the way toward the observed bit, rounded
/// down.
pub open spec fn drift(v: int, bit: bool, num: int, den: int) -> int {
    v + (target(bit) - v) * num / den
}

/// A partial step never leaves the 16-bit range.
pub proof fn lemma_drift_range(v: int, bit: bool, num: int, den: int)
    requires
        0 <= v <= 65535,
        0 <= num < den,
    ensures
        0 <= drift(v, bit, num, den) <= 65535,
{
    let d = target(bit) - v;
    if bit {
        assert(0 <= d * num / den < d) by (nonlinear_arith)
            requires
                d > 0,
                0 <= num < den,
        ;
    } else {
        assert(d <= d * num / den <= 0) by (nonlinear_arith)
            requires
                d <= 0,
                0 <= num < den,
        ;
    }
}

/// An estimate moves toward the observed bit, by no more than the whole way; it stands
/// still only where it is there already.
pub proof fn counters_learn(c: DualCounter, bit: bool)
    requires
        c.cnt <= CNT_MAX,
    ensures
        bit ==> c.after(bit).fast >= c.fast && c.after(bit).slow >= c.slow,
        !bit ==> c.after(bit).fast <= c.fast && c.after(bit).slow <= c.slow,
        bit && c.fast <= 65528 ==> c.after(bit).fast > c.fast,
        bit && c.slow <= 65278 ==> c.after(bit).slow > c.slow,
        !bit && c.fast >= 1 ==> c.after(bit).fast < c.fast,
        !bit && c.slow >= 1 ==> c.after(bit).slow < c.slow,
        c.cnt == 0 && bit ==> c.after(bit).slow - c.slow == (65536 - c.slow) / 2,
        c.after(bit).cnt >= c.cnt,
{
    let r = rate(c.cnt as int);
    assert(255 <= r <= 32768) by (nonlinear_arith)
        requires
            r == 65536int / (c.cnt as int + 2),
            0 <= c.cnt <= 255,
    ;
    lemma_drift_range(c.fast as int, bit, 8192, 65536);
    lemma_drift_range(c.slow as int, bit, r, 65536);
    let s = target(bit) - c.slow;
    if c.cnt == 0 {
        assert(65536int / 2 == 32768);
        assert(c.cnt as int + 2 == 2);
        assert(r == 32768);
        assert(s * r == s * 32768);
    }
    if bit {
        assert(s * r / 65536 >= 0 && (s >= 258 ==> s * r / 65536 >= 1)) by (nonlinear_arith)
            requires
                s >= 0,
                r >= 255,
        ;
    } else {
        assert(s * r / 65536 <= 0 && (s <= -1 ==> s * r / 65536 <= -1)) by (nonlinear_arith)
            requires
                s <= 0,
                r >= 255,
        ;
    }
}

/// Learning rate of a context seen `cnt` times, as a 16-bit fraction.
pub open spec fn rate(cnt: int) -> int {
    65536int / (cnt + 2)
}

/// Visit counts stop at this value, which keeps the rate from vanishing.
pub const CNT_MAX: u16 = 255;

/// A visit count after one more visit.
pub open spec fn counted(cnt: u16) -> u16 {
    if cnt < CNT_MAX {
        (cnt + 1) as u16
    } else {
        cnt
    }
}

/// Move `v` by the fraction `num / 65536`.
pub fn drift_by(v: u16, bit: bool, num: i64) -> (r: u16)
    requires
        0 <= num < 65536,
    ensures
        r == drift(v as int, bit, num as int, 65536),
{
    let t: i64 = if bit {
        65536
    } else {
        0
    };
    let d: i64 = t - v as i64;
    proof {
        assert(-65536 * 65536 <= d * num <= 65536 * 65536) by (nonlinear_arith)
            requires
                -65536 <= d <= 65536,
                0 <= num < 65536,
        ;
        lemma_drift_range(v as int, bit, num as int, 65536);
    }
    let m: i64 = d * num;
    assert(m >> 16 == (m as int) / 65536) by (bit_vector);
    (v as i64 + (m >> 16)) as u16
}

/// The next visit count.
pub fn count_up(cnt: u16) -> (r: u16)
    ensures
        r == counted(cnt),
{
    if cnt < CNT_MAX {
        cnt + 1
    } else {
        cnt
    }
}

/// The learning rate of a context seen `cnt` times.
pub fn rate_of(cnt: u16) -> (r: i64)
    ensures
        r == rate(cnt as int),
        0 <= r < 65536,
{
    let n: i64 = cnt as i64 + 2;
    assert(0 <= 65536int / (n as int) < 65536) by (nonlinear_arith)
        requires
            n >= 2,
    ;
    65536 / n
}

/// A dual-rate bit counter: a fast, reactive and a slow, converging estimate of
/// `P(bit == 1)`, with the visit count that drives the slow one's rate.
#[derive(Clone, Copy)]
pub struct DualCounter {
    pub fast: u16,
    pub slow: u16,
    pub cnt: u16,
}

impl DualCounter {
    /// A counter that has seen nothing.
    pub open spec fn fresh() -> DualCounter {
        DualCounter { fast: 32768, slow: 32768, cnt: 0 }
    }

    /// The counter after observing `bit`.
    pub open spec fn after(self, bit: bool) -> DualCounter {
        DualCounter {
            fast: drift(self.fast as int, bit, 8192, 65536) as u16,
            slow: drift(self.slow as int, bit, rate(self.cnt as int), 65536) as u16,
            cnt: counted(self.cnt),
        }
    }

    /// A counter that has seen nothing.
    pub fn new() -> (c: DualCounter)
        ensures
            c == DualCounter::fresh(),
    {
        DualCounter { fast: 32768, slow: 32768, cnt: 0 }
    }

    /// Observe one bit.
    pub fn update(&mut self, bit: bool)
        ensures
            *final(self) == old(self).after(bit),
    {
        self.fast = drift_by(self.fast, bit, 8192);
        let r = rate_of(self.cnt);
        self.slow = drift_by(self.slow, bit, r);
        self.cnt = count_up(self.cnt);
    }
}

} // verus!
