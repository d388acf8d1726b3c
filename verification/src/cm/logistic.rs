//! The logistic transfer functions the mixer works in.
//!
//! `squash(d)` is `4096 / (1 + e^(-d/256))` and `stretch(p)` its inverse
//! `256 * ln(p / (4096 - p))`, both rounded to the nearest integer. Everything is
//! derived from the powers of `e^(1/512)` in fixed point, so the tables are the
//! same on every machine.
use vstd::arithmetic::power::*;
use vstd::arithmetic::power2::*;
use vstd::prelude::*;

verus! {

/// One in the fixed-point format of [`growth`]: 46 fractional bits.
pub const ONE: u64 = 70368744177664;

/// `e^(1/512)` in the fixed-point format of [`growth`].
pub const STEP: u64 = 70506317436288;

/// `e^(k/512)` in fixed point, truncated after every multiplication.
pub open spec fn growth(k: nat) -> nat
    decreases k,
{
    if k == 0 {
        ONE as nat
    } else {
        growth((k - 1) as nat) * (STEP as nat) / (ONE as nat)
    }
}

/// `v` limited to the range `lo ..= hi`.
pub open spec fn clamp(v: int, lo: int, hi: int) -> int {
    if v < lo {
        lo
    } else if v > hi {
        hi
    } else {
        v
    }
}

/// The logistic function of a clamped argument, rounded, in 12 bits.
pub open spec fn squash(d: int) -> int {
    let x = clamp(d, -2047, 2047);
    let e = growth((2 * if x < 0 { -x } else { x }) as nat);
    let top = if x < 0 { ONE as int } else { e as int };
    clamp((8192 * top + (e + ONE)) / (2 * (e + ONE)), 1, 4095)
}

/// `p / (4096 - p)` is at least `e^((2j - 1) / 512)`, that is, `256 * ln` of it
/// rounds to `j` or more.
pub open spec fn reaches(p: int, j: nat) -> bool {
    (4096 - p) * growth((2 * j - 1) as nat) <= p * ONE
}

/// The greatest `j` up to `cap` that `p` reaches, or 0.
pub open spec fn steps(p: int, cap: nat) -> nat
    decreases cap,
{
    if cap == 0 {
        0
    } else if reaches(p, cap) {
        cap
    } else {
        steps(p, (cap - 1) as nat)
    }
}

/// The inverse of the logistic function at a 12-bit probability, rounded.
pub open spec fn stretch(p: int) -> int {
    let q = clamp(p, 1, 4095);
    if q >= 2048 {
        steps(q, 2047) as int
    } else {
        -(steps(4096 - q, 2047) as int)
    }
}

/// Results of `squash` are codable probabilities.
pub proof fn lemma_squash_range(d: int)
    ensures
        1 <= squash(d) <= 4095,
{
}

proof fn lemma_steps_range(p: int, cap: nat)
    ensures
        steps(p, cap) <= cap,
    decreases cap,
{
    if cap > 0 && !reaches(p, cap) {
        lemma_steps_range(p, (cap - 1) as nat);
    }
}

/// Results of `stretch` stay inside the domain `squash` distinguishes.
pub proof fn lemma_stretch_range(p: int)
    ensures
        -2047 <= stretch(p) <= 2047,
{
    let q = clamp(p, 1, 4095);
    lemma_steps_range(q, 2047);
    lemma_steps_range(4096 - q, 2047);
}

/// The powers never decrease.
proof fn lemma_growth_step(k: nat)
    ensures
        growth(k) <= growth(k + 1),
        growth(k) >= ONE,
    decreases k,
{
    if k > 0 {
        lemma_growth_step((k - 1) as nat);
    }
    let g = growth(k) as int;
    assert(g <= g * (STEP as int) / (ONE as int)) by (nonlinear_arith)
        requires
            g >= 0,
            STEP >= ONE,
            ONE > 0,
    ;
}

/// `250` steps at most double the power.
proof fn lemma_growth_run(k: nat, j: nat)
    requires
        j <= 250,
    ensures
        growth(k + j) * (500 - j) <= 500 * growth(k),
    decreases j,
{
    if j > 0 {
        let i = (j - 1) as nat;
        lemma_growth_run(k, i);
        let g = growth(k + i) as int;
        assert(growth(k + j) == g * (STEP as int) / (ONE as int));
        assert((g * (STEP as int) / (ONE as int)) * (500 - j) <= g * (501 - j)) by (nonlinear_arith)
            requires
                g >= 0,
                1 <= j <= 250,
                ONE == 70368744177664,
                STEP == 70506317436288,
        ;
        assert(501 - j == 500 - i);
        assert(growth(k + j) * (500 - j) <= g * (500 - i));
    } else {
        assert(growth(k + j) * 500 == 500 * growth(k)) by (nonlinear_arith)
            requires
                j == 0,
        ;
    }
}

proof fn lemma_growth_blocks(b: nat)
    ensures
        growth(250 * b) <= ONE * pow2(b),
    decreases b,
{
    reveal(pow2);
    reveal(pow);
    if b > 0 {
        let a = (b - 1) as nat;
        lemma_growth_blocks(a);
        lemma_growth_run(250 * a, 250);
        lemma_pow2_unfold(b);
        assert(250 * a + 250 == 250 * b);
        assert(ONE * (2 * pow2(a)) == 2 * (ONE * pow2(a))) by (nonlinear_arith);
    } else {
        lemma2_to64();
    }
}

proof fn lemma_growth_mono(i: nat, j: nat)
    requires
        i <= j,
    ensures
        growth(i) <= growth(j),
    decreases j - i,
{
    if i < j {
        lemma_growth_mono(i, (j - 1) as nat);
        lemma_growth_step((j - 1) as nat);
    }
}

/// Every power the tables need fits 64 bits.
proof fn lemma_growth_fits(k: nat)
    requires
        k <= 4250,
    ensures
        ONE <= growth(k) <= 0x8000_0000_0000_0000,
{
    lemma_growth_blocks(17);
    lemma_growth_mono(k, 4250);
    lemma_growth_step(k);
    lemma2_to64();
}

/// Reaching `j` implies reaching everything below it, and a larger probability
/// reaches at least as far.
proof fn lemma_reaches_mono(p: int, q: int, i: nat, j: nat)
    requires
        2048 <= p <= q <= 4095,
        1 <= i <= j,
        reaches(p, j),
    ensures
        reaches(q, i),
{
    lemma_growth_mono((2 * i - 1) as nat, (2 * j - 1) as nat);
    let a = growth((2 * i - 1) as nat) as int;
    let b = growth((2 * j - 1) as nat) as int;
    assert((4096 - q) * a <= (4096 - p) * b) by (nonlinear_arith)
        requires
            0 <= a <= b,
            p <= q <= 4095,
    ;
    assert(p * ONE <= q * ONE) by (nonlinear_arith)
        requires
            p <= q,
            ONE > 0,
    ;
}

/// A step count that is reached and cannot be exceeded is the greatest one.
proof fn lemma_steps_is(p: int, d: nat, cap: nat)
    requires
        2048 <= p <= 4095,
        d <= cap,
        d > 0 ==> reaches(p, d),
        d < cap ==> !reaches(p, d + 1),
    ensures
        steps(p, cap) == d,
    decreases cap,
{
    if cap > d {
        if reaches(p, cap) {
            lemma_reaches_mono(p, p, d + 1, cap);
        }
        if cap > d + 1 || d + 1 == cap {
            lemma_steps_is(p, d, (cap - 1) as nat);
        }
    }
}

// ---------------------------------------------------------------------------
// Laws
// ---------------------------------------------------------------------------

/// Every step adds at least what the first one does.
proof fn lemma_growth_linear(k: nat)
    ensures
        growth(k) >= ONE + k * 137573258623,
    decreases k,
{
    if k > 0 {
        let g = growth((k - 1) as nat) as int;
        lemma_growth_linear((k - 1) as nat);
        lemma_growth_step((k - 1) as nat);
        assert(g * (STEP as int) / (ONE as int) >= g + 137573258623) by (nonlinear_arith)
            requires
                g >= ONE,
                ONE == 70368744177664,
                STEP == 70506317436288,
        ;
    }
}

/// The logistic function keeps sides: positive arguments give probabilities of at least
/// a half, negative ones of at most a half, and 0 exactly a half.
pub proof fn squash_keeps_sides(d: int)
    ensures
        d >= 0 ==> squash(d) >= 2048,
        d <= 0 ==> squash(d) <= 2048,
        d >= 128 ==> squash(d) >= 2457,
        d <= -128 ==> squash(d) <= 1639,
{
    let x = clamp(d, -2047, 2047);
    let k = (2 * if x < 0 { -x } else { x }) as nat;
    let e = growth(k) as int;
    lemma_growth_linear(k);
    let one = ONE as int;
    if x >= 0 {
        let v = (8192 * e + (e + one)) / (2 * (e + one));
        assert(v >= 2048) by (nonlinear_arith)
            requires
                e >= one,
                one > 0,
                v == (8192 * e + (e + one)) / (2 * (e + one)),
        ;
        if x == 0 {
            assert(e == one);
            assert(v == 2048) by (nonlinear_arith)
                requires
                    e == one,
                    one > 0,
                    v == (8192 * e + (e + one)) / (2 * (e + one)),
            ;
        }
        if x >= 128 {
            assert(v >= 2457) by (nonlinear_arith)
                requires
                    2 * e >= 3 * one,
                    one > 0,
                    v == (8192 * e + (e + one)) / (2 * (e + one)),
            ;
        }
    } else {
        let v = (8192 * one + (e + one)) / (2 * (e + one));
        assert(v <= 2048) by (nonlinear_arith)
            requires
                e >= one,
                one > 0,
                v == (8192 * one + (e + one)) / (2 * (e + one)),
        ;
        if x <= -128 {
            assert(v <= 1639) by (nonlinear_arith)
                requires
                    2 * e >= 3 * one,
                    one > 0,
                    v == (8192 * one + (e + one)) / (2 * (e + one)),
            ;
        }
    }
}

proof fn lemma_steps_reached(p: int, cap: nat)
    ensures
        steps(p, cap) > 0 ==> reaches(p, steps(p, cap)),
    decreases cap,
{
    if cap > 0 && !reaches(p, cap) {
        lemma_steps_reached(p, (cap - 1) as nat);
    }
}

/// How far `p` must be from a half to get that far.
proof fn lemma_steps_far(p: int)
    requires
        2048 <= p <= 4095,
    ensures
        p == 2048 ==> steps(p, 2047) == 0,
        steps(p, 2047) >= 64 ==> p >= 2270,
{
    let d = steps(p, 2047);
    lemma_steps_reached(p, 2047);
    if d > 0 {
        lemma_growth_linear(1);
        lemma_reaches_mono(p, p, 1, d);
        if p == 2048 {
            assert((2 * 1 - 1) as nat == 1);
            assert(2048 * growth(1) <= 2048 * ONE);
        }
    }
    if d >= 64 {
        lemma_reaches_mono(p, p, 64, d);
        lemma_growth_linear(127);
        let g = growth(127) as int;
        assert((4096 - p) * g <= p * ONE);
        assert(p >= 2270) by (nonlinear_arith)
            requires
                (4096 - p) * g <= p * 70368744177664,
                g >= 70368744177664 + 127 * 137573258623,
                p <= 4095,
        ;
    }
}

/// The inverse keeps sides too, and only what is clearly off a half gets far.
pub proof fn stretch_keeps_sides(p: int)
    ensures
        p >= 2048 ==> stretch(p) >= 0,
        p <= 2048 ==> stretch(p) <= 0,
        stretch(p) >= 64 ==> p >= 2270,
        stretch(p) <= -64 ==> p <= 1826,
{
    let q = clamp(p, 1, 4095);
    if q >= 2048 {
        lemma_steps_far(q);
    } else {
        lemma_steps_far(4096 - q);
    }
}

proof fn lemma_one_step(p: int, cap: nat)
    requires
        reaches(p, 1),
        cap >= 1,
    ensures
        steps(p, cap) >= 1,
    decreases cap,
{
    if cap > 1 && !reaches(p, cap) {
        lemma_one_step(p, (cap - 1) as nat);
    }
}

/// What is off a half by more than eight 4096ths has a say.
pub proof fn stretch_decides(p: int)
    ensures
        p >= 2056 ==> stretch(p) > 0,
        p <= 2040 ==> stretch(p) < 0,
        stretch(2048) == 0,
{
    assert((2 * 1 - 1) as nat == 1);
    assert(growth(1) == growth(0) * (STEP as nat) / (ONE as nat));
    assert(growth(0) == ONE);
    let q = clamp(p, 1, 4095);
    if p >= 2056 {
        assert(reaches(q, 1)) by {
            assert((4096 - q) * (STEP as int) <= q * ONE);
        }
        lemma_one_step(q, 2047);
    }
    if p <= 2040 {
        assert(reaches(4096 - q, 1)) by {
            assert(q * (STEP as int) <= (4096 - q) * ONE);
        }
        lemma_one_step(4096 - q, 2047);
    }
    stretch_keeps_sides(2048);
}

/// Tables of both transfer functions.
pub struct Logistic {
    squash: Vec<i16>,
    stretch: Vec<i16>,
}

impl Logistic {
    /// The tables hold the functions they are named after.
    #[verifier::type_invariant]
    spec fn inv(self) -> bool {
        &&& self.squash@.len() == 4095
        &&& self.stretch@.len() == 4096
        &&& forall|i: int| 0 <= i < 4095 ==> #[trigger] self.squash@[i] == squash(i - 2047)
        &&& forall|i: int| 0 <= i < 4096 ==> #[trigger] self.stretch@[i] == stretch(i)
    }

    /// The logistic function of every argument from -2047 on.
    pub closed spec fn squashed(self) -> Seq<i16> {
        self.squash@
    }

    /// The inverse of the logistic function at every 12-bit probability.
    pub closed spec fn stretched(self) -> Seq<i16> {
        self.stretch@
    }

    /// Build both tables.
    pub fn new() -> (r: Self)
        ensures
            r.squashed() == Seq::new(4095, |i: int| squash(i - 2047) as i16),
            r.stretched() == Seq::new(4096, |i: int| stretch(i) as i16),
    {
        let mut grow: Vec<u64> = Vec::new();
        grow.push(ONE);
        let mut k: usize = 1;
        while k < 4095
            invariant
                1 <= k <= 4095,
                grow@.len() == k,
                forall|i: int| 0 <= i < k ==> #[trigger] grow@[i] == growth(i as nat),
            decreases 4095 - k,
        {
            let g: u64 = grow[k - 1];
            proof {
                lemma_growth_fits((k - 1) as nat);
                lemma_growth_fits(k as nat);
                assert(g * STEP <= u128::MAX) by (nonlinear_arith)
                    requires
                        g <= 0x8000_0000_0000_0000,
                        STEP == 70506317436288,
                ;
            }
            let next: u128 = (g as u128) * (STEP as u128) / (ONE as u128);
            grow.push(next as u64);
            k = k + 1;
        }
        let forth = Self::squash_table(&grow);
        let back = Self::stretch_table(&grow);
        assert(forth@ =~= Seq::new(4095, |i: int| squash(i - 2047) as i16));
        assert(back@ =~= Seq::new(4096, |i: int| stretch(i) as i16));
        Logistic { squash: forth, stretch: back }
    }

    fn squash_table(grow: &Vec<u64>) -> (t: Vec<i16>)
        requires
            grow@.len() == 4095,
            forall|i: int| 0 <= i < 4095 ==> #[trigger] grow@[i] == growth(i as nat),
        ensures
            t@.len() == 4095,
            forall|i: int| 0 <= i < 4095 ==> #[trigger] t@[i] == squash(i - 2047),
    {
        let mut t: Vec<i16> = Vec::new();
        let mut i: usize = 0;
        while i < 4095
            invariant
                i <= 4095,
                t@.len() == i,
                grow@.len() == 4095,
                forall|j: int| 0 <= j < 4095 ==> #[trigger] grow@[j] == growth(j as nat),
                forall|j: int| 0 <= j < i ==> #[trigger] t@[j] == squash(j - 2047),
            decreases 4095 - i,
        {
            let neg = i < 2047;
            let k: usize = if neg {
                2 * (2047 - i)
            } else {
                2 * (i - 2047)
            };
            let e: u128 = grow[k] as u128;
            proof {
                lemma_growth_fits(k as nat);
                lemma_squash_range(i - 2047);
            }
            let one: u128 = ONE as u128;
            let top: u128 = if neg {
                one
            } else {
                e
            };
            let v: u128 = (8192 * top + (e + one)) / (2 * (e + one));
            let c: u128 = if v < 1 {
                1
            } else if v > 4095 {
                4095
            } else {
                v
            };
            t.push(c as i16);
            i = i + 1;
        }
        t
    }

    /// Whether `p / (4096 - p)` is at least the fixed-point number `g`.
    fn odds_reach(p: u64, g: u64) -> (r: bool)
        requires
            p <= 4095,
        ensures
            r == ((4096 - p) * g <= p * ONE),
    {
        let rest: u64 = 4096 - p;
        assert(rest * g <= 4096 * 0xffff_ffff_ffff_ffff) by (nonlinear_arith)
            requires
                rest <= 4096,
                0 <= g <= 0xffff_ffff_ffff_ffff,
        ;
        assert(p * ONE <= 4095 * 70368744177664) by (nonlinear_arith)
            requires
                p <= 4095,
                ONE == 70368744177664,
        ;
        (rest as u128) * (g as u128) <= (p as u128) * (ONE as u128)
    }

    fn stretch_table(grow: &Vec<u64>) -> (t: Vec<i16>)
        requires
            grow@.len() == 4095,
            forall|i: int| 0 <= i < 4095 ==> #[trigger] grow@[i] == growth(i as nat),
        ensures
            t@.len() == 4096,
            forall|i: int| 0 <= i < 4096 ==> #[trigger] t@[i] == stretch(i),
    {
        // Upper half first: `up[i]` belongs to probability `2048 + i`.
        let mut up: Vec<i16> = Vec::new();
        let mut d: usize = 0;
        let mut i: usize = 0;
        while i < 2048
            invariant
                i <= 2048,
                d <= 2047,
                up@.len() == i,
                grow@.len() == 4095,
                forall|j: int| 0 <= j < 4095 ==> #[trigger] grow@[j] == growth(j as nat),
                forall|j: int| 0 <= j < i ==> #[trigger] up@[j] == steps(2048 + j, 2047),
                d > 0 ==> i > 0 && reaches(2048 + i - 1, d as nat),
            decreases 2048 - i,
        {
            let p: u64 = 2048 + i as u64;
            proof {
                if d > 0 {
                    lemma_reaches_mono(2048 + i - 1, 2048 + i, d as nat, d as nat);
                }
            }
            while d < 2047 && Self::odds_reach(p, grow[2 * d + 1])
                invariant
                    i < 2048,
                    p == 2048 + i,
                    d <= 2047,
                    grow@.len() == 4095,
                    forall|j: int| 0 <= j < 4095 ==> #[trigger] grow@[j] == growth(j as nat),
                    d > 0 ==> reaches(2048 + i, d as nat),
                ensures
                    d < 2047 ==> !reaches(2048 + i, (d + 1) as nat),
                decreases 2047 - d,
            {
                d = d + 1;
            }
            proof {
                lemma_steps_is(2048 + i, d as nat, 2047);
            }
            up.push(d as i16);
            i = i + 1;
        }
        let mut t: Vec<i16> = Vec::new();
        t.push(-up[2047]);
        let mut q: usize = 1;
        while q < 4096
            invariant
                1 <= q <= 4096,
                t@.len() == q,
                up@.len() == 2048,
                forall|j: int| 0 <= j < 2048 ==> #[trigger] up@[j] == steps(2048 + j, 2047),
                forall|j: int| 0 <= j < q ==> #[trigger] t@[j] == stretch(j),
            decreases 4096 - q,
        {
            proof {
                lemma_steps_range(q as int, 2047);
                lemma_steps_range(4096 - q, 2047);
            }
            if q >= 2048 {
                t.push(up[q - 2048]);
            } else {
                t.push(-up[2048 - q]);
            }
            q = q + 1;
        }
        t
    }

    /// The logistic function, in 12 bits.
    pub fn squash(&self, d: i32) -> (p: i32)
        ensures
            p == squash(d as int),
            1 <= p <= 4095,
    {
        proof {
            use_type_invariant(self);
            lemma_squash_range(d as int);
        }
        let x: i32 = if d < -2047 {
            -2047
        } else if d > 2047 {
            2047
        } else {
            d
        };
        let i: usize = (x + 2047) as usize;
        assert(self.squash@[i as int] == squash(i - 2047));
        self.squash[i] as i32
    }

    /// The inverse of the logistic function at a 12-bit probability.
    pub fn stretch(&self, p: i32) -> (d: i32)
        ensures
            d == stretch(p as int),
            -2047 <= d <= 2047,
    {
        proof {
            use_type_invariant(self);
            lemma_stretch_range(p as int);
        }
        let q: i32 = if p < 0 {
            0
        } else if p > 4095 {
            4095
        } else {
            p
        };
        assert(self.stretch@[q as int] == stretch(q as int));
        self.stretch[q as usize] as i32
    }
}

} // verus!
