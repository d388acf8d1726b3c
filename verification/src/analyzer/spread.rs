//! How the number of different byte values bounds the entropy.
use vstd::arithmetic::power2::*;
use vstd::prelude::*;
use crate::analyzer::entropy;
use crate::analyzer::entropy::BIT;
use crate::cm::sizing;

verus! {

/// How many byte values below `b` occur.
pub open spec fn kinds(data: Seq<u8>, b: int) -> nat
    decreases b,
{
    if b <= 0 {
        0
    } else {
        kinds(data, b - 1) + if entropy::count(data, b - 1) > 0 { 1nat } else { 0nat }
    }
}

/// `x` to the eighth power.
spec fn eighth(x: int) -> int {
    (x * x * (x * x)) * (x * x * (x * x))
}

proof fn lemma_eighth_product(a: int, b: int)
    ensures
        eighth(a * b) == eighth(a) * eighth(b),
{
    assert((a * b) * (a * b) == (a * a) * (b * b)) by (nonlinear_arith);
    let (x, y) = (a * a, b * b);
    assert((x * y) * (x * y) == (x * x) * (y * y)) by (nonlinear_arith);
    let (u, v) = (x * x, y * y);
    assert((u * v) * (u * v) == (u * u) * (v * v)) by (nonlinear_arith);
}

proof fn lemma_square_order(a: int, b: int)
    by (nonlinear_arith)
    requires
        0 <= a <= b,
    ensures
        0 <= a * a <= b * b,
{
}

proof fn lemma_eighth_order(a: int, b: int)
    requires
        0 <= a <= b,
    ensures
        0 <= eighth(a) <= eighth(b),
{
    lemma_square_order(a, b);
    lemma_square_order(a * a, b * b);
    lemma_square_order(a * a * (a * a), b * b * (b * b));
}

// ---------------------------------------------------------------------------
// The logarithm in eighths of a bit
// ---------------------------------------------------------------------------

proof fn lemma_fraction_range(m: nat, j: nat, acc: nat)
    ensures
        acc * pow2(j) <= entropy::fraction(m, j, acc) < (acc + 1) * pow2(j),
    decreases j,
{
    if j == 0 {
        lemma2_to64();
    } else {
        let i = (j - 1) as nat;
        let q = m * m / 0x8000_0000;
        lemma_pow2_unfold(j);
        let p = pow2(i);
        if q >= 0x1_0000_0000 {
            lemma_fraction_range(q / 2, i, 2 * acc + 1);
            assert((2 * acc + 1) * p >= acc * (2 * p) && (2 * acc + 2) * p == (acc + 1) * (2 * p))
                by (nonlinear_arith);
        } else {
            lemma_fraction_range(q, i, 2 * acc);
            assert(2 * acc * p == acc * (2 * p) && (2 * acc + 1) * p <= (acc + 1) * (2 * p))
                by (nonlinear_arith);
        }
    }
}

/// One squaring: the bit it yields, as a factor of 1 or 2, and what is left.
spec fn squared(m: nat) -> (int, nat) {
    let q = m * m / 0x8000_0000;
    if q >= 0x1_0000_0000 {
        (2int, q / 2)
    } else {
        (1int, q)
    }
}

proof fn lemma_squared(m: nat)
    requires
        0x8000_0000 <= m < 0x1_0000_0000,
    ensures
        ({
            let (f, r) = squared(m);
            &&& 0x8000_0000 <= r < 0x1_0000_0000
            &&& f == 1 || f == 2
            &&& m * m >= 0x8000_0000 * f * r
            &&& (m + 1) * (m + 1) * 100 <= 101 * (0x8000_0000 * f * (r + 1))
        }),
{
    let s = (m * m) as int;
    assert(0x8000_0000 * 0x8000_0000 <= s <= 0xffff_ffff * 0xffff_ffff) by (nonlinear_arith)
        requires
            s == m * m,
            0x8000_0000 <= m <= 0xffff_ffff,
    ;
    assert((m + 1) * (m + 1) == s + 2 * m + 1) by (nonlinear_arith)
        requires
            s == m * m,
    ;
    assert(100 * (2 * m + 1) <= s) by (nonlinear_arith)
        requires
            s == m * m,
            m >= 0x8000_0000,
    ;
    let (f, r) = squared(m);
    let q = s / 0x8000_0000;
    assert(0x8000_0000 * q <= s < 0x8000_0000 * (q + 1));
    if q >= 0x1_0000_0000 {
        assert(f == 2 && r == q / 2);
        assert(0x8000_0000 * f * r == 0x1_0000_0000 * r) by (nonlinear_arith)
            requires
                f == 2,
        ;
        assert(0x8000_0000 * f * (r + 1) == 0x1_0000_0000 * (r + 1)) by (nonlinear_arith)
            requires
                f == 2,
        ;
    } else {
        assert(f == 1 && r == q);
        assert(0x8000_0000 * f * r == 0x8000_0000 * r) by (nonlinear_arith)
            requires
                f == 1,
        ;
        assert(0x8000_0000 * f * (r + 1) == 0x8000_0000 * (r + 1)) by (nonlinear_arith)
            requires
                f == 1,
        ;
    }
}

proof fn lemma_floor_power(c: nat)
    requires
        c >= 1,
    ensures
        entropy::floor_power(c) == pow2((sizing::digits(c) - 1) as nat),
        entropy::floor_power(c) <= c < 2 * entropy::floor_power(c),
        sizing::digits(c) >= 1,
    decreases c,
{
    if c >= 2 {
        lemma_floor_power(c / 2);
        lemma_pow2_unfold((sizing::digits(c) - 1) as nat);
    } else {
        lemma2_to64();
    }
}

proof fn lemma_powers_low(m0: int, m1: int, m2: int, m3: int, f1: int, f2: int, f3: int, k: int)
    requires
        k > 0,
        m0 >= 0,
        m1 >= 0,
        m2 >= 0,
        m3 >= k,
        1 <= f1,
        1 <= f2,
        1 <= f3,
        m0 * m0 >= k * f1 * m1,
        m1 * m1 >= k * f2 * m2,
        m2 * m2 >= k * f3 * m3,
    ensures
        eighth(m0) >= eighth(k) * (f1 * f1 * (f1 * f1) * (f2 * f2) * f3),
{
    let (a, b, c) = (k * f1, k * f2, k * f3);
    assert(a >= 0 && b >= 0 && c >= 0) by (nonlinear_arith)
        requires
            k > 0,
            f1 >= 1,
            f2 >= 1,
            f3 >= 1,
            a == k * f1,
            b == k * f2,
            c == k * f3,
    ;
    assert(a * m1 >= 0 && b * m2 >= 0) by (nonlinear_arith)
        requires
            a >= 0,
            b >= 0,
            m1 >= 0,
            m2 >= 0,
    ;
    // Fourth powers.
    lemma_square_order(a * m1, m0 * m0);
    lemma_square_order(b * m2, m1 * m1);
    let (aa, bb) = (a * a, b * b);
    assert((a * m1) * (a * m1) == aa * (m1 * m1)) by (nonlinear_arith)
        requires
            aa == a * a,
    ;
    assert((b * m2) * (b * m2) == bb * (m2 * m2)) by (nonlinear_arith)
        requires
            bb == b * b,
    ;
    assert(aa >= 0 && bb >= 0) by (nonlinear_arith)
        requires
            aa == a * a,
            bb == b * b,
    ;
    assert(aa * (m1 * m1) >= 0) by (nonlinear_arith)
        requires
            aa >= 0,
    ;
    // Eighth powers.
    let (q0, q1) = (m0 * m0 * (m0 * m0), m1 * m1 * (m1 * m1));
    lemma_square_order(aa * (m1 * m1), q0);
    let a4 = aa * aa;
    assert((aa * (m1 * m1)) * (aa * (m1 * m1)) == a4 * q1) by (nonlinear_arith)
        requires
            a4 == aa * aa,
            q1 == m1 * m1 * (m1 * m1),
    ;
    assert(m2 * m2 >= c * k) by (nonlinear_arith)
        requires
            m2 * m2 >= c * m3,
            m3 >= k,
            c >= 0,
    ;
    assert(bb * (m2 * m2) >= bb * (c * k)) by (nonlinear_arith)
        requires
            bb >= 0,
            m2 * m2 >= c * k,
    ;
    assert(a4 >= 0) by (nonlinear_arith)
        requires
            a4 == aa * aa,
    ;
    assert(a4 * q1 >= a4 * (bb * (c * k))) by (nonlinear_arith)
        requires
            a4 >= 0,
            q1 >= bb * (c * k),
    ;
    let (g1, g2) = (f1 * f1 * (f1 * f1), f2 * f2);
    let (k2, k4) = (k * k, k * k * (k * k));
    assert(aa == k2 * (f1 * f1)) by (nonlinear_arith)
        requires
            aa == a * a,
            a == k * f1,
            k2 == k * k,
    ;
    assert(a4 == k4 * g1) by (nonlinear_arith)
        requires
            a4 == aa * aa,
            aa == k2 * (f1 * f1),
            k4 == k2 * k2,
            g1 == f1 * f1 * (f1 * f1),
    ;
    assert(bb * (c * k) == k4 * (g2 * f3)) by (nonlinear_arith)
        requires
            bb == b * b,
            b == k * f2,
            c == k * f3,
            k4 == k * k * (k * k),
            g2 == f2 * f2,
    ;
    assert(a4 * (bb * (c * k)) == (k4 * k4) * (g1 * g2 * f3)) by (nonlinear_arith)
        requires
            a4 == k4 * g1,
            bb * (c * k) == k4 * (g2 * f3),
    ;
}

/// The logarithm of `c` in eighths of a bit tells its eighth power up to a factor of 4.
proof fn lemma_eighths(c: nat) -> (g: nat)
    requires
        c >= 1,
    ensures
        g * 0x2_0000 <= entropy::lg(c) < (g + 1) * 0x2_0000,
        pow2(g) <= eighth(c as int) < 4 * pow2(g),
{
    let e = (sizing::digits(c) - 1) as nat;
    let p = entropy::floor_power(c);
    lemma_floor_power(c);
    let k = 0x8000_0000int;
    let m0 = entropy::mantissa(c);
    assert(m0 * p <= c * k < (m0 + 1) * p && k <= m0 < 2 * k) by (nonlinear_arith)
        requires
            m0 == c * 0x8000_0000 / p,
            k == 0x8000_0000,
            p >= 1,
            p <= c < 2 * p,
    ;
    let (f1, m1) = squared(m0);
    lemma_squared(m0);
    let (f2, m2) = squared(m1);
    lemma_squared(m1);
    let (f3, m3) = squared(m2);
    lemma_squared(m2);
    let a1 = f1 - 1;
    let a2 = 2 * a1 + (f2 - 1);
    let a3 = 2 * a2 + (f3 - 1);
    assert(entropy::fraction(m0, 20, 0) == entropy::fraction(m1, 19, a1 as nat));
    assert(entropy::fraction(m1, 19, a1 as nat) == entropy::fraction(m2, 18, a2 as nat));
    assert(entropy::fraction(m2, 18, a2 as nat) == entropy::fraction(m3, 17, a3 as nat));
    lemma2_to64();
    lemma_fraction_range(m3, 17, a3 as nat);
    let g = (8 * e + a3) as nat;
    let f = f1 * f1 * (f1 * f1) * (f2 * f2) * f3;
    assert(f == pow2(a3 as nat)) by {
        assert(f1 == 1 || f1 == 2);
        assert(f2 == 1 || f2 == 2);
        assert(f3 == 1 || f3 == 2);
        if f1 == 1 {
            if f2 == 1 {
                assert(f == f3) by (nonlinear_arith)
                    requires
                        f == f1 * f1 * (f1 * f1) * (f2 * f2) * f3,
                        f1 == 1,
                        f2 == 1,
                ;
            } else {
                assert(f == 4 * f3) by (nonlinear_arith)
                    requires
                        f == f1 * f1 * (f1 * f1) * (f2 * f2) * f3,
                        f1 == 1,
                        f2 == 2,
                ;
            }
        } else {
            if f2 == 1 {
                assert(f == 16 * f3) by (nonlinear_arith)
                    requires
                        f == f1 * f1 * (f1 * f1) * (f2 * f2) * f3,
                        f1 == 2,
                        f2 == 1,
                ;
            } else {
                assert(f == 64 * f3) by (nonlinear_arith)
                    requires
                        f == f1 * f1 * (f1 * f1) * (f2 * f2) * f3,
                        f1 == 2,
                        f2 == 2,
                ;
            }
        }
    }
    lemma_powers_low(m0 as int, m1 as int, m2 as int, m3 as int, f1, f2, f3, k);
    lemma_powers_high(
        m0 as int + 1,
        m1 as int + 1,
        m2 as int + 1,
        m3 as int + 1,
        f1,
        f2,
        f3,
        k,
    );
    lemma_back(c as int, p as int, m0 as int, f, k);
    assert(eighth(p as int) == pow2(8 * e)) by {
        lemma_pow2_adds(e, e);
        lemma_pow2_adds(2 * e, 2 * e);
        lemma_pow2_adds(4 * e, 4 * e);
    }
    lemma_pow2_adds(8 * e, a3 as nat);
    assert(f * eighth(p as int) == pow2(g)) by (nonlinear_arith)
        requires
            f == pow2(a3 as nat),
            eighth(p as int) == pow2(8 * e),
            pow2(8 * e) * pow2(a3 as nat) == pow2(g),
    ;
    g
}

proof fn lemma_powers_high(m0: int, m1: int, m2: int, m3: int, f1: int, f2: int, f3: int, k: int)
    requires
        k > 0,
        m0 >= 0,
        m1 >= 0,
        m2 >= 0,
        0 <= m3 <= 2 * k,
        1 <= f1,
        1 <= f2,
        1 <= f3,
        m0 * m0 * 100 <= 101 * (k * f1 * m1),
        m1 * m1 * 100 <= 101 * (k * f2 * m2),
        m2 * m2 * 100 <= 101 * (k * f3 * m3),
    ensures
        eighth(m0) <= 3 * (eighth(k) * (f1 * f1 * (f1 * f1) * (f2 * f2) * f3)),
{
    let (x0, x1, x2) = (m0 * m0, m1 * m1, m2 * m2);
    let (a, b, c) = (k * f1, k * f2, k * f3);
    assert(a >= 0 && b >= 0 && c >= 0 && x0 >= 0 && x1 >= 0 && x2 >= 0) by (nonlinear_arith)
        requires
            k > 0,
            f1 >= 1,
            f2 >= 1,
            f3 >= 1,
            a == k * f1,
            b == k * f2,
            c == k * f3,
            x0 == m0 * m0,
            x1 == m1 * m1,
            x2 == m2 * m2,
    ;
    // x2 * 100 <= 202 * c * k
    assert(x2 * 100 <= 202 * (c * k)) by (nonlinear_arith)
        requires
            x2 * 100 <= 101 * (c * m3),
            m3 <= 2 * k,
            c >= 0,
    ;
    lemma_square_order(x1 * 100, 101 * (b * m2));
    let bb = b * b;
    assert((x1 * 100) * (x1 * 100) == 10000 * (x1 * x1)) by (nonlinear_arith);
    assert((101 * (b * m2)) * (101 * (b * m2)) == 10201 * (bb * x2)) by (nonlinear_arith)
        requires
            bb == b * b,
            x2 == m2 * m2,
    ;
    assert(bb >= 0) by (nonlinear_arith)
        requires
            bb == b * b,
    ;
    assert(bb * x2 * 100 <= 202 * (bb * (c * k))) by (nonlinear_arith)
        requires
            bb >= 0,
            x2 * 100 <= 202 * (c * k),
    ;
    let t = bb * (c * k);
    // 10000 * 100 * x1^2 <= 10201 * 202 * t, so x1^2 <= 2.0607 t
    assert(1000000 * (x1 * x1) <= 2060602 * t);
    lemma_square_order(x0 * 100, 101 * (a * m1));
    let aa = a * a;
    assert((x0 * 100) * (x0 * 100) == 10000 * (x0 * x0)) by (nonlinear_arith);
    assert((101 * (a * m1)) * (101 * (a * m1)) == 10201 * (aa * x1)) by (nonlinear_arith)
        requires
            aa == a * a,
            x1 == m1 * m1,
    ;
    assert(aa * x1 >= 0) by (nonlinear_arith)
        requires
            aa == a * a,
            x1 >= 0,
    ;
    let y0 = x0 * x0;
    assert(y0 >= 0) by (nonlinear_arith)
        requires
            y0 == x0 * x0,
    ;
    lemma_square_order(10000 * y0, 10201 * (aa * x1));
    let a4 = aa * aa;
    assert((10000 * y0) * (10000 * y0) == 100000000 * (y0 * y0)) by (nonlinear_arith);
    assert((10201 * (aa * x1)) * (10201 * (aa * x1)) == 104060401 * (a4 * (x1 * x1)))
        by (nonlinear_arith)
        requires
            a4 == aa * aa,
    ;
    assert(a4 >= 0) by (nonlinear_arith)
        requires
            a4 == aa * aa,
    ;
    assert(a4 * (x1 * x1) * 1000000 <= 2060602 * (a4 * t)) by (nonlinear_arith)
        requires
            a4 >= 0,
            1000000 * (x1 * x1) <= 2060602 * t,
    ;
    let (g1, g2) = (f1 * f1 * (f1 * f1), f2 * f2);
    let (k2, k4) = (k * k, k * k * (k * k));
    assert(aa == k2 * (f1 * f1)) by (nonlinear_arith)
        requires
            aa == a * a,
            a == k * f1,
            k2 == k * k,
    ;
    assert(a4 == k4 * g1) by (nonlinear_arith)
        requires
            a4 == aa * aa,
            aa == k2 * (f1 * f1),
            k4 == k2 * k2,
            g1 == f1 * f1 * (f1 * f1),
    ;
    assert(t == k4 * (g2 * f3)) by (nonlinear_arith)
        requires
            t == bb * (c * k),
            bb == b * b,
            b == k * f2,
            c == k * f3,
            k4 == k * k * (k * k),
            g2 == f2 * f2,
    ;
    assert(a4 * t == (k4 * k4) * (g1 * g2 * f3)) by (nonlinear_arith)
        requires
            a4 == k4 * g1,
            t == k4 * (g2 * f3),
    ;
    assert(a4 * t >= 0) by (nonlinear_arith)
        requires
            a4 >= 0,
            t == bb * (c * k),
            bb >= 0,
            c >= 0,
            k > 0,
    ;
    assert(eighth(m0) == y0 * y0);
}

proof fn lemma_back(c: int, p: int, m: int, f: int, k: int)
    requires
        k > 0,
        p > 0,
        c > 0,
        m >= 0,
        f >= 1,
        m * p <= c * k < (m + 1) * p,
        eighth(m) >= eighth(k) * f,
        eighth(m + 1) <= 3 * (eighth(k) * f),
    ensures
        f * eighth(p) <= eighth(c) < 4 * (f * eighth(p)),
{
    assert(m * p >= 0 && c * k >= 0) by (nonlinear_arith)
        requires
            m >= 0,
            p > 0,
            c > 0,
            k > 0,
    ;
    lemma_eighth_order(m * p, c * k);
    lemma_eighth_order(c * k, (m + 1) * p);
    lemma_eighth_product(m, p);
    lemma_eighth_product(c, k);
    lemma_eighth_product(m + 1, p);
    lemma_eighth_order(1, k);
    lemma_eighth_order(1, p);
    let (ek, ep, ec) = (eighth(k), eighth(p), eighth(c));
    assert(eighth(1) == 1);
    assert(eighth(m) * ep >= ek * f * ep) by (nonlinear_arith)
        requires
            eighth(m) >= ek * f,
            ep >= 1,
    ;
    assert(eighth(m + 1) * ep <= 3 * (ek * f) * ep) by (nonlinear_arith)
        requires
            eighth(m + 1) <= 3 * (ek * f),
            ep >= 1,
    ;
    assert(f * ep <= ec) by (nonlinear_arith)
        requires
            ec * ek >= ek * f * ep,
            ek >= 1,
    ;
    assert(ec <= 3 * (f * ep)) by (nonlinear_arith)
        requires
            ec * ek <= 3 * (ek * f) * ep,
            ek >= 1,
    ;
    assert(f * ep >= 1) by (nonlinear_arith)
        requires
            f >= 1,
            ep >= 1,
    ;
}

// ---------------------------------------------------------------------------
// A line above the logarithm
// ---------------------------------------------------------------------------

proof fn lemma_beyond(d: nat)
    requires
        d >= 52,
    ensures
        4 * eighth(16 * d - 816) <= pow2(d),
    decreases d,
{
    if d <= 66 {
        lemma2_to64_rest();
        lemma2_to64();
        lemma_pow2_unfold(65);
        lemma_pow2_unfold(66);
        if d == 52 {
            assert(eighth(16) == 4294967296) by (nonlinear_arith);
        } else if d == 53 {
            assert(eighth(32) == 1099511627776) by (nonlinear_arith);
        } else if d == 54 {
            assert(eighth(48) == 28179280429056) by (nonlinear_arith);
        } else if d == 55 {
            assert(eighth(64) == 281474976710656) by (nonlinear_arith);
        } else if d == 56 {
            assert(eighth(80) == 1677721600000000) by (nonlinear_arith);
        } else if d == 57 {
            assert(eighth(96) == 7213895789838336) by (nonlinear_arith);
        } else if d == 58 {
            assert(eighth(112) == 24759631762948096) by (nonlinear_arith);
        } else if d == 59 {
            assert(eighth(128) == 72057594037927936) by (nonlinear_arith);
        } else if d == 60 {
            assert(eighth(144) == 184884258895036416) by (nonlinear_arith);
        } else if d == 61 {
            assert(eighth(160) == 429496729600000000) by (nonlinear_arith);
        } else if d == 62 {
            assert(eighth(176) == 920664383502155776) by (nonlinear_arith);
        } else if d == 63 {
            assert(eighth(192) == 1846757322198614016) by (nonlinear_arith);
        } else if d == 64 {
            assert(eighth(208) == 3503536769037500416) by (nonlinear_arith);
        } else if d == 65 {
            assert(eighth(224) == 6338465731314712576) by (nonlinear_arith);
        } else {
            assert(eighth(240) == 11007531417600000000) by (nonlinear_arith);
        }
    } else {
        let y = 16 * (d - 1) - 816;
        lemma_beyond((d - 1) as nat);
        lemma_pow2_unfold(d);
        assert(15 * (y + 16) <= 16 * y);
        lemma_eighth_order(15 * (y + 16), 16 * y);
        lemma_eighth_product(15, y + 16);
        lemma_eighth_product(16, y);
        lemma_eighth_order(0, y);
        lemma_eighth_order(0, y + 16);
        assert(eighth(15) == 2562890625) by (nonlinear_arith);
        assert(eighth(16) == 4294967296) by (nonlinear_arith);
        assert(y + 16 == 16 * d - 816);
    }
}

/// What a value that occurs `c` times out of `n` adds to the entropy lies below a line.
proof fn lemma_line(c: nat, n: nat)
    requires
        1 <= c <= n,
    ensures
        128 * (c * (entropy::lg(n) - entropy::lg(c))) <= BIT * (832 * c + n),
{
    let g = lemma_eighths(c);
    let h = lemma_eighths(n);
    let gap = entropy::lg(n) - entropy::lg(c);
    let d = h - g;
    assert(gap <= (d + 1) * 0x2_0000);
    assert(128 * (c * gap) <= 128 * (c * ((d + 1) * 0x2_0000))) by (nonlinear_arith)
        requires
            gap <= (d + 1) * 0x2_0000,
            c >= 0,
    ;
    assert(128 * (c * ((d + 1) * 0x2_0000)) == BIT * (16 * (c * (d + 1)))) by (nonlinear_arith)
        requires
            BIT == 0x10_0000,
    ;
    if d <= 51 {
        assert(16 * (c * (d + 1)) <= 832 * c) by (nonlinear_arith)
            requires
                d <= 51,
                c >= 0,
        ;
    } else {
        let z = 16 * d - 816;
        if n >= c * z {
            assert(16 * (c * (d + 1)) == 832 * c + c * z) by (nonlinear_arith)
                requires
                    z == 16 * d - 816,
            ;
        } else {
            lemma_beyond(d as nat);
            lemma_eighth_order(n as int, c * z);
            lemma_eighth_product(c as int, z);
            lemma_pow2_adds(g, d as nat);
            lemma_eighth_order(0, z);
            lemma_eighth_order(1, z);
            assert(eighth(1) == 1);
            let (ec, ez, pg, pd) = (eighth(c as int), eighth(z), pow2(g) as int, pow2(d as nat) as int);
            assert(ec * ez < 4 * pg * ez) by (nonlinear_arith)
                requires
                    ec < 4 * pg,
                    ez >= 1,
            ;
            lemma_pow2_pos(g);
            assert(pg * (4 * ez) <= pg * pd) by (nonlinear_arith)
                requires
                    4 * ez <= pd,
                    pg >= 0,
            ;
            assert(4 * pg * ez == pg * (4 * ez)) by (nonlinear_arith);
            assert(false);
        }
    }
    assert(BIT * (16 * (c * (d + 1))) <= BIT * (832 * c + n)) by (nonlinear_arith)
        requires
            16 * (c * (d + 1)) <= 832 * c + n,
            BIT == 0x10_0000,
    ;
}

proof fn lemma_sum(data: Seq<u8>, b: int)
    requires
        0 <= b <= 256,
        data.len() > 0,
    ensures
        128 * (entropy::below(data, b) * entropy::lg(data.len()) - entropy::weights(data, b)) <= BIT
            * (832 * entropy::below(data, b) + kinds(data, b) * data.len()),
    decreases b,
{
    let n = data.len() as int;
    if b > 0 {
        lemma_sum(data, b - 1);
        let c = entropy::count(data, b - 1);
        let (s, k) = (entropy::below(data, b - 1) as int, kinds(data, b - 1) as int);
        let l = entropy::lg(data.len()) as int;
        let w = entropy::weights(data, b - 1) as int;
        if c > 0 {
            entropy::lemma_count_bound(data, b - 1);
            lemma_line(c, data.len());
            let m = entropy::lg(c) as int;
            assert((s + c) * l - (w + c * m) == (s * l - w) + c * (l - m)) by (nonlinear_arith);
            assert(BIT * (832 * (s + c) + (k + 1) * n) == BIT * (832 * s + k * n) + BIT * (832 * c
                + n)) by (nonlinear_arith);
        }
    } else {
        assert(0 * entropy::lg(data.len()) == 0);
        assert(0 * n == 0);
    }
}

// ---------------------------------------------------------------------------
// Laws
// ---------------------------------------------------------------------------

/// Few different byte values mean little entropy: with `k` of them it is at most
/// `6.5 + k / 128` bits per byte.
pub proof fn few_kinds_have_little_entropy(data: Seq<u8>)
    ensures
        128 * entropy::entropy(data) <= BIT * (832 + kinds(data, 256)),
{
    let n = data.len() as int;
    let k = kinds(data, 256) as int;
    if n > 0 {
        lemma_sum(data, 256);
        entropy::lemma_below_all(data);
        let total = entropy::weight(data.len()) - entropy::weights(data, 256);
        assert(128 * total <= BIT * (832 + k) * n) by (nonlinear_arith)
            requires
                128 * total <= BIT * (832 * n + k * n),
        ;
        if total > 0 {
            assert(128 * (total / n) <= BIT * (832 + k)) by (nonlinear_arith)
                requires
                    n > 0,
                    total > 0,
                    128 * total <= BIT * (832 + k) * n,
            ;
        }
    }
}

proof fn lemma_kinds_below(data: Seq<u8>, top: int, b: int)
    requires
        forall|i: int| 0 <= i < data.len() ==> #[trigger] data[i] < top,
        0 <= top,
        0 <= b,
    ensures
        kinds(data, b) <= top,
        kinds(data, b) <= b,
    decreases b,
{
    if b > 0 {
        lemma_kinds_below(data, top, b - 1);
        if b - 1 >= top {
            lemma_absent(data, top, b - 1);
        }
    }
}

proof fn lemma_absent(data: Seq<u8>, top: int, v: int)
    requires
        forall|i: int| 0 <= i < data.len() ==> #[trigger] data[i] < top,
        v >= top,
    ensures
        entropy::count(data, v) == 0,
    decreases data.len(),
{
    if data.len() > 0 {
        lemma_absent(data.drop_last(), top, v);
        assert(data[data.len() - 1] < top);
    }
}

/// Data with at most 128 different byte values never looks compressed or encrypted.
pub proof fn half_the_values_are_not_random(data: Seq<u8>)
    requires
        kinds(data, 256) <= 128,
    ensures
        2 * entropy::entropy(data) <= 15 * BIT,
{
    few_kinds_have_little_entropy(data);
}

/// ASCII never looks compressed or encrypted.
pub proof fn ascii_is_not_random(data: Seq<u8>)
    requires
        forall|i: int| 0 <= i < data.len() ==> #[trigger] data[i] < 128,
    ensures
        2 * entropy::entropy(data) <= 15 * BIT,
{
    lemma_kinds_below(data, 128, 256);
    half_the_values_are_not_random(data);
}

} // verus!
