//! Shannon entropy in fixed point.
//!
//! Entropies are counted in units of `2^-20` bits per byte, so the same data gets
//! the same entropy on every machine.
use vstd::arithmetic::power2::*;
use vstd::prelude::*;
use crate::cm::sizing;

verus! {

/// One bit per byte.
pub const BIT: u64 = 0x10_0000;

// ---------------------------------------------------------------------------
// Binary logarithm
// ---------------------------------------------------------------------------

/// The greatest power of two that is at most `c`.
pub open spec fn floor_power(c: nat) -> nat
    decreases c,
{
    if c < 2 {
        1
    } else {
        2 * floor_power(c / 2)
    }
}

/// `c` scaled down to `1 .. 2`, with 31 fractional bits.
pub open spec fn mantissa(c: nat) -> nat {
    c * 0x8000_0000 / floor_power(c)
}

/// The next `j` fractional bits of the logarithm of `m`, put behind the bits `acc`:
/// squaring doubles the logarithm, which moves its next bit in front of the point.
pub open spec fn fraction(m: nat, j: nat, acc: nat) -> nat
    decreases j,
{
    let q = m * m / 0x8000_0000;
    if j == 0 {
        acc
    } else if q >= 0x1_0000_0000 {
        fraction(q / 2, (j - 1) as nat, 2 * acc + 1)
    } else {
        fraction(q, (j - 1) as nat, 2 * acc)
    }
}

/// Binary logarithm of `c`, exact for powers of two.
pub open spec fn lg(c: nat) -> nat {
    ((sizing::digits(c) - 1) * 0x10_0000 + fraction(mantissa(c), 20, 0)) as nat
}

proof fn lemma_floor_power(c: nat)
    requires
        c >= 1,
    ensures
        floor_power(c) <= c < 2 * floor_power(c),
    decreases c,
{
    if c >= 2 {
        lemma_floor_power(c / 2);
    }
}

/// The binary logarithm of a positive count.
fn log2(c: u64) -> (r: u64)
    requires
        c >= 1,
    ensures
        r == lg(c as nat),
        r <= 0x1000_0000,
{
    let mut p: u128 = 1;
    let mut m: u64 = c;
    let mut k: u64 = 0;
    proof {
        lemma_floor_power(c as nat);
        lemma2_to64();
        sizing::lemma_digits_bound(c as nat, 64);
    }
    while m > 1
        invariant
            m >= 1,
            1 <= p,
            sizing::digits(c as nat) <= 64,
            p * floor_power(m as nat) == floor_power(c as nat) <= c,
            k + sizing::digits(m as nat) == sizing::digits(c as nat),
            sizing::digits(m as nat) >= 1,
        decreases m,
    {
        proof {
            lemma_floor_power(m as nat);
            lemma_floor_power((m / 2) as nat);
            assert(2 * p * floor_power((m / 2) as nat) == p * (2 * floor_power((m / 2) as nat)))
                by (nonlinear_arith);
            assert(2 * p <= 2 * p * floor_power((m / 2) as nat)) by (nonlinear_arith)
                requires
                    p >= 1,
                    floor_power((m / 2) as nat) >= 1,
            ;
        }
        m = m / 2;
        p = 2 * p;
        k = k + 1;
    }
    assert(floor_power(1) == 1);
    assert(p * 1 == p);
    let mut x: u128 = c as u128 * 0x8000_0000 / p;
    proof {
        assert(0x8000_0000 <= x < 0x1_0000_0000) by (nonlinear_arith)
            requires
                x == c as int * 0x8000_0000 / p as int,
                p <= c < 2 * p,
                p >= 1,
        ;
    }
    let mut acc: u64 = 0;
    let mut bound: u64 = 1;
    assert(power_left(0) == 0x10_0000) by {
        reveal_with_fuel(power_left, 21);
    }
    let mut j: u64 = 0;
    while j < 20
        invariant
            j <= 20,
            0x8000_0000 <= x < 0x1_0000_0000,
            fraction(mantissa(c as nat), 20, 0) == fraction(x as nat, (20 - j) as nat, acc as nat),
            acc < bound,
            bound * power_left(j as int) == 0x10_0000,
        decreases 20 - j,
    {
        assert(0x8000_0000 * 0x8000_0000 <= x * x < 0x1_0000_0000 * 0x1_0000_0000)
            by (nonlinear_arith)
            requires
                0x8000_0000 <= x < 0x1_0000_0000,
        ;
        let q: u128 = x * x / 0x8000_0000;
        proof {
            lemma_power_left(j + 1);
            assert(bound * power_left(j as int) == 2 * bound * power_left(j + 1))
                by (nonlinear_arith)
                requires
                    power_left(j as int) == 2 * power_left(j + 1),
            ;
            assert(bound <= 0x8_0000) by (nonlinear_arith)
                requires
                    2 * bound * power_left(j + 1) == 0x10_0000,
                    power_left(j + 1) >= 1,
                    bound >= 0,
            ;
        }
        bound = bound * 2;
        if q >= 0x1_0000_0000 {
            acc = 2 * acc + 1;
            x = q / 2;
        } else {
            acc = 2 * acc;
            x = q;
        }
        j = j + 1;
    }
    assert(power_left(20) == 1);
    assert(bound * 1 == bound);
    k * BIT + acc
}

/// `2^(20 - j)`.
spec fn power_left(j: int) -> int
    decreases 20 - j,
{
    if j >= 20 {
        1
    } else {
        2 * power_left(j + 1)
    }
}

proof fn lemma_power_left(j: int)
    ensures
        power_left(j) >= 1,
    decreases 20 - j,
{
    if j < 20 {
        lemma_power_left(j + 1);
    }
}

// ---------------------------------------------------------------------------
// Entropy
// ---------------------------------------------------------------------------

/// How often `b` occurs.
pub open spec fn count(data: Seq<u8>, b: int) -> nat
    decreases data.len(),
{
    if data.len() == 0 {
        0
    } else {
        count(data.drop_last(), b) + if data.last() == b { 1nat } else { 0nat }
    }
}

/// `n * log2(n)`, 0 for 0.
pub open spec fn weight(n: nat) -> nat {
    if n == 0 {
        0
    } else {
        n * lg(n)
    }
}

/// Sum of the weights of the counts of the byte values below `b`.
pub open spec fn weights(data: Seq<u8>, b: int) -> nat
    decreases b,
{
    if b <= 0 {
        0
    } else {
        weights(data, b - 1) + weight(count(data, b - 1))
    }
}

/// Bits per byte in units of `2^-20`: 0 for constant data, 8 bits for uniform data,
/// never negative.
pub open spec fn entropy(data: Seq<u8>) -> int {
    let total = weight(data.len()) - weights(data, 256);
    if data.len() == 0 || total <= 0 {
        0
    } else {
        total / data.len() as int
    }
}

fn weight_of(n: u64) -> (r: i128)
    ensures
        r == weight(n as nat),
        0 <= r <= n * 0x1000_0000,
{
    if n == 0 {
        0
    } else {
        let l = log2(n);
        assert(0 <= n * l <= n * 0x1000_0000) by (nonlinear_arith)
            requires
                0 <= n,
                0 <= l <= 0x1000_0000,
        ;
        n as i128 * l as i128
    }
}

/// Shannon entropy of `data` in bits per byte, in units of `2^-20`.
pub fn entropy_bits(data: &[u8]) -> (r: u64)
    ensures
        r == entropy(data@),
        r <= 0x1000_0000,
{
    let n: usize = data.len();
    if n == 0 {
        return 0;
    }
    let mut counts = [0u64;256];
    let mut i: usize = 0;
    assert(data@.take(0) =~= Seq::empty());
    while i < n
        invariant
            n == data@.len(),
            i <= n,
            forall|b: int|
                0 <= b < 256 ==> #[trigger] counts@[b] == count(data@.take(i as int), b)
                    && counts@[b] <= i,
        decreases n - i,
    {
        let b = data[i] as usize;
        assert(counts@[b as int] <= i);
        counts[b] = counts[b] + 1;
        assert(data@.take(i + 1).drop_last() =~= data@.take(i as int));
        i = i + 1;
    }
    assert(data@.take(n as int) =~= data@);
    let mut sum: i128 = 0;
    let mut b: usize = 0;
    while b < 256
        invariant
            n == data@.len(),
            b <= 256,
            forall|c: int| 0 <= c < 256 ==> #[trigger] counts@[c] == count(data@, c),
            sum == weights(data@, b as int),
            0 <= sum <= b * 0x1000_0000_0000_0000_0000_0000,
        decreases 256 - b,
    {
        sum = sum + weight_of(counts[b]);
        b = b + 1;
    }
    let total: i128 = weight_of(n as u64) - sum;
    if total <= 0 {
        0
    } else {
        let ghost t = total as int;
        assert(0 <= t / n as int <= 0x1000_0000) by (nonlinear_arith)
            requires
                0 < t <= n * 0x1000_0000,
                n > 0,
        ;
        (total / n as i128) as u64
    }
}

/// Whether data looks already compressed or encrypted: more than 7.5 bits per byte.
pub fn is_high_entropy(data: &[u8]) -> (r: bool)
    ensures
        r == (2 * entropy(data@) > 15 * BIT),
{
    entropy_bits(data) > 7864320
}

// ---------------------------------------------------------------------------
// Laws
// ---------------------------------------------------------------------------

proof fn lemma_count_constant(data: Seq<u8>, v: u8, b: int)
    requires
        forall|i: int| 0 <= i < data.len() ==> #[trigger] data[i] == v,
    ensures
        count(data, b) == (if b == v { data.len() } else { 0 }),
    decreases data.len(),
{
    if data.len() > 0 {
        lemma_count_constant(data.drop_last(), v, b);
    }
}

proof fn lemma_weights_constant(data: Seq<u8>, v: u8, b: int)
    requires
        forall|i: int| 0 <= i < data.len() ==> #[trigger] data[i] == v,
        0 <= b <= 256,
    ensures
        weights(data, b) == (if b > v { weight(data.len()) } else { 0 }),
    decreases b,
{
    if b > 0 {
        lemma_weights_constant(data, v, b - 1);
        lemma_count_constant(data, v, b - 1);
    }
}

/// Data that repeats one byte has no entropy.
pub proof fn constant_has_no_entropy(data: Seq<u8>, v: u8)
    requires
        forall|i: int| 0 <= i < data.len() ==> #[trigger] data[i] == v,
    ensures
        entropy(data) == 0,
{
    lemma_weights_constant(data, v, 256);
}

/// Doubling adds one bit to the logarithm.
proof fn lemma_lg_double(c: nat)
    requires
        c >= 1,
    ensures
        lg(2 * c) == lg(c) + BIT,
{
    assert((2 * c) / 2 == c);
    let p = floor_power(c);
    lemma_floor_power(c);
    assert(floor_power(2 * c) == 2 * p);
    assert(2 * c * 0x8000_0000 / (2 * p) == c * 0x8000_0000 / p) by {
        vstd::arithmetic::div_mod::lemma_div_denominator((2 * c * 0x8000_0000) as int, 2, p as int);
        assert(2 * c * 0x8000_0000 / 2 == c * 0x8000_0000);
    }
    assert(sizing::digits(2 * c) == sizing::digits(c) + 1);
    assert(sizing::digits(c) >= 1);
}

/// No value occurs more often than there are bytes.
pub proof fn lemma_count_bound(data: Seq<u8>, b: int)
    ensures
        count(data, b) <= data.len(),
    decreases data.len(),
{
    if data.len() > 0 {
        lemma_count_bound(data.drop_last(), b);
    }
}

/// How many bytes have values below `b`.
pub open spec fn below(data: Seq<u8>, b: int) -> nat
    decreases b,
{
    if b <= 0 {
        0
    } else {
        below(data, b - 1) + count(data, b - 1)
    }
}

proof fn lemma_below_step(data: Seq<u8>, b: int)
    requires
        data.len() > 0,
        0 <= b <= 256,
    ensures
        below(data, b) == below(data.drop_last(), b) + (if data.last() < b { 1nat } else { 0nat }),
    decreases b,
{
    if b > 0 {
        lemma_below_step(data, b - 1);
    }
}

/// Every byte has a value below 256.
pub proof fn lemma_below_all(data: Seq<u8>)
    ensures
        below(data, 256) == data.len(),
    decreases data.len(),
{
    if data.len() > 0 {
        lemma_below_step(data, 256);
        lemma_below_all(data.drop_last());
    } else {
        lemma_below_none(data, 256);
    }
}

proof fn lemma_below_none(data: Seq<u8>, b: int)
    requires
        data.len() == 0,
    ensures
        below(data, b) == 0,
    decreases b,
{
    if b > 0 {
        lemma_below_none(data, b - 1);
    }
}

proof fn lemma_uniform_sums(data: Seq<u8>, c: nat, b: int)
    requires
        forall|v: int| 0 <= v < 256 ==> #[trigger] count(data, v) == c,
        0 <= b <= 256,
    ensures
        weights(data, b) == b * weight(c),
        below(data, b) == b * c,
    decreases b,
{
    if b > 0 {
        lemma_uniform_sums(data, c, b - 1);
        assert((b - 1) * weight(c) + weight(c) == b * weight(c)) by (nonlinear_arith);
        assert((b - 1) * c + c == b * c) by (nonlinear_arith);
    } else {
        assert(0 * weight(c) == 0);
    }
}

/// Data in which all byte values are equally frequent has eight bits per byte.
pub proof fn uniform_has_eight_bits(data: Seq<u8>, c: nat)
    requires
        c >= 1,
        forall|v: int| 0 <= v < 256 ==> #[trigger] count(data, v) == c,
    ensures
        entropy(data) == 8 * BIT,
{
    lemma_uniform_sums(data, c, 256);
    lemma_below_all(data);
    let n = data.len();
    assert(n == 256 * c);
    lemma_lg_double(c);
    lemma_lg_double(2 * c);
    lemma_lg_double(4 * c);
    lemma_lg_double(8 * c);
    lemma_lg_double(16 * c);
    lemma_lg_double(32 * c);
    lemma_lg_double(64 * c);
    lemma_lg_double(128 * c);
    let l = lg(c) as int;
    assert(lg(n) == l + 8 * BIT);
    assert(n * (l + 8 * BIT) - 256 * (c * l) == n * (8 * BIT)) by (nonlinear_arith)
        requires
            n == 256 * c,
    ;
    assert(n * (8 * BIT) > 0) by (nonlinear_arith)
        requires
            n > 0,
    ;
    vstd::arithmetic::div_mod::lemma_div_by_multiple((8 * BIT) as int, n as int);
}

} // verus!
