//! How large the model's tables are for a segment of a given length.
//!
//! Every size is a function of the segment length and the profile alone, both of
//! which the decoder knows before it starts, so the two sides always agree.
use vstd::arithmetic::power2::*;
use vstd::prelude::*;
use crate::cm::logistic;

verus! {

/// Memory profiles.
pub const MEM_STD: u8 = 0;

/// Hash tables of up to `2^23` buckets.
pub const MEM_BIG: u8 = 1;

/// Hash tables of up to `2^24` buckets.
pub const MEM_PLUS: u8 = 2;

/// Hash tables of up to `2^25` buckets.
pub const MEM_HUGE: u8 = 3;

/// Bit-history models of the full profile.
pub const NBH: usize = 30;

/// Bit-history models of the turbo profile: a prefix of the full roster.
pub const NBH_TURBO: usize = 5;

/// Mixer inputs, padded to a multiple of eight.
pub const NINP: usize = 72;

/// Smallest number of rows in a hash-selected weight bank.
pub const WC_ROWS: usize = 8192;

/// Binary digits of `n`, at least one.
pub open spec fn digits(n: nat) -> nat
    decreases n,
{
    if n < 2 {
        1
    } else {
        1 + digits(n / 2)
    }
}

/// Unclamped table exponent for `n` input bytes.
pub open spec fn raw_bits_spec(n: int) -> int {
    digits(n as nat) as int + 2
}

/// Unclamped table exponent for `n` input bytes: a table a few times larger than
/// the input.
pub fn raw_bits(n: usize) -> (r: u32)
    ensures
        r == raw_bits_spec(n as int),
        3 <= r <= 66,
{
    let mut m = n;
    let mut b: u32 = 1;
    proof {
        lemma2_to64();
        lemma_digits_bound(n as nat, 64);
    }
    while m > 1
        invariant
            1 <= b,
            b + digits(m as nat) - 1 == digits(n as nat) <= 64,
            digits(m as nat) >= 1,
        decreases m,
    {
        m = m / 2;
        b = b + 1;
    }
    b + 2
}

/// A number below `2^b` has at most `b` binary digits.
pub proof fn lemma_digits_bound(n: nat, b: nat)
    requires
        n < pow2(b),
        b >= 1,
    ensures
        1 <= digits(n) <= b,
    decreases b,
{
    lemma_pow2_unfold(b);
    if b == 1 {
        lemma2_to64();
    } else if n >= 2 {
        lemma_digits_bound(n / 2, (b - 1) as nat);
    }
}

/// How big a hash table a model's context population deserves.
#[derive(Clone, Copy, PartialEq, Eq, Structural)]
pub enum Kind {
    /// High-order and word contexts: unbounded population.
    Hash,
    /// Contexts of a few fixed bytes.
    Sparse,
    /// Fixed-lane media contexts.
    Stride,
    /// Contexts keyed by a followed byte.
    Ind,
}

/// Table kind of model `k`.
pub open spec fn kind_spec(k: int) -> Kind {
    if 8 <= k < 14 || k == 27 || k == 28 {
        Kind::Sparse
    } else if 14 <= k < 18 {
        Kind::Stride
    } else if 18 <= k < 21 || k == 26 {
        Kind::Ind
    } else {
        Kind::Hash
    }
}

/// Largest table exponent model `k` can fill.
pub open spec fn cap_spec(k: int) -> int {
    if k == 8 || k == 9 {
        14
    } else if k == 27 {
        19
    } else if k == 0 || 10 <= k <= 18 {
        21
    } else if k == 1 || k == 19 || k == 20 || k == 25 || k == 26 || k == 28 {
        24
    } else {
        31
    }
}

fn kind(k: usize) -> (r: Kind)
    ensures
        r == kind_spec(k as int),
{
    if 8 <= k && k < 14 || k == 27 || k == 28 {
        Kind::Sparse
    } else if 14 <= k && k < 18 {
        Kind::Stride
    } else if 18 <= k && k < 21 || k == 26 {
        Kind::Ind
    } else {
        Kind::Hash
    }
}

fn cap(k: usize) -> (r: u32)
    ensures
        r == cap_spec(k as int),
{
    if k == 8 || k == 9 {
        14
    } else if k == 27 {
        19
    } else if k == 0 || 10 <= k && k <= 18 {
        21
    } else if k == 1 || k == 19 || k == 20 || k == 25 || k == 26 || k == 28 {
        24
    } else {
        31
    }
}

/// How many times the big profile's ceilings are doubled.
pub open spec fn plus(mem: int) -> int {
    if mem >= 3 {
        2
    } else if mem == 2 {
        1
    } else {
        0
    }
}

/// The smaller of two integers.
pub open spec fn min(a: int, b: int) -> int {
    if a < b {
        a
    } else {
        b
    }
}

/// Bucket-count exponent of model `k`.
pub open spec fn model_bits_spec(k: int, n: int, mem: int) -> int {
    let raw = raw_bits_spec(n);
    let bits = if mem >= MEM_BIG {
        logistic::clamp(raw, 11, 23 + plus(mem))
    } else {
        let h = logistic::clamp(logistic::clamp(raw, 14, 22) - 3, 11, 19);
        match kind_spec(k) {
            Kind::Hash => h,
            Kind::Sparse => min(h, 16),
            Kind::Stride => min(h, 16),
            Kind::Ind => min(h, 18),
        }
    };
    min(bits, cap_spec(k))
}

/// Exponent of the two match tables.
pub open spec fn match_bits_spec(n: int, mem: int) -> int {
    let top = if mem >= MEM_BIG { 24 + plus(mem) } else { 22 };
    logistic::clamp(raw_bits_spec(n), 14, top)
}

/// Exponent of the indirect tables.
pub open spec fn ind_bits_spec(mem: int) -> int {
    if mem >= MEM_BIG {
        22
    } else {
        20
    }
}

fn clamp_u32(v: u32, lo: u32, hi: u32) -> (r: u32)
    ensures
        r == logistic::clamp(v as int, lo as int, hi as int),
{
    if v < lo {
        lo
    } else if v > hi {
        hi
    } else {
        v
    }
}

fn plus_of(mem: u8) -> (r: u32)
    ensures
        r == plus(mem as int),
{
    if mem >= MEM_HUGE {
        2
    } else if mem >= MEM_PLUS {
        1
    } else {
        0
    }
}

/// Power-of-two exponent of a standard table for `n` input bytes.
pub fn table_bits(n: usize) -> (r: u32)
    ensures
        r == logistic::clamp(raw_bits_spec(n as int), 14, 22),
{
    clamp_u32(raw_bits(n), 14, 22)
}

/// Bucket-count exponent of bit-history model `k`.
pub fn model_bits(k: usize, n: usize, mem: u8) -> (r: u32)
    ensures
        r == model_bits_spec(k as int, n as int, mem as int),
        11 <= r <= 25,
{
    let bits: u32 = if mem >= MEM_BIG {
        clamp_u32(raw_bits(n), 11, 23 + plus_of(mem))
    } else {
        let h = clamp_u32(table_bits(n) - 3, 11, 19);
        match kind(k) {
            Kind::Hash => h,
            Kind::Sparse | Kind::Stride => clamp_u32(h, 0, 16),
            Kind::Ind => clamp_u32(h, 0, 18),
        }
    };
    clamp_u32(bits, 0, cap(k))
}

/// Exponent of the two match tables.
pub fn match_bits(n: usize, mem: u8) -> (r: u32)
    ensures
        r == match_bits_spec(n as int, mem as int),
        14 <= r <= 26,
{
    if mem >= MEM_BIG {
        clamp_u32(raw_bits(n), 14, 24 + plus_of(mem))
    } else {
        table_bits(n)
    }
}

/// Exponent of the indirect tables.
pub fn ind_bits(mem: u8) -> (r: u32)
    ensures
        r == ind_bits_spec(mem as int),
        r == 20 || r == 22,
{
    if mem >= MEM_BIG {
        22
    } else {
        20
    }
}

/// `r` doubled until it reaches `need` or `most`.
pub open spec fn rows_from(r: int, need: int, most: int) -> int
    decreases 2 * most - r,
{
    if r <= 0 || r >= most || r >= need {
        r
    } else {
        rows_from(2 * r, need, most)
    }
}

/// Most rows a memory profile allows in a hash-selected weight bank.
pub open spec fn most_rows(mem: int) -> int {
    if mem == 0 {
        8192
    } else if mem == 1 {
        0x1_0000
    } else if mem == 2 {
        0x4_0000
    } else {
        0x8_0000
    }
}

/// Rows in each hash-selected weight bank: enough for one row per 64 bytes, within
/// the profile's bounds.
pub open spec fn mix_rows_spec(n: int, turbo: bool, mem: int) -> int {
    if turbo {
        8192
    } else {
        rows_from(8192, n / 64, most_rows(mem))
    }
}

/// Rows in each hash-selected weight bank for an `n`-byte segment.
pub fn mix_rows_for(n: usize, turbo: bool, mem: u8) -> (r: usize)
    ensures
        r == mix_rows_spec(n as int, turbo, mem as int),
        8192 <= r <= 0x8_0000,
{
    if turbo {
        return WC_ROWS;
    }
    let most: usize = if mem == 0 {
        8192
    } else if mem == 1 {
        0x1_0000
    } else if mem == 2 {
        0x4_0000
    } else {
        0x8_0000
    };
    let need: usize = n / 64;
    assert(most == most_rows(mem as int));
    let mut r: usize = WC_ROWS;
    while r < most && r < need
        invariant
            r == 0x2000 || r == 0x4000 || r == 0x8000 || r == 0x1_0000 || r == 0x2_0000 || r
                == 0x4_0000 || r == 0x8_0000,
            most == 0x2000 || most == 0x1_0000 || most == 0x4_0000 || most == 0x8_0000,
            r <= most,
            rows_from(8192, need as int, most as int) == rows_from(
                r as int,
                need as int,
                most as int,
            ),
        decreases most - r,
    {
        r = r * 2;
    }
    r
}

/// Mixer learning rate for a segment of `n` bytes: slower on long segments, where
/// the weights should settle rather than chase noise.
pub open spec fn mix_lr_spec(n: int, turbo: bool) -> int {
    if turbo {
        5
    } else if n <= 0x400_0000 {
        4
    } else {
        3
    }
}

/// Mixer learning rate for a segment of `n` bytes.
pub fn mix_lr_for(n: usize, turbo: bool) -> (r: i32)
    ensures
        r == mix_lr_spec(n as int, turbo),
{
    if turbo {
        5
    } else if n <= 0x400_0000 {
        4
    } else {
        3
    }
}

/// Bytes of the bit-history tables of models `0 .. k`.
pub open spec fn buckets_bytes(k: int, n: int, mem: int) -> int
    decreases k,
{
    if k <= 0 {
        0
    } else {
        buckets_bytes(k - 1, n, mem) + 16 * pow2(model_bits_spec(k - 1, n, mem) as nat)
    }
}

/// Bytes of the tables of a model over an `n`-byte segment: the bit-history tables,
/// both match tables, the indirect tables and the hash-selected weight banks with
/// the matching refinement stage.
pub open spec fn table_bytes_spec(n: int, turbo: bool, mem: int) -> int {
    let nbh = if turbo { NBH_TURBO as int } else { NBH as int };
    let m = if turbo { 0 } else { mem };
    let rows = mix_rows_spec(n, turbo, m);
    buckets_bytes(nbh, n, m) + 8 * pow2(match_bits_spec(n, m) as nat) + 0x1_0000 + 3 * pow2(
        ind_bits_spec(m) as nat,
    ) + 3 * rows * 72 * 4 + rows * 66
}

/// Bytes of the large allocations of a model over an `n`-byte segment: its tables
/// and the segment itself.
pub open spec fn model_bytes_spec(n: int, turbo: bool, mem: int) -> int {
    table_bytes_spec(n, turbo, mem) + n
}

proof fn lemma_buckets_positive(k: int, n: int, mem: int)
    ensures
        buckets_bytes(k, n, mem) >= 0,
    decreases k,
{
    if k > 0 {
        lemma_buckets_positive(k - 1, n, mem);
    }
}

proof fn lemma_rows_positive(r: int, need: int, most: int)
    requires
        r > 0,
    ensures
        rows_from(r, need, most) > 0,
    decreases 2 * most - r,
{
    if r < most && r < need {
        lemma_rows_positive(2 * r, need, most);
    }
}

/// A model takes memory.
pub proof fn lemma_model_bytes_positive(n: int, turbo: bool, mem: int)
    requires
        n >= 0,
    ensures
        model_bytes_spec(n, turbo, mem) > 0,
{
    let nbh = if turbo { NBH_TURBO as int } else { NBH as int };
    let m = if turbo { 0 } else { mem };
    lemma_buckets_positive(nbh, n, m);
    lemma_rows_positive(8192, n / 64, most_rows(m));
}

proof fn lemma_digits(n: nat)
    requires
        n >= 1,
    ensures
        digits(n) >= 1,
        pow2((digits(n) - 1) as nat) <= n < pow2(digits(n)),
    decreases n,
{
    lemma2_to64();
    if n >= 2 {
        lemma_digits(n / 2);
        lemma_pow2_unfold(digits(n));
        lemma_pow2_unfold((digits(n) - 1) as nat);
    }
}

/// Tables are sized by the input: four to eight slots for each of its bytes, before any
/// bound applies.
pub proof fn tables_follow_the_input(n: int)
    requires
        n >= 1,
    ensures
        4 * n < pow2(raw_bits_spec(n) as nat) <= 8 * n,
{
    lemma_digits(n as nat);
    let d = digits(n as nat);
    lemma_pow2_unfold(d + 2);
    lemma_pow2_unfold(d + 1);
    lemma_pow2_unfold(d);
}

/// A larger memory profile never gives a model smaller tables, and no table is smaller
/// than `2^11` or larger than `2^25` buckets.
pub proof fn profiles_ascend(k: int, n: int, a: int, b: int)
    requires
        0 <= a <= b,
        0 <= k < 30,
    ensures
        11 <= model_bits_spec(k, n, a) <= model_bits_spec(k, n, b) <= 25,
        match_bits_spec(n, a) <= match_bits_spec(n, b),
        ind_bits_spec(a) <= ind_bits_spec(b),
{
}

/// `2^e` for the exponents tables use.
fn power(e: u32) -> (r: u64)
    requires
        e <= 26,
    ensures
        r == pow2(e as nat),
        1 <= r <= 0x400_0000,
{
    let mut r: u64 = 1;
    let mut i: u32 = 0;
    proof {
        lemma2_to64();
    }
    while i < e
        invariant
            i <= e <= 26,
            r == pow2(i as nat),
            pow2(26) == 0x400_0000,
        decreases e - i,
    {
        proof {
            lemma_pow2_unfold((i + 1) as nat);
            if i + 1 < 26 {
                lemma_pow2_strictly_increases((i + 1) as nat, 26);
            }
        }
        r = r * 2;
        i = i + 1;
    }
    proof {
        if e < 26 {
            lemma_pow2_strictly_increases(e as nat, 26);
        }
        lemma_pow2_pos(e as nat);
    }
    r
}

/// Roughly how many bytes the tables of a model over an `n`-byte segment take.
pub fn table_bytes(n: usize, turbo: bool, mem: u8) -> (r: u64)
    ensures
        r == table_bytes_spec(n as int, turbo, mem as int),
        0 < r <= 0x100_0000_0000,
{
    let nbh: usize = if turbo {
        NBH_TURBO
    } else {
        NBH
    };
    let m: u8 = if turbo {
        MEM_STD
    } else {
        mem
    };
    let mut total: u64 = 0;
    let mut k: usize = 0;
    while k < nbh
        invariant
            k <= nbh <= 30,
            total == buckets_bytes(k as int, n as int, m as int),
            total <= k * 0x4000_0000,
        decreases nbh - k,
    {
        total = total + 16 * power(model_bits(k, n, m));
        k = k + 1;
    }
    total = total + 8 * power(match_bits(n, m));
    total = total + 0x1_0000 + 3 * power(ind_bits(m));
    let rows: u64 = mix_rows_for(n, turbo, m) as u64;
    total + 3 * rows * 72 * 4 + rows * 66
}

/// Roughly how many bytes a model over an `n`-byte segment allocates.
pub fn model_bytes(n: usize, turbo: bool, mem: u8) -> (r: usize)
    requires
        model_bytes_spec(n as int, turbo, mem as int) <= usize::MAX,
    ensures
        r == model_bytes_spec(n as int, turbo, mem as int),
{
    table_bytes(n, turbo, mem) as usize + n
}

} // verus!
