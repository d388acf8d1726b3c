//! Transform primitives on blocks of bytes.
use vstd::prelude::*;
use crate::cm::framing;
use crate::cm::sizing;

verus! {

/// A transform of a block of bytes.
#[derive(Clone, Copy, Debug, PartialEq, Eq, Structural)]
pub enum TransformOp {
    /// Add a signed amount to every byte.
    Shift { bytes: i16 },
    /// Exclusive-or every byte with a mask.
    Xor { mask: u8 },
    /// Replace every byte by its difference from the one before it, plus a step.
    Delta { step: i8 },
    /// Reverse the block.
    Mirror,
    /// Rotate the bits of every byte to the left.
    BitRotate { bits: u8 },
    /// Add a value to every byte.
    Add { value: u8 },
    /// Subtract a value from every byte.
    Subtract { value: u8 },
    /// Keep the masked bits of every byte.
    BitMask { mask: u8 },
    /// Group the bytes of each of `stride` interleaved channels together.
    Interleave { stride: u8 },
    /// Repeat the block.
    Repeat { factor: u8 },
    /// Scale every byte, saturating.
    Scale { numerator: u8, denominator: u8 },
}

// ---------------------------------------------------------------------------
// What the primitives do
// ---------------------------------------------------------------------------

/// A sum modulo 256.
pub open spec fn wrap(v: int) -> u8 {
    (v % 256) as u8
}

/// `2^k` for `k < 8`.
pub open spec fn power(k: int) -> int {
    if k == 0 {
        1
    } else if k == 1 {
        2
    } else if k == 2 {
        4
    } else if k == 3 {
        8
    } else if k == 4 {
        16
    } else if k == 5 {
        32
    } else if k == 6 {
        64
    } else {
        128
    }
}

/// `v` with its bits rotated `k` places to the left: the bits that leave the byte at
/// the top come back at the bottom.
pub open spec fn rotated(v: u8, k: int) -> u8 {
    (v * power(k) % 256 + v * power(k) / 256) as u8
}

/// `v` with its bits rotated `k` places to the right.
pub open spec fn rotated_back(v: u8, k: int) -> u8 {
    (v as int / power(k) + v as int % power(k) * (256int / power(k))) as u8
}

/// `v * num / den`, saturating.
pub open spec fn scaled(v: u8, num: u8, den: u8) -> u8 {
    sizing::min((v * num) / (den as int), 255) as u8
}

/// The byte before index `i`, or 0.
pub open spec fn previous(d: Seq<u8>, i: int) -> int {
    if i > 0 {
        d[i - 1] as int
    } else {
        0
    }
}

/// Sums of the differences in `d`, less a step each: what [`TransformOp::Delta`]
/// started from.
pub open spec fn summed(d: Seq<u8>, step: int) -> Seq<u8>
    decreases d.len(),
{
    if d.len() == 0 {
        Seq::empty()
    } else {
        let front = summed(d.drop_last(), step);
        front.push(wrap(d.last() - step + previous(front, front.len() as int)))
    }
}

/// Bytes in channel `ch` when `n` bytes are dealt to `stride` channels in turn.
pub open spec fn channel_len(n: int, stride: int, ch: int) -> int {
    n / stride + if ch < n % stride { 1int } else { 0int }
}

/// The bytes of channel `ch`.
pub open spec fn channel(d: Seq<u8>, stride: int, ch: int) -> Seq<u8> {
    Seq::new(
        channel_len(d.len() as int, stride, ch) as nat,
        |r: int| d[r * stride + ch],
    )
}

/// All channels.
pub open spec fn channels(d: Seq<u8>, stride: int) -> Seq<Seq<u8>> {
    Seq::new(stride as nat, |ch: int| channel(d, stride, ch))
}

/// Where channel `ch` starts when the channels stand one after the other.
pub open spec fn channel_start(n: int, stride: int, ch: int) -> int {
    ch * (n / stride) + sizing::min(ch, n % stride)
}

/// The block repeated `k` times.
pub open spec fn repeated(d: Seq<u8>, k: int) -> Seq<u8>
    decreases k,
{
    if k <= 0 {
        Seq::empty()
    } else {
        repeated(d, k - 1) + d
    }
}

impl TransformOp {
    /// The transformed block.
    pub open spec fn applied(self, d: Seq<u8>) -> Seq<u8> {
        match self {
            TransformOp::Shift { bytes } => d.map_values(|v: u8| wrap(v + bytes)),
            TransformOp::Xor { mask } => d.map_values(|v: u8| v ^ mask),
            TransformOp::Delta { step } => Seq::new(
                d.len(),
                |i: int| wrap(d[i] - previous(d, i) + step),
            ),
            TransformOp::Mirror => d.reverse(),
            TransformOp::BitRotate { bits } => d.map_values(
                |v: u8| rotated(v, bits as int % 8),
            ),
            TransformOp::Add { value } => d.map_values(|v: u8| wrap(v + value)),
            TransformOp::Subtract { value } => d.map_values(|v: u8| wrap(v - value)),
            TransformOp::BitMask { mask } => d.map_values(|v: u8| v & mask),
            TransformOp::Interleave { stride } => if stride == 0 {
                d
            } else {
                framing::joined(channels(d, stride as int), stride as int)
            },
            TransformOp::Repeat { factor } => if factor <= 1 {
                d
            } else {
                repeated(d, factor as int)
            },
            TransformOp::Scale { numerator, denominator } => if denominator == 0 {
                d
            } else {
                d.map_values(|v: u8| scaled(v, numerator, denominator))
            },
        }
    }

    /// The block before the transform. [`TransformOp::BitMask`] and
    /// [`TransformOp::Repeat`] lose what would be needed and are left alone.
    pub open spec fn inverted(self, d: Seq<u8>) -> Seq<u8> {
        match self {
            TransformOp::Shift { bytes } => d.map_values(|v: u8| wrap(v - bytes)),
            TransformOp::Xor { mask } => d.map_values(|v: u8| v ^ mask),
            TransformOp::Delta { step } => summed(d, step as int),
            TransformOp::Mirror => d.reverse(),
            TransformOp::BitRotate { bits } => d.map_values(
                |v: u8| rotated_back(v, bits as int % 8),
            ),
            TransformOp::Add { value } => d.map_values(|v: u8| wrap(v - value)),
            TransformOp::Subtract { value } => d.map_values(|v: u8| wrap(v + value)),
            TransformOp::BitMask { .. } => d,
            TransformOp::Interleave { stride } => if stride == 0 {
                d
            } else {
                let s = stride as int;
                Seq::new(
                    d.len(),
                    |i: int| d[channel_start(d.len() as int, s, i % s) + i / s],
                )
            },
            TransformOp::Repeat { .. } => d,
            TransformOp::Scale { numerator, denominator } => if numerator == 0 {
                d
            } else {
                d.map_values(|v: u8| scaled(v, denominator, numerator))
            },
        }
    }

    /// The transform loses nothing of this block. Only masking, repeating and scaling
    /// ever do.
    pub open spec fn spares(self, d: Seq<u8>) -> bool {
        match self {
            TransformOp::BitMask { mask } => forall|i: int|
                0 <= i < d.len() ==> #[trigger] d[i] & mask == d[i],
            TransformOp::Repeat { factor } => factor <= 1 || d.len() == 0,
            TransformOp::Scale { .. } => self.inverted(self.applied(d)) == d,
            _ => true,
        }
    }
}

// ---------------------------------------------------------------------------
// The law
// ---------------------------------------------------------------------------

proof fn lemma_xor_twice(v: u8, m: u8)
    by (bit_vector)
    ensures
        (v ^ m) ^ m == v,
{
}

proof fn lemma_power(k: int)
    requires
        0 <= k < 8,
    ensures
        power(k) * (256int / power(k)) == 256,
        256int / power(k) > 0,
{
}

proof fn lemma_rotate_parts(v: int, p: int, q: int)
    requires
        p * q == 256,
        p > 0,
        q > 0,
        0 <= v < 256,
    ensures
        v * p / 256 == v / q,
        v * p % 256 == (v % q) * p,
        0 <= v / q < p,
        0 <= (v % q) * p <= 256 - p,
{
    let (hi, lo) = (v / q, v % q);
    vstd::arithmetic::div_mod::lemma_fundamental_div_mod(v, q);
    assert(0 <= lo < q);
    assert(0 <= hi < p) by (nonlinear_arith)
        requires
            v == q * hi + lo,
            p * q == 256,
            0 <= lo < q,
            0 <= v < 256,
    ;
    assert(v * p == 256 * hi + lo * p) by (nonlinear_arith)
        requires
            v == q * hi + lo,
            p * q == 256,
    ;
    assert(0 <= lo * p <= 256 - p) by (nonlinear_arith)
        requires
            p * q == 256,
            0 <= lo <= q - 1,
            p > 0,
    ;
    vstd::arithmetic::div_mod::lemma_fundamental_div_mod_converse(v * p, 256, hi, lo * p);
}

proof fn lemma_rotate(v: u8, k: int)
    requires
        0 <= k < 8,
    ensures
        rotated_back(rotated(v, k), k) == v,
        0 <= v * power(k) % 256 + v * power(k) / 256 < 256,
{
    let p = power(k);
    let q = 256int / p;
    lemma_power(k);
    lemma_rotate_parts(v as int, p, q);
    let (hi, lo) = (v as int / q, v as int % q);
    let r = lo * p + hi;
    assert(rotated(v, k) == r);
    assert(r == p * lo + hi) by (nonlinear_arith)
        requires
            r == lo * p + hi,
    ;
    vstd::arithmetic::div_mod::lemma_fundamental_div_mod_converse(r, p, lo, hi);
    vstd::arithmetic::div_mod::lemma_fundamental_div_mod(v as int, q);
    assert(hi * q + lo == v) by (nonlinear_arith)
        requires
            v == q * hi + lo,
    ;
}

proof fn lemma_summed(d: Seq<u8>, step: i8)
    ensures
        summed((TransformOp::Delta { step }).applied(d), step as int) == d,
    decreases d.len(),
{
    let t = (TransformOp::Delta { step }).applied(d);
    if d.len() > 0 {
        let f = d.drop_last();
        lemma_summed(f, step);
        assert(t.drop_last() =~= (TransformOp::Delta { step }).applied(f));
        let p = previous(f, f.len() as int);
        assert(p == previous(d, d.len() - 1));
        let x = d.last() - p + step;
        assert((x % 256 - step + p) % 256 == d.last());
        assert(f.push(d.last()) =~= d);
    } else {
        assert(summed(t, step as int) =~= d);
    }
}

/// Channels are dealt evenly: byte `i` is byte `i / stride` of channel `i % stride`.
proof fn lemma_dealt(n: int, stride: int, i: int)
    requires
        stride > 0,
        0 <= i < n,
    ensures
        0 <= i % stride < stride,
        0 <= i / stride < channel_len(n, stride, i % stride),
        i / stride * stride + i % stride == i,
{
    vstd::arithmetic::div_mod::lemma_fundamental_div_mod(i, stride);
    vstd::arithmetic::div_mod::lemma_fundamental_div_mod(n, stride);
    let (q, r) = (i / stride, i % stride);
    let (nq, nr) = (n / stride, n % stride);
    assert(0 <= r < stride && 0 <= nr < stride && 0 <= q && q * stride == stride * q)
        by (nonlinear_arith)
        requires
            stride > 0,
            0 <= i,
            q == i / stride,
            r == i % stride,
            nr == n % stride,
    ;
    if q > nq {
        assert(stride * q >= stride * nq + stride) by (nonlinear_arith)
            requires
                q >= nq + 1,
                stride > 0,
        ;
    }
}

/// Every entry of a channel comes from the block.
proof fn lemma_channel_entry(n: int, stride: int, ch: int, r: int)
    requires
        stride > 0,
        n >= 0,
        0 <= ch < stride,
        0 <= r < channel_len(n, stride, ch),
    ensures
        0 <= r * stride + ch < n,
        (r * stride + ch) % stride == ch,
        (r * stride + ch) / stride == r,
{
    vstd::arithmetic::div_mod::lemma_fundamental_div_mod(n, stride);
    vstd::arithmetic::div_mod::lemma_fundamental_div_mod_converse(r * stride + ch, stride, r, ch);
    let (nq, nr) = (n / stride, n % stride);
    assert(0 <= r * stride && r * stride + ch < n) by (nonlinear_arith)
        requires
            stride > 0,
            n == stride * nq + nr,
            0 <= nr,
            0 <= ch < stride,
            0 <= r,
            r < nq || r == nq && ch < nr,
    ;
}

proof fn lemma_channels_len(d: Seq<u8>, stride: int, k: int)
    requires
        stride > 0,
        0 <= k <= stride,
    ensures
        framing::joined(channels(d, stride), k).len() == channel_start(
            d.len() as int,
            stride,
            k,
        ),
    decreases k,
{
    let n = d.len() as int;
    assert(0 <= n / stride && 0 <= n % stride < stride) by (nonlinear_arith)
        requires
            stride > 0,
            n >= 0,
    ;
    if k > 0 {
        lemma_channels_len(d, stride, k - 1);
        assert((k - 1) * (n / stride) + n / stride == k * (n / stride)) by (nonlinear_arith);
    }
}

/// Grouping channels only moves bytes around.
proof fn lemma_grouped_len(d: Seq<u8>, stride: int)
    requires
        stride > 0,
    ensures
        framing::joined(channels(d, stride), stride).len() == d.len(),
{
    let n = d.len() as int;
    lemma_channels_len(d, stride, stride);
    vstd::arithmetic::div_mod::lemma_fundamental_div_mod(n, stride);
    assert(0 <= n % stride < stride) by (nonlinear_arith)
        requires
            stride > 0,
    ;
}

proof fn lemma_joined_at(c: Seq<Seq<u8>>, k: int, ch: int, r: int)
    requires
        0 <= ch < k <= c.len(),
        0 <= r < c[ch].len(),
    ensures
        framing::joined(c, ch).len() + r < framing::joined(c, k).len(),
        framing::joined(c, k)[framing::joined(c, ch).len() + r] == c[ch][r],
    decreases k,
{
    if ch < k - 1 {
        lemma_joined_at(c, k - 1, ch, r);
    }
}

/// What the simple transforms do to each byte.
pub proof fn bytes_are_changed_one_by_one(d: Seq<u8>, v: u8, s: i8, t: i16, i: int)
    requires
        0 <= i < d.len(),
    ensures
        (TransformOp::Xor { mask: v }).applied(d)[i] == d[i] ^ v,
        (TransformOp::Add { value: v }).applied(d)[i] == (d[i] + v) % 256,
        (TransformOp::Subtract { value: v }).applied(d)[i] == (d[i] - v) % 256,
        (TransformOp::Shift { bytes: t }).applied(d)[i] == (d[i] + t) % 256,
        (TransformOp::BitMask { mask: v }).applied(d)[i] == d[i] & v,
        TransformOp::Mirror.applied(d)[i] == d[d.len() - 1 - i],
        (TransformOp::Delta { step: s }).applied(d)[i] == (if i == 0 {
            (d[0] + s) % 256
        } else {
            (d[i] - d[i - 1] + s) % 256
        }),
{
}

/// Doubling a rotated byte, with the carry brought round, rotates it once more.
proof fn lemma_rotate_on(v: int, p: int, q: int)
    requires
        p * (2 * q) == 256,
        p > 0,
        q > 0,
        0 <= v < 256,
    ensures
        ({
            let r = v * p % 256 + v * p / 256;
            &&& 0 <= r < 256
            &&& v * (2 * p) % 256 + v * (2 * p) / 256 == r * 2 % 256 + r * 2 / 256
        }),
{
    lemma_rotate_parts(v, p, 2 * q);
    let (hi, low) = (v / (2 * q), v % (2 * q));
    let lo = low * p;
    let y = v * p;
    assert(y / 256 == hi && y % 256 == lo);
    assert(v * (2 * p) == 2 * y) by (nonlinear_arith)
        requires
            y == v * p,
    ;
    if low < q {
        assert(lo + p <= 128) by (nonlinear_arith)
            requires
                low + 1 <= q,
                p > 0,
                p * (2 * q) == 256,
                lo == low * p,
        ;
    } else {
        assert(lo >= 128) by (nonlinear_arith)
            requires
                low >= q,
                p > 0,
                p * (2 * q) == 256,
                lo == low * p,
        ;
    }
}

/// Rotating by one place brings the top bit to the bottom; rotating further repeats that.
pub proof fn rotations_add_up(v: u8, k: int)
    requires
        0 <= k < 7,
    ensures
        rotated(v, 0) == v,
        rotated(v, 1) == (v as int % 128) * 2 + v as int / 128,
        rotated(v, k + 1) == rotated(rotated(v, k), 1),
{
    let p = power(k);
    let q = 128int / p;
    assert(p * (2 * q) == 256 && power(k + 1) == 2 * p && p > 0 && q > 0);
    lemma_rotate_on(v as int, p, q);
    lemma_rotate(v, k + 1);
    lemma_rotate_parts(v as int, 2, 128);
}

proof fn lemma_difference_wraps(x: int, y: int, step: int)
    ensures
        (x % 256 - y % 256 + step) % 256 == (x - y + step) % 256,
{
    let r = x % 256 - y % 256 + step;
    vstd::arithmetic::div_mod::lemma_fundamental_div_mod(x, 256);
    vstd::arithmetic::div_mod::lemma_fundamental_div_mod(y, 256);
    vstd::arithmetic::div_mod::lemma_mod_multiples_vanish(x / 256 - y / 256, r, 256);
    assert(256 * (x / 256 - y / 256) + r == x - y + step);
}

/// Differences turn a ramp into a constant.
pub proof fn ramps_become_constant(d: Seq<u8>, a: int, s: int, step: i8, i: int)
    requires
        forall|j: int| 0 <= j < d.len() ==> #[trigger] d[j] == (a + j * s) % 256,
        1 <= i < d.len(),
    ensures
        (TransformOp::Delta { step }).applied(d)[i] == (s + step) % 256,
{
    assert(d[i] == (a + i * s) % 256 && d[i - 1] == (a + (i - 1) * s) % 256);
    let (x, y) = (a + i * s, a + (i - 1) * s);
    assert(x - y == s) by (nonlinear_arith)
        requires
            x == a + i * s,
            y == a + (i - 1) * s,
    ;
    lemma_difference_wraps(x, y, step as int);
}

/// Interleaving gathers every `stride`-th byte: byte `i` of the block goes to place
/// `i / stride` of channel `i % stride`, and the channels stand one after the other.
pub proof fn interleaving_gathers_channels(d: Seq<u8>, stride: u8, i: int)
    requires
        stride > 0,
        0 <= i < d.len(),
    ensures
        ({
            let (n, s) = (d.len() as int, stride as int);
            let ch = i % s;
            let start = ch * (n / s) + (if ch < n % s { ch } else { n % s });
            (TransformOp::Interleave { stride }).applied(d)[start + i / s] == d[i]
        }),
{
    let op = TransformOp::Interleave { stride };
    invert_undoes_apply(op, d);
    apply_keeps_length(op, d);
    let t = op.applied(d);
    assert(op.inverted(t)[i] == d[i]);
}

/// Undoing a transform gives back the block, unless the transform loses something
/// of it.
pub proof fn invert_undoes_apply(op: TransformOp, d: Seq<u8>)
    requires
        op.spares(d),
    ensures
        op.inverted(op.applied(d)) == d,
{
    let t = op.applied(d);
    let back = op.inverted(t);
    match op {
        TransformOp::Xor { mask } => {
            assert forall|i: int| 0 <= i < d.len() implies back[i] == d[i] by {
                lemma_xor_twice(d[i], mask);
            }
            assert(back =~= d);
        },
        TransformOp::Delta { step } => {
            lemma_summed(d, step);
        },
        TransformOp::BitRotate { bits } => {
            assert forall|i: int| 0 <= i < d.len() implies back[i] == d[i] by {
                lemma_rotate(d[i], bits as int % 8);
            }
            assert(back =~= d);
        },
        TransformOp::Interleave { stride } => {
            if stride > 0 {
                let s = stride as int;
                let n = d.len() as int;
                let c = channels(d, s);
                lemma_grouped_len(d, s);
                assert forall|i: int| 0 <= i < n implies back[i] == d[i] by {
                    let (ch, r) = (i % s, i / s);
                    lemma_dealt(n, s, i);
                    lemma_channels_len(d, s, ch);
                    lemma_joined_at(c, s, ch, r);
                }
                assert(back =~= d);
            }
        },
        TransformOp::Repeat { factor } => {
            if factor > 1 {
                lemma_repeated_empty(d, factor as int);
            }
        },
        _ => {
            assert(back =~= d);
        },
    }
}

proof fn lemma_repeated_empty(d: Seq<u8>, k: int)
    requires
        d.len() == 0,
    ensures
        repeated(d, k) == d,
    decreases k,
{
    if k > 0 {
        lemma_repeated_empty(d, k - 1);
    }
    assert(repeated(d, k) =~= d);
}

/// All transforms but [`TransformOp::Repeat`] keep the length of the block.
pub proof fn apply_keeps_length(op: TransformOp, d: Seq<u8>)
    requires
        !(op is Repeat),
    ensures
        op.applied(d).len() == d.len(),
{
    if let TransformOp::Interleave { stride } = op {
        if stride > 0 {
            lemma_grouped_len(d, stride as int);
        }
    }
}

// ---------------------------------------------------------------------------
// Transforming
// ---------------------------------------------------------------------------

/// What a transform that works byte by byte makes of `v`.
spec fn byte_after(op: TransformOp, v: u8) -> u8 {
    match op {
        TransformOp::Shift { bytes } => wrap(v + bytes),
        TransformOp::Xor { mask } => v ^ mask,
        TransformOp::BitRotate { bits } => rotated(v, bits as int % 8),
        TransformOp::Add { value } => wrap(v + value),
        TransformOp::Subtract { value } => wrap(v - value),
        TransformOp::BitMask { mask } => v & mask,
        TransformOp::Scale { numerator, denominator } => if denominator == 0 {
            v
        } else {
            scaled(v, numerator, denominator)
        },
        _ => v,
    }
}

/// What undoing a transform that works byte by byte makes of `v`.
spec fn byte_before(op: TransformOp, v: u8) -> u8 {
    match op {
        TransformOp::Shift { bytes } => wrap(v - bytes),
        TransformOp::Xor { mask } => v ^ mask,
        TransformOp::BitRotate { bits } => rotated_back(v, bits as int % 8),
        TransformOp::Add { value } => wrap(v - value),
        TransformOp::Subtract { value } => wrap(v + value),
        TransformOp::Scale { numerator, denominator } => if numerator == 0 {
            v
        } else {
            scaled(v, denominator, numerator)
        },
        _ => v,
    }
}

fn wrap_of(v: i32) -> (r: u8)
    requires
        -0x1_0000 <= v <= 0x1_0000,
    ensures
        r == wrap(v as int),
{
    ((v + 0x10_0000) % 256) as u8
}

fn power_of(k: u8) -> (r: u32)
    requires
        k < 8,
    ensures
        r == power(k as int),
        1 <= r <= 128,
{
    match k {
        0 => 1,
        1 => 2,
        2 => 4,
        3 => 8,
        4 => 16,
        5 => 32,
        6 => 64,
        _ => 128,
    }
}

fn scale(v: u8, num: u8, den: u8) -> (r: u8)
    requires
        den > 0,
    ensures
        r == scaled(v, num, den),
{
    assert(0 <= v * num <= 255 * 255) by (nonlinear_arith)
        requires
            0 <= v <= 255,
            0 <= num <= 255,
    ;
    let x: u32 = v as u32 * num as u32 / den as u32;
    if x < 255 {
        x as u8
    } else {
        255
    }
}

fn change_byte(op: TransformOp, v: u8) -> (r: u8)
    ensures
        r == byte_after(op, v),
{
    match op {
        TransformOp::Shift { bytes } => wrap_of(v as i32 + bytes as i32),
        TransformOp::Xor { mask } => v ^ mask,
        TransformOp::BitRotate { bits } => {
            let p: u32 = power_of(bits % 8);
            assert(0 <= v * p <= 255 * 128) by (nonlinear_arith)
                requires
                    0 <= v <= 255,
                    1 <= p <= 128,
            ;
            let x: u32 = v as u32 * p;
            proof {
                lemma_rotate(v, bits as int % 8);
            }
            (x % 256 + x / 256) as u8
        },
        TransformOp::Add { value } => wrap_of(v as i32 + value as i32),
        TransformOp::Subtract { value } => wrap_of(v as i32 - value as i32),
        TransformOp::BitMask { mask } => v & mask,
        TransformOp::Scale { numerator, denominator } => if denominator == 0 {
            v
        } else {
            scale(v, numerator, denominator)
        },
        _ => v,
    }
}

fn restore_byte(op: TransformOp, v: u8) -> (r: u8)
    ensures
        r == byte_before(op, v),
{
    match op {
        TransformOp::Shift { bytes } => wrap_of(v as i32 - bytes as i32),
        TransformOp::Xor { mask } => v ^ mask,
        TransformOp::BitRotate { bits } => {
            let p: u32 = power_of(bits % 8);
            let x: u32 = v as u32;
            let ghost q = 256int / p as int;
            proof {
                lemma_power(bits as int % 8);
            }
            let ghost (a, b) = (x as int / p as int, x as int % p as int);
            assert(x == a * p + b && 0 <= b <= p - 1 && 0 <= a < q) by (nonlinear_arith)
                requires
                    p * q == 256,
                    1 <= p,
                    0 <= x < 256,
                    a == x as int / p as int,
                    b == x as int % p as int,
            ;
            assert(0 <= b * q <= 256 - q) by (nonlinear_arith)
                requires
                    p * q == 256,
                    0 <= b <= p - 1,
                    q > 0,
            ;
            (x / p + x % p * (256 / p)) as u8
        },
        TransformOp::Add { value } => wrap_of(v as i32 - value as i32),
        TransformOp::Subtract { value } => wrap_of(v as i32 + value as i32),
        TransformOp::Scale { numerator, denominator } => if numerator == 0 {
            v
        } else {
            scale(v, denominator, numerator)
        },
        _ => v,
    }
}

/// Group the bytes of each channel together.
fn group(data: &[u8], stride: usize) -> (out: Vec<u8>)
    requires
        1 <= stride <= 255,
    ensures
        out@ == framing::joined(channels(data@, stride as int), stride as int),
{
    let n: usize = data.len();
    let ghost d = data@;
    let ghost s = stride as int;
    let ghost c = channels(d, s);
    let mut out: Vec<u8> = Vec::new();
    let mut ch: usize = 0;
    while ch < stride
        invariant
            n == data@.len(),
            d == data@,
            s == stride,
            1 <= s <= 255,
            ch <= stride,
            c == channels(d, s),
            out@ == framing::joined(c, ch as int),
        decreases stride - ch,
    {
        let ghost before = out@;
        let mut r: usize = 0;
        let mut at: usize = ch;
        assert(n % stride > 0 ==> n / stride < n) by (nonlinear_arith)
            requires
                stride >= 1,
                n >= 0,
        ;
        let len: usize = n / stride + if ch < n % stride {
            1
        } else {
            0
        };
        while r < len
            invariant
                n == data@.len(),
                d == data@,
                s == stride,
                1 <= s <= 255,
                ch < stride,
                c == channels(d, s),
                len == channel_len(n as int, s, ch as int) == c[ch as int].len(),
                r <= len,
                r < len ==> at == r * s + ch,
                out@ == before + c[ch as int].take(r as int),
            decreases len - r,
        {
            proof {
                lemma_channel_entry(n as int, s, ch as int, r as int);
                if r + 1 < len {
                    lemma_channel_entry(n as int, s, ch as int, r + 1);
                    assert((r + 1) * s + ch == r * s + ch + s) by (nonlinear_arith);
                }
            }
            out.push(data[at]);
            r = r + 1;
            if r < len {
                at = at + stride;
            }
            assert(out@ =~= before + c[ch as int].take(r as int));
        }
        assert(c[ch as int].take(len as int) =~= c[ch as int]);
        ch = ch + 1;
    }
    out
}

/// Deal grouped channels out again.
fn ungroup(data: &[u8], stride: usize) -> (out: Vec<u8>)
    requires
        1 <= stride <= 255,
    ensures
        out@ == (TransformOp::Interleave { stride: stride as u8 }).inverted(data@),
{
    let n: usize = data.len();
    let ghost s = stride as int;
    let ghost goal = (TransformOp::Interleave { stride: stride as u8 }).inverted(data@);
    let items: usize = n / stride;
    let rem: usize = n % stride;
    let mut out: Vec<u8> = Vec::new();
    let mut i: usize = 0;
    while i < n
        invariant
            n == data@.len(),
            s == stride,
            1 <= s <= 255,
            items == n as int / s,
            rem == n as int % s,
            goal == (TransformOp::Interleave { stride: stride as u8 }).inverted(data@),
            i <= n,
            out@ == goal.take(i as int),
        decreases n - i,
    {
        let ch: usize = i % stride;
        let row: usize = i / stride;
        proof {
            lemma_dealt(n as int, s, i as int);
            lemma_grouped_at(n as int, s, ch as int, row as int);
        }
        let skew: usize = if ch < rem {
            ch
        } else {
            rem
        };
        out.push(data[ch * items + skew + row]);
        assert(out@ =~= goal.take(i + 1));
        i = i + 1;
    }
    assert(goal.take(n as int) =~= goal);
    out
}

/// Entries of a channel stand inside the grouped block.
proof fn lemma_grouped_at(n: int, stride: int, ch: int, r: int)
    requires
        stride > 0,
        n >= 0,
        0 <= ch < stride,
        0 <= r < channel_len(n, stride, ch),
    ensures
        0 <= ch * (n / stride),
        0 <= channel_start(n, stride, ch) + r < n,
{
    vstd::arithmetic::div_mod::lemma_fundamental_div_mod(n, stride);
    let (q, m) = (n / stride, n % stride);
    assert(0 <= q && 0 <= m < stride) by (nonlinear_arith)
        requires
            stride > 0,
            n >= 0,
            q == n / stride,
            m == n % stride,
    ;
    assert(0 <= ch * q && ch * q + q <= stride * q) by (nonlinear_arith)
        requires
            0 <= ch,
            ch + 1 <= stride,
            q >= 0,
    ;
}

impl TransformOp {
    /// Apply the transform to a block, in place.
    pub fn apply(&self, data: &mut Vec<u8>)
        requires
            *self matches TransformOp::Repeat { factor } ==> old(data)@.len() * factor
                <= usize::MAX,
        ensures
            final(data)@ == self.applied(old(data)@),
    {
        let op = *self;
        let ghost d = data@;
        match op {
            TransformOp::Delta { step } => {
                let mut prev: u8 = 0;
                let mut i: usize = 0;
                while i < data.len()
                    invariant
                        i <= data@.len() == d.len(),
                        prev == previous(d, i as int),
                        forall|j: int|
                            0 <= j < d.len() ==> #[trigger] data@[j] == (if j < i {
                                wrap(d[j] - previous(d, j) + step)
                            } else {
                                d[j]
                            }),
                    decreases data@.len() - i,
                {
                    let v = data[i];
                    data[i] = wrap_of(v as i32 - prev as i32 + step as i32);
                    prev = v;
                    i = i + 1;
                }
            },
            TransformOp::Mirror => {
                reverse(data);
            },
            TransformOp::Interleave { stride } => {
                if stride > 0 {
                    *data = group(data.as_slice(), stride as usize);
                }
            },
            TransformOp::Repeat { factor } => {
                if factor > 1 {
                    let mut out: Vec<u8> = Vec::new();
                    let mut k: u8 = 0;
                    while k < factor
                        invariant
                            k <= factor,
                            data@ == d,
                            out@ == repeated(d, k as int),
                        decreases factor - k,
                    {
                        out.extend_from_slice(data.as_slice());
                        k = k + 1;
                    }
                    *data = out;
                }
            },
            _ => {
                let mut i: usize = 0;
                while i < data.len()
                    invariant
                        i <= data@.len() == d.len(),
                        forall|j: int|
                            0 <= j < d.len() ==> #[trigger] data@[j] == (if j < i {
                                byte_after(op, d[j])
                            } else {
                                d[j]
                            }),
                    decreases data@.len() - i,
                {
                    data[i] = change_byte(op, data[i]);
                    i = i + 1;
                }
            },
        }
        assert(data@ =~= op.applied(d));
    }

    /// Undo a transform of a block, in place.
    pub fn invert(&self, data: &mut Vec<u8>)
        ensures
            final(data)@ == self.inverted(old(data)@),
    {
        let op = *self;
        let ghost d = data@;
        match op {
            TransformOp::Delta { step } => {
                let mut prev: u8 = 0;
                let mut i: usize = 0;
                assert(d.take(0) =~= Seq::empty());
                while i < data.len()
                    invariant
                        i <= data@.len() == d.len(),
                        data@.take(i as int) == summed(d.take(i as int), step as int),
                        prev == previous(data@, i as int),
                        forall|j: int| i <= j < d.len() ==> #[trigger] data@[j] == d[j],
                    decreases data@.len() - i,
                {
                    let ghost was = data@;
                    let v = wrap_of(data[i] as i32 - step as i32 + prev as i32);
                    data[i] = v;
                    prev = v;
                    proof {
                        let front = was.take(i as int);
                        assert(d.take(i + 1).drop_last() =~= d.take(i as int));
                        assert(previous(front, i as int) == previous(was, i as int));
                        assert(data@.take(i + 1) =~= front.push(v));
                    }
                    i = i + 1;
                }
                assert(d.take(d.len() as int) =~= d);
                assert(data@.take(d.len() as int) =~= data@);
            },
            TransformOp::Mirror => {
                reverse(data);
            },
            TransformOp::Interleave { stride } => {
                if stride > 0 {
                    *data = ungroup(data.as_slice(), stride as usize);
                }
            },
            TransformOp::BitMask { .. } => {},
            TransformOp::Repeat { .. } => {},
            _ => {
                let mut i: usize = 0;
                while i < data.len()
                    invariant
                        i <= data@.len() == d.len(),
                        forall|j: int|
                            0 <= j < d.len() ==> #[trigger] data@[j] == (if j < i {
                                byte_before(op, d[j])
                            } else {
                                d[j]
                            }),
                    decreases data@.len() - i,
                {
                    data[i] = restore_byte(op, data[i]);
                    i = i + 1;
                }
            },
        }
        assert(data@ =~= op.inverted(d));
    }
}

/// Reverse a block in place.
fn reverse(data: &mut Vec<u8>)
    ensures
        final(data)@ == old(data)@.reverse(),
{
    let ghost d = data@;
    let n: usize = data.len();
    let mut i: usize = 0;
    while i < n / 2
        invariant
            n == data@.len() == d.len(),
            i <= n / 2,
            forall|j: int|
                0 <= j < n ==> #[trigger] data@[j] == (if j < i || j >= n - i {
                    d[n - 1 - j]
                } else {
                    d[j]
                }),
        decreases n / 2 - i,
    {
        let a = data[i];
        let b = data[n - 1 - i];
        data[i] = b;
        data[n - 1 - i] = a;
        i = i + 1;
    }
    assert(data@ =~= d.reverse());
}

} // verus!
