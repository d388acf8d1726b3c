//! Bit-level reading and writing, least significant bit first.
use vstd::arithmetic::power2::*;
use vstd::bits::*;
use vstd::prelude::*;

verus! {

// ---------------------------------------------------------------------------
// Bits
// ---------------------------------------------------------------------------

/// The `n` low bits of `v`, least significant first.
pub open spec fn bits_of(v: nat, n: nat) -> Seq<bool>
    decreases n,
{
    if n == 0 {
        Seq::empty()
    } else {
        seq![v % 2 == 1] + bits_of(v / 2, (n - 1) as nat)
    }
}

/// The number that bits stand for, least significant first.
pub open spec fn value(b: Seq<bool>) -> nat
    decreases b.len(),
{
    if b.len() == 0 {
        0
    } else {
        (if b[0] { 1nat } else { 0nat }) + 2 * value(b.drop_first())
    }
}

/// The bits of bytes, in order.
pub open spec fn unpacked(bytes: Seq<u8>) -> Seq<bool>
    decreases bytes.len(),
{
    if bytes.len() == 0 {
        Seq::empty()
    } else {
        bits_of(bytes[0] as nat, 8) + unpacked(bytes.drop_first())
    }
}

/// Bits packed into bytes, the last one padded with zeros.
pub open spec fn packed(b: Seq<bool>) -> Seq<u8>
    decreases b.len(),
{
    if b.len() == 0 {
        Seq::empty()
    } else if b.len() <= 8 {
        seq![value(b) as u8]
    } else {
        seq![value(b.take(8)) as u8] + packed(b.skip(8))
    }
}

proof fn lemma_value_bit(b: Seq<bool>, j: nat)
    requires
        j < b.len(),
    ensures
        (value(b) / pow2(j) % 2 == 1) == b[j as int],
    decreases b.len(),
{
    let rest = b.drop_first();
    lemma_pow2_pos(j);
    if j == 0 {
        lemma2_to64();
        assert(pow2(0) == 1);
        assert(value(b) / 1 == value(b));
        assert(value(b) == (if b[0] { 1nat } else { 0nat }) + 2 * value(rest));
    } else {
        let i = (j - 1) as nat;
        assert(rest[i as int] == b[j as int]);
        lemma_value_bit(rest, i);
        lemma_pow2_unfold(j);
        lemma_pow2_pos(i);
        vstd::arithmetic::div_mod::lemma_div_denominator(value(b) as int, 2, pow2(i) as int);
        assert(value(b) / 2 == value(rest));
        assert(value(b) as int / (2 * pow2(i)) as int == value(rest) as int / pow2(i) as int);
        assert(value(b) / pow2(j) == value(rest) / pow2(i));
    }
}

proof fn lemma_value_small(b: Seq<bool>)
    requires
        b.len() <= 8,
    ensures
        value(b) < 256,
        value(b) < pow2(b.len()),
    decreases b.len(),
{
    lemma2_to64();
    if b.len() > 0 {
        lemma_value_small(b.drop_first());
        lemma_pow2_unfold(b.len());
    }
    if b.len() < 8 {
        lemma_pow2_strictly_increases(b.len(), 8);
    }
}

/// Bits fill bytes from the bottom: bit `i` is bit `i % 8` of byte `i / 8`, the least
/// significant first.
pub proof fn bits_fill_bytes_from_the_bottom(b: Seq<bool>, i: nat)
    requires
        i < b.len(),
    ensures
        i / 8 < packed(b).len(),
        (packed(b)[i as int / 8] as nat / pow2(i % 8) % 2 == 1) == b[i as int],
        packed(b).len() == (b.len() + 7) / 8,
    decreases b.len(),
{
    if b.len() <= 8 {
        lemma_value_bit(b, i);
        lemma_value_small(b);
    } else {
        let (head, tail) = (b.take(8), b.skip(8));
        lemma_value_small(head);
        if i < 8 {
            lemma_value_bit(head, i);
            bits_fill_bytes_from_the_bottom(tail, 0);
        } else {
            bits_fill_bytes_from_the_bottom(tail, (i - 8) as nat);
            assert((i - 8) / 8 == i / 8 - 1 && (i - 8) % 8 == i % 8);
        }
    }
}

pub proof fn lemma_bits_len(v: nat, n: nat)
    ensures
        bits_of(v, n).len() == n,
    decreases n,
{
    if n > 0 {
        lemma_bits_len(v / 2, (n - 1) as nat);
    }
}

/// `k` bits stand for a number below `2^k`.
proof fn lemma_value_bound(b: Seq<bool>)
    ensures
        value(b) < pow2(b.len()),
    decreases b.len(),
{
    lemma_pow2_pos(b.len());
    if b.len() > 0 {
        lemma_value_bound(b.drop_first());
        lemma_pow2_unfold(b.len());
    }
}

/// The bits of a number stand for its remainder.
pub proof fn lemma_value_of_bits(v: nat, n: nat)
    ensures
        value(bits_of(v, n)) == v % pow2(n),
    decreases n,
{
    lemma_pow2_pos(n);
    if n > 0 {
        lemma_value_of_bits(v / 2, (n - 1) as nat);
        lemma_pow2_unfold(n);
        lemma_pow2_pos((n - 1) as nat);
        let m = pow2((n - 1) as nat);
        let b = bits_of(v, n);
        assert(b.drop_first() =~= bits_of(v / 2, (n - 1) as nat));
        assert(v as int % (2 * m) as int == v as int % 2 + 2 * ((v as int / 2) % m as int)) by {
            vstd::arithmetic::div_mod::lemma_mod_breakdown(v as int, 2, m as int);
        }
    } else {
        lemma2_to64();
    }
}

/// The bits of the number that bits stand for are these bits.
pub proof fn lemma_bits_of_value(b: Seq<bool>)
    ensures
        bits_of(value(b), b.len()) == b,
    decreases b.len(),
{
    if b.len() > 0 {
        lemma_bits_of_value(b.drop_first());
        let v = value(b);
        assert(v / 2 == value(b.drop_first()));
        assert(seq![b[0]] + b.drop_first() =~= b);
    } else {
        assert(b =~= Seq::empty());
    }
}

/// The bits of a number in two parts.
proof fn lemma_bits_split(v: nat, a: nat, b: nat)
    ensures
        bits_of(v, a + b) == bits_of(v, a) + bits_of(v / pow2(a), b),
    decreases a,
{
    lemma_pow2_pos(a);
    if a > 0 {
        lemma_bits_split(v / 2, (a - 1) as nat, b);
        lemma_pow2_unfold(a);
        lemma_pow2_pos((a - 1) as nat);
        vstd::arithmetic::div_mod::lemma_div_denominator(
            v as int,
            2,
            pow2((a - 1) as nat) as int,
        );
        assert(bits_of(v, a + b) =~= bits_of(v, a) + bits_of(v / pow2(a), b));
    } else {
        lemma2_to64();
        assert(v / 1 == v);
        assert(bits_of(v, b) =~= Seq::empty() + bits_of(v, b));
    }
}

/// Only the low bits matter.
proof fn lemma_bits_low(v: nat, n: nat, w: nat)
    requires
        v % pow2(n) == w % pow2(n),
    ensures
        bits_of(v, n) == bits_of(w, n),
{
    lemma_value_of_bits(v, n);
    lemma_value_of_bits(w, n);
    lemma_bits_of_value(bits_of(v, n));
    lemma_bits_of_value(bits_of(w, n));
    lemma_bits_len(v, n);
    lemma_bits_len(w, n);
}

/// Bits `v` below `2^a` followed by the low bits of `w`.
proof fn lemma_bits_join(v: nat, a: nat, w: nat, b: nat)
    requires
        v < pow2(a),
    ensures
        bits_of((v + w % pow2(b) * pow2(a)) as nat, a + b) == bits_of(v, a) + bits_of(w, b),
        v + w % pow2(b) * pow2(a) < pow2(a + b),
{
    let (p, q) = (pow2(a), pow2(b));
    lemma_pow2_pos(a);
    lemma_pow2_pos(b);
    lemma_pow2_adds(a, b);
    let r = w % q;
    let x = (v + r * p) as nat;
    lemma_bits_split(x, a, b);
    assert(x / p == r && x % p == v) by (nonlinear_arith)
        requires
            x == v + r * p,
            0 <= v < p,
    ;
    assert(v as int % p as int == v) by (nonlinear_arith)
        requires
            0 <= v < p,
    ;
    assert(r as int % q as int == r) by (nonlinear_arith)
        requires
            0 <= r < q,
    ;
    lemma_bits_low(x, a, v);
    lemma_bits_low(r, b, w);
    assert(v + r * p < p * q) by (nonlinear_arith)
        requires
            v < p,
            r <= q - 1,
    ;
}

proof fn lemma_unpacked_push(bytes: Seq<u8>, x: u8)
    ensures
        unpacked(bytes.push(x)) == unpacked(bytes) + bits_of(x as nat, 8),
    decreases bytes.len(),
{
    if bytes.len() > 0 {
        lemma_unpacked_push(bytes.drop_first(), x);
        assert(bytes.push(x).drop_first() =~= bytes.drop_first().push(x));
        assert(unpacked(bytes.push(x)) =~= unpacked(bytes) + bits_of(x as nat, 8));
    } else {
        assert(bytes.push(x).drop_first() =~= Seq::empty());
        assert(unpacked(bytes.push(x).drop_first()) =~= Seq::empty());
        assert(unpacked(bytes.push(x)) =~= unpacked(bytes) + bits_of(x as nat, 8));
    }
}

proof fn lemma_unpacked_len(bytes: Seq<u8>)
    ensures
        unpacked(bytes).len() == 8 * bytes.len(),
    decreases bytes.len(),
{
    if bytes.len() > 0 {
        lemma_bits_len(bytes[0] as nat, 8);
        lemma_unpacked_len(bytes.drop_first());
    }
}

/// Whole bytes are packed as they are.
proof fn lemma_packed_bytes(bytes: Seq<u8>, tail: Seq<bool>)
    requires
        tail.len() < 8,
    ensures
        packed(unpacked(bytes) + tail) == bytes + packed(tail),
    decreases bytes.len(),
{
    let b = unpacked(bytes) + tail;
    if bytes.len() > 0 {
        let x = bytes[0];
        let more = bytes.drop_first();
        lemma_packed_bytes(more, tail);
        lemma_bits_len(x as nat, 8);
        lemma_value_of_bits(x as nat, 8);
        lemma2_to64();
        lemma_unpacked_len(more);
        assert(b.take(8) =~= bits_of(x as nat, 8));
        assert(b.skip(8) =~= unpacked(more) + tail);
        if b.len() <= 8 {
            assert(more.len() == 0 && tail.len() == 0);
            assert(b =~= bits_of(x as nat, 8));
        }
        assert(packed(b) =~= bytes + packed(tail));
    } else {
        assert(b =~= tail);
        assert(bytes + packed(tail) =~= packed(tail));
    }
}

/// Packing loses no bit: unpacking gives the bits back, followed by less than a byte
/// of padding.
pub proof fn packing_round_trip(b: Seq<bool>)
    ensures
        unpacked(packed(b)).len() < b.len() + 8,
        unpacked(packed(b)).len() >= b.len(),
        unpacked(packed(b)).take(b.len() as int) == b,
    decreases b.len(),
{
    lemma2_to64();
    if b.len() > 8 {
        let (a, c) = (b.take(8), b.skip(8));
        packing_round_trip(c);
        lemma_value_bound(a);
        lemma_bits_of_value(a);
        assert(packed(b).drop_first() =~= packed(c));
        let u = unpacked(packed(b));
        assert(u == a + unpacked(packed(c)));
        assert(u.take(b.len() as int) =~= a + unpacked(packed(c)).take(c.len() as int));
        assert(a + c =~= b);
    } else if b.len() > 0 {
        lemma_value_bound(b);
        if b.len() < 8 {
            lemma_pow2_strictly_increases(b.len(), 8);
        }
        let v = value(b);
        lemma_bits_split(v, b.len(), (8 - b.len()) as nat);
        lemma_bits_of_value(b);
        lemma_bits_len(v, 8);
        assert(packed(b).drop_first() =~= Seq::empty());
        assert(unpacked(packed(b).drop_first()) =~= Seq::empty());
        let u = unpacked(packed(b));
        assert(u =~= bits_of(v, 8));
        assert(u.take(b.len() as int) =~= b);
    } else {
        assert(unpacked(packed(b)).take(0) =~= b);
    }
}

/// A number written in `n` bits is read back, whatever follows.
pub proof fn bits_round_trip(v: nat, n: nat, rest: Seq<bool>)
    requires
        v < pow2(n),
    ensures
        value((bits_of(v, n) + rest).take(n as int)) == v,
        (bits_of(v, n) + rest).skip(n as int) == rest,
{
    lemma_bits_len(v, n);
    lemma_value_of_bits(v, n);
    assert((bits_of(v, n) + rest).take(n as int) =~= bits_of(v, n));
    assert((bits_of(v, n) + rest).skip(n as int) =~= rest);
    assert(v as int % pow2(n) as int == v) by (nonlinear_arith)
        requires
            0 <= v < pow2(n),
    ;
}

// ---------------------------------------------------------------------------
// Writer
// ---------------------------------------------------------------------------

fn power(n: u8) -> (r: u64)
    requires
        n <= 56,
    ensures
        r == pow2(n as nat),
        1 <= r <= 0x100_0000_0000_0000,
{
    proof {
        lemma2_to64();
        lemma2_to64_rest();
        lemma_pow2_pos(n as nat);
        if n < 56 {
            lemma_pow2_strictly_increases(n as nat, 56);
        }
        lemma_u64_shl_is_mul(1, n as u64);
    }
    1u64 << n
}

/// Collects bits into bytes.
pub struct BitWriter {
    buf: Vec<u8>,
    pending: u64,
    bits_in_pending: u8,
}

impl View for BitWriter {
    type V = Seq<bool>;

    /// The bits written so far.
    closed spec fn view(&self) -> Seq<bool> {
        unpacked(self.buf@) + bits_of(self.pending as nat, self.bits_in_pending as nat)
    }
}

impl BitWriter {
    /// Less than a byte is pending.
    pub closed spec fn wf(self) -> bool {
        self.bits_in_pending < 8 && self.pending < pow2(self.bits_in_pending as nat)
    }

    /// A writer that has written nothing.
    pub fn new() -> (w: BitWriter)
        ensures
            w@ == Seq::<bool>::empty(),
            w.wf(),
    {
        let w = BitWriter { buf: Vec::new(), pending: 0, bits_in_pending: 0 };
        proof {
            lemma2_to64();
        }
        assert(w@ =~= Seq::empty());
        w
    }

    /// Write the `n` low bits of `value`.
    pub fn write_bits(&mut self, value: u64, n: u8)
        requires
            old(self).wf(),
            n <= 56,
        ensures
            final(self)@ == old(self)@ + bits_of(value as nat, n as nat),
            final(self).wf(),
    {
        let ghost (v, a) = (self.pending as nat, self.bits_in_pending as nat);
        let ghost before = unpacked(self.buf@);
        let ghost goal = self@ + bits_of(value as nat, n as nat);
        let p = power(n);
        let q = power(self.bits_in_pending);
        proof {
            lemma_bits_join(v, a, value as nat, n as nat);
            lemma2_to64();
            lemma2_to64_rest();
            if a + n < 63 {
                lemma_pow2_strictly_increases((a + n) as nat, 63);
            }
            assert(0 <= (value % p) * q) by (nonlinear_arith)
                requires
                    p >= 1,
                    q >= 1,
                    value >= 0,
            ;
        }
        self.pending = self.pending + value % p * q;
        self.bits_in_pending = self.bits_in_pending + n;
        assert(self@ =~= goal);
        while self.bits_in_pending >= 8
            invariant
                self.bits_in_pending <= 63,
                self.pending < pow2(self.bits_in_pending as nat),
                self@ == goal,
            decreases self.bits_in_pending,
        {
            let ghost (x, k) = (self.pending as nat, self.bits_in_pending as nat);
            let ghost was = unpacked(self.buf@);
            proof {
                lemma2_to64();
                lemma_bits_split(x, 8, (k - 8) as nat);
                lemma_bits_low(x, 8, x % 256);
                lemma_unpacked_push(self.buf@, (x % 256) as u8);
                lemma_pow2_adds(8, (k - 8) as nat);
            }
            self.buf.push((self.pending % 256) as u8);
            self.pending = self.pending / 256;
            self.bits_in_pending = self.bits_in_pending - 8;
            assert(self@ =~= was + (bits_of(x, 8) + bits_of(x / 256, (k - 8) as nat)));
        }
    }

    /// The written bits as bytes, the last one padded with zeros.
    pub fn finish(self) -> (r: Vec<u8>)
        requires
            self.wf(),
        ensures
            r@ == packed(self@),
    {
        let ghost tail = bits_of(self.pending as nat, self.bits_in_pending as nat);
        proof {
            lemma_bits_len(self.pending as nat, self.bits_in_pending as nat);
            lemma_packed_bytes(self.buf@, tail);
            lemma_value_of_bits(self.pending as nat, self.bits_in_pending as nat);
            lemma2_to64();
            lemma_pow2_pos(self.bits_in_pending as nat);
            lemma_pow2_strictly_increases(self.bits_in_pending as nat, 8);
            assert(self.pending as int % pow2(self.bits_in_pending as nat) as int == self.pending)
                by (nonlinear_arith)
                requires
                    0 <= self.pending < pow2(self.bits_in_pending as nat),
            ;
        }
        let mut buf = self.buf;
        if self.bits_in_pending > 0 {
            buf.push(self.pending as u8);
        }
        assert(buf@ =~= self.buf@ + packed(tail));
        buf
    }
}

// ---------------------------------------------------------------------------
// Reader
// ---------------------------------------------------------------------------

/// Hands out the bits of bytes.
pub struct BitReader<'a> {
    data: &'a [u8],
    pos_byte: usize,
    pending: u64,
    bits_in_pending: u8,
}

impl<'a> View for BitReader<'a> {
    type V = Seq<bool>;

    /// The bits not read yet.
    closed spec fn view(&self) -> Seq<bool> {
        bits_of(self.pending as nat, self.bits_in_pending as nat) + unpacked(
            self.data@.skip(self.pos_byte as int),
        )
    }
}

impl<'a> BitReader<'a> {
    /// What is pending fits in a word.
    pub closed spec fn wf(self) -> bool {
        &&& self.bits_in_pending <= 63
        &&& self.pending < pow2(self.bits_in_pending as nat)
        &&& self.pos_byte <= self.data@.len()
    }

    /// A reader at the start of `data`.
    pub fn new(data: &'a [u8]) -> (r: BitReader<'a>)
        ensures
            r@ == unpacked(data@),
            r.wf(),
    {
        let r = BitReader { data, pos_byte: 0, pending: 0, bits_in_pending: 0 };
        proof {
            lemma2_to64();
            assert(data@.skip(0) =~= data@);
        }
        assert(r@ =~= unpacked(data@));
        r
    }

    /// Read `n` bits; `None`, with nothing read, if there are not that many left.
    pub fn read_bits(&mut self, n: u8) -> (r: Option<u64>)
        requires
            old(self).wf(),
            n <= 56,
        ensures
            final(self).wf(),
            match r {
                Some(v) => {
                    &&& n <= old(self)@.len()
                    &&& v == value(old(self)@.take(n as int))
                    &&& final(self)@ == old(self)@.skip(n as int)
                },
                None => n > old(self)@.len() && final(self)@ == old(self)@,
            },
    {
        let ghost all = self@;
        while self.bits_in_pending < n
            invariant
                self.wf(),
                n <= 56,
                self@ == all,
                all == old(self)@,
            decreases 64 - self.bits_in_pending,
        {
            let ghost (x, k) = (self.pending as nat, self.bits_in_pending as nat);
            let ghost rest = self.data@.skip(self.pos_byte as int);
            proof {
                lemma_bits_len(x, k);
                lemma_unpacked_len(rest);
            }
            if self.pos_byte >= self.data.len() {
                return None;
            }
            let b = self.data[self.pos_byte];
            let q = power(self.bits_in_pending);
            proof {
                lemma2_to64();
                lemma2_to64_rest();
                lemma_bits_join(x, k, b as nat, 8);
                lemma_pow2_adds(k, 8);
                if k + 8 < 63 {
                    lemma_pow2_strictly_increases((k + 8) as nat, 63);
                }
                assert(0 <= b * q) by (nonlinear_arith)
                    requires
                        b >= 0,
                        q >= 1,
                ;
                assert(rest[0] == b);
                assert(rest.drop_first() =~= self.data@.skip(self.pos_byte + 1));
            }
            self.pending = self.pending + b as u64 * q;
            self.bits_in_pending = self.bits_in_pending + 8;
            self.pos_byte = self.pos_byte + 1;
            assert(self@ =~= bits_of(x, k) + (bits_of(b as nat, 8) + unpacked(
                rest.drop_first(),
            )));
            assert(self@ =~= all);
        }
        let ghost (x, k) = (self.pending as nat, self.bits_in_pending as nat);
        let ghost rest = unpacked(self.data@.skip(self.pos_byte as int));
        let p = power(n);
        let out: u64 = self.pending % p;
        proof {
            lemma_bits_split(x, n as nat, (k - n) as nat);
            lemma_bits_len(x, n as nat);
            lemma_bits_len(x, k);
            lemma_value_of_bits(x, n as nat);
            lemma_pow2_adds(n as nat, (k - n) as nat);
            let (a, c) = (pow2(n as nat), pow2((k - n) as nat));
            assert(x as int / a as int <= x && x / a < c) by (nonlinear_arith)
                requires
                    0 <= x < a * c,
                    a >= 1,
            ;
            assert(all.take(n as int) =~= bits_of(x, n as nat));
        }
        self.pending = self.pending / p;
        self.bits_in_pending = self.bits_in_pending - n;
        assert(self@ =~= all.skip(n as int));
        Some(out)
    }
}

} // verus!
