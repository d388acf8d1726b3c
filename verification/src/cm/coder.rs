//! Carryless binary arithmetic coder.
//!
//! One bit is coded at a time under a 12-bit probability `p = P(bit == 1)` with
//! `1 <= p <= 4095`. The interval `[lo, hi]` is split at
//! `mid = lo + (hi - lo) / 4096 * p`; a set bit keeps the lower part, a clear bit
//! the upper one. Whenever both ends agree on their top byte that byte is final:
//! it is emitted and the interval widens by a factor of 256.
use vstd::arithmetic::power::*;
use vstd::prelude::*;

verus! {

/// The interval both sides of the coder narrow in lockstep.
pub struct Interval {
    pub lo: int,
    pub hi: int,
}

impl Interval {
    /// The interval before the first bit.
    pub open spec fn full() -> Interval {
        Interval { lo: 0, hi: 0x1_0000_0000 - 1 }
    }

    /// A non-empty interval of 32-bit values.
    pub open spec fn wf(self) -> bool {
        0 <= self.lo <= self.hi < 0x1_0000_0000
    }

    /// Both ends carry the same top byte.
    pub open spec fn agrees(self) -> bool {
        self.lo / 0x100_0000 == self.hi / 0x100_0000
    }

    /// Ready to code a bit: non-empty and with no byte left to emit.
    pub open spec fn settled(self) -> bool {
        self.wf() && !self.agrees()
    }

    /// Number of values in the interval.
    pub open spec fn width(self) -> int {
        self.hi - self.lo + 1
    }

    /// Where probability `p` splits the interval.
    pub open spec fn mid(self, p: int) -> int {
        self.lo + (self.hi - self.lo) / 4096 * p
    }

    /// The part of the interval that stands for `bit`.
    pub open spec fn narrow(self, bit: bool, p: int) -> Interval {
        if bit {
            Interval { lo: self.lo, hi: self.mid(p) }
        } else {
            Interval { lo: self.mid(p) + 1, hi: self.hi }
        }
    }

    /// The interval after its common top byte has been emitted.
    pub open spec fn shifted(self) -> Interval {
        Interval { lo: self.lo % 0x100_0000 * 256, hi: self.hi % 0x100_0000 * 256 + 255 }
    }

    /// Every byte that is final for this interval, first byte first.
    pub open spec fn flushed(self) -> Seq<u8>
        decreases 0x1_0000_0000 - self.width() when self.wf()
    {
        if self.agrees() {
            seq![(self.hi / 0x100_0000) as u8] + self.shifted().flushed()
        } else {
            Seq::empty()
        }
    }

    /// The interval once all its final bytes have been emitted.
    pub open spec fn renormed(self) -> Interval
        decreases 0x1_0000_0000 - self.width() when self.wf()
    {
        if self.agrees() {
            self.shifted().renormed()
        } else {
            self
        }
    }

    /// One coding step: the bytes it emits.
    pub open spec fn emitted(self, bit: bool, p: int) -> Seq<u8> {
        self.narrow(bit, p).flushed()
    }

    /// One coding step: the interval it leaves.
    pub open spec fn coded(self, bit: bool, p: int) -> Interval {
        self.narrow(bit, p).renormed()
    }
}

/// A 12-bit probability the coder accepts.
pub open spec fn valid_prob(p: int) -> bool {
    1 <= p <= 4095
}

/// Big-endian bytes of a 32-bit value.
pub open spec fn be_bytes(v: int) -> Seq<u8> {
    seq![(v / 0x100_0000) as u8, (v / 0x1_0000 % 256) as u8, (v / 256 % 256) as u8, (v % 256) as u8]
}

/// The byte stream for `items`, pairs of a bit and its probability, coded from
/// interval `s`: what each bit emits, then the four bytes of the lower end.
pub open spec fn code(s: Interval, items: Seq<(bool, int)>) -> Seq<u8>
    decreases items.len(),
{
    if items.len() == 0 {
        be_bytes(s.lo)
    } else {
        s.emitted(items[0].0, items[0].1) + code(
            s.coded(items[0].0, items[0].1),
            items.drop_first(),
        )
    }
}

/// An endless byte stream, as the decoder sees its input.
pub type Stream = spec_fn(nat) -> u8;

/// `bytes` followed by zeros.
pub open spec fn stream_of(bytes: Seq<u8>) -> Stream {
    |i: nat| if i < bytes.len() { bytes[i as int] } else { 0u8 }
}

/// The stream without its first `k` bytes.
pub open spec fn advance(s: Stream, k: nat) -> Stream {
    |i: nat| s(i + k)
}

/// The 32-bit value at the front of a stream.
pub open spec fn window(s: Stream) -> int {
    s(0) * 0x100_0000 + s(1) * 0x1_0000 + s(2) * 256 + s(3)
}

/// The bit the decoder reads from `s` in interval `iv`.
pub open spec fn read_bit(iv: Interval, s: Stream, p: int) -> bool {
    window(s) <= iv.mid(p)
}

/// The bits the decoder reads from `s` under the probabilities `ps`.
pub open spec fn read_bits(iv: Interval, s: Stream, ps: Seq<int>) -> Seq<bool>
    decreases ps.len(),
{
    if ps.len() == 0 {
        Seq::empty()
    } else {
        let bit = read_bit(iv, s, ps[0]);
        seq![bit] + read_bits(
            iv.coded(bit, ps[0]),
            advance(s, iv.emitted(bit, ps[0]).len()),
            ps.drop_first(),
        )
    }
}

/// `bytes` is how the stream begins.
pub open spec fn starts_with(s: Stream, bytes: Seq<u8>) -> bool {
    forall|i: nat| i < bytes.len() ==> #[trigger] s(i) == bytes[i as int]
}

// ---------------------------------------------------------------------------
// Facts about intervals
// ---------------------------------------------------------------------------

/// The split point lies inside the interval, strictly below its upper end, so
/// neither part is ever empty.
pub proof fn lemma_mid_inside(iv: Interval, p: int)
    requires
        iv.settled(),
        valid_prob(p),
    ensures
        iv.lo <= iv.mid(p) < iv.hi,
        iv.narrow(true, p).wf(),
        iv.narrow(false, p).wf(),
{
    let q = (iv.hi - iv.lo) / 4096;
    assert(iv.hi > iv.lo);
    assert(0 <= q * p <= q * 4095) by (nonlinear_arith)
        requires
            0 <= q,
            1 <= p <= 4095,
    ;
}

/// Emitting a byte keeps the interval valid and widens it 256-fold.
proof fn lemma_shifted(iv: Interval)
    requires
        iv.wf(),
        iv.agrees(),
    ensures
        iv.shifted().wf(),
        iv.shifted().width() == iv.width() * 256,
{
}

/// Renormalisation ends in an interval that can code the next bit.
pub proof fn lemma_renormed_settled(iv: Interval)
    requires
        iv.wf(),
    ensures
        iv.renormed().settled(),
    decreases 0x1_0000_0000 - iv.width(),
{
    if iv.agrees() {
        lemma_shifted(iv);
        lemma_renormed_settled(iv.shifted());
    }
}

/// A coding step under a valid probability leaves a settled interval.
pub proof fn lemma_coded_settled(iv: Interval, bit: bool, p: int)
    requires
        iv.settled(),
        valid_prob(p),
    ensures
        iv.narrow(bit, p).wf(),
        iv.coded(bit, p).settled(),
{
    lemma_mid_inside(iv, p);
    lemma_renormed_settled(iv.narrow(bit, p));
}

// ---------------------------------------------------------------------------
// Decoding reads back what was encoded
// ---------------------------------------------------------------------------

proof fn lemma_window_bounds(s: Stream)
    ensures
        0 <= window(s) < 0x1_0000_0000,
{
}

/// Shifting the stream one byte moves the window by that byte.
proof fn lemma_window_step(s: Stream)
    ensures
        window(s) / 0x100_0000 == s(0),
        window(s) % 0x100_0000 * 256 <= window(advance(s, 1)) <= window(s) % 0x100_0000 * 256 + 255,
{
    let t = advance(s, 1);
    assert(t(0) == s(1) && t(1) == s(2) && t(2) == s(3));
    let low = s(1) * 0x1_0000 + s(2) * 256 + s(3);
    assert(0 <= low < 0x100_0000);
    assert(window(s) == s(0) * 0x100_0000 + low);
    assert(window(s) / 0x100_0000 == s(0) && window(s) % 0x100_0000 == low) by (nonlinear_arith)
        requires
            window(s) == s(0) * 0x100_0000 + low,
            0 <= low < 0x100_0000,
    ;
}

/// If the stream starts with the final bytes of `iv` and what follows them lies in
/// the renormalised interval, then the stream's window lies in `iv`.
proof fn lemma_unflush(iv: Interval, s: Stream)
    requires
        iv.wf(),
        starts_with(s, iv.flushed()),
        ({
            let t = advance(s, iv.flushed().len());
            iv.renormed().lo <= window(t) <= iv.renormed().hi
        }),
    ensures
        iv.lo <= window(s) <= iv.hi,
    decreases 0x1_0000_0000 - iv.width(),
{
    if iv.agrees() {
        lemma_shifted(iv);
        let nx = iv.shifted();
        let t = advance(s, 1);
        assert(iv.flushed() == seq![(iv.hi / 0x100_0000) as u8] + nx.flushed());
        assert(s(0) == iv.flushed()[0]);
        assert forall|i: nat| i < nx.flushed().len() implies #[trigger] t(i)
            == nx.flushed()[i as int] by {
            assert(s(i + 1) == iv.flushed()[(i + 1) as int]);
        }
        let k = nx.flushed().len();
        assert(advance(t, k) =~= advance(s, k + 1));
        lemma_unflush(nx, t);
        lemma_window_step(s);
        lemma_window_bounds(s);
        assert(iv.hi / 0x100_0000 < 256);
        assert(window(s) / 0x100_0000 == iv.hi / 0x100_0000);
        assert(iv.lo % 0x100_0000 <= window(s) % 0x100_0000 <= iv.hi % 0x100_0000);
    } else {
        assert(advance(s, 0) =~= s);
    }
}

/// A stream that starts with the code of `items` has its window inside the
/// coder's interval.
pub proof fn lemma_code_inside(iv: Interval, items: Seq<(bool, int)>, s: Stream)
    requires
        iv.settled(),
        forall|i: int| 0 <= i < items.len() ==> valid_prob(#[trigger] items[i].1),
        starts_with(s, code(iv, items)),
    ensures
        iv.lo <= window(s) <= iv.hi,
    decreases items.len(),
{
    if items.len() == 0 {
        let b = be_bytes(iv.lo);
        assert(s(0) == b[0] && s(1) == b[1] && s(2) == b[2] && s(3) == b[3]);
    } else {
        lemma_code_step(iv, items, s);
    }
}

/// One step of decoding: the decoder reads the coded bit, and what is left of the
/// stream starts with the code of the remaining items.
pub proof fn lemma_code_step(iv: Interval, items: Seq<(bool, int)>, s: Stream)
    requires
        iv.settled(),
        items.len() > 0,
        forall|i: int| 0 <= i < items.len() ==> valid_prob(#[trigger] items[i].1),
        starts_with(s, code(iv, items)),
    ensures
        iv.lo <= window(s) <= iv.hi,
        read_bit(iv, s, items[0].1) == items[0].0,
        iv.coded(items[0].0, items[0].1).settled(),
        starts_with(
            advance(s, iv.emitted(items[0].0, items[0].1).len()),
            code(iv.coded(items[0].0, items[0].1), items.drop_first()),
        ),
    decreases items.len(), 0int,
{
    let (bit, p) = items[0];
    let rest = items.drop_first();
    assert(valid_prob(items[0].1));
    lemma_coded_settled(iv, bit, p);
    lemma_mid_inside(iv, p);
    let nx = iv.coded(bit, p);
    let out = iv.emitted(bit, p);
    let t = advance(s, out.len());
    let tail = code(nx, rest);
    assert(code(iv, items) == out + tail);
    assert forall|i: nat| i < tail.len() implies #[trigger] t(i) == tail[i as int] by {
        assert(s(i + out.len()) == (out + tail)[(i + out.len()) as int]);
    }
    assert forall|i: int| 0 <= i < rest.len() implies valid_prob(#[trigger] rest[i].1) by {
        assert(rest[i] == items[i + 1]);
    }
    lemma_code_inside(nx, rest, t);
    assert forall|i: nat| i < out.len() implies #[trigger] s(i) == out[i as int] by {
        assert((out + tail)[i as int] == out[i as int]);
    }
    lemma_unflush(iv.narrow(bit, p), s);
}

/// The decoder reads back every bit the encoder coded, given the same
/// probabilities.
pub proof fn decoder_reads_back(iv: Interval, items: Seq<(bool, int)>, s: Stream)
    requires
        iv.settled(),
        forall|i: int| 0 <= i < items.len() ==> valid_prob(#[trigger] items[i].1),
        starts_with(s, code(iv, items)),
    ensures
        read_bits(iv, s, items.map_values(|x: (bool, int)| x.1)) == items.map_values(
            |x: (bool, int)| x.0,
        ),
    decreases items.len(),
{
    let ps = items.map_values(|x: (bool, int)| x.1);
    let bits = items.map_values(|x: (bool, int)| x.0);
    if items.len() > 0 {
        let rest = items.drop_first();
        lemma_code_step(iv, items, s);
        assert forall|i: int| 0 <= i < rest.len() implies valid_prob(#[trigger] rest[i].1) by {
            assert(rest[i] == items[i + 1]);
        }
        let (bit, p) = items[0];
        decoder_reads_back(iv.coded(bit, p), rest, advance(s, iv.emitted(bit, p).len()));
        assert(ps.drop_first() =~= rest.map_values(|x: (bool, int)| x.1));
        assert(bits =~= seq![bit] + rest.map_values(|x: (bool, int)| x.0));
    } else {
        assert(bits =~= Seq::empty());
    }
}

// ---------------------------------------------------------------------------
// How long the code can get
// ---------------------------------------------------------------------------

/// Every byte flushed widens the interval 256-fold.
proof fn lemma_flushed_width(iv: Interval)
    requires
        iv.wf(),
    ensures
        iv.renormed().width() == iv.width() * pow(256, iv.flushed().len()),
    decreases 0x1_0000_0000 - iv.width(),
{
    reveal(pow);
    if iv.agrees() {
        lemma_shifted(iv);
        let nx = iv.shifted();
        lemma_flushed_width(nx);
        let k = nx.flushed().len();
        assert(iv.flushed().len() == k + 1);
        assert(pow(256, k + 1) == 256 * pow(256, k));
        assert(iv.width() * 256 * pow(256, k) == iv.width() * (256 * pow(256, k)))
            by (nonlinear_arith);
    }
}

/// Coding one bit shrinks the interval at most 8192-fold.
proof fn lemma_narrow_width(iv: Interval, bit: bool, p: int)
    requires
        iv.settled(),
        valid_prob(p),
    ensures
        iv.narrow(bit, p).width() * 8192 >= iv.width(),
{
    lemma_mid_inside(iv, p);
    let r = iv.hi - iv.lo;
    let q = r / 4096;
    assert(q <= q * p <= q * 4095) by (nonlinear_arith)
        requires
            0 <= q,
            1 <= p <= 4095,
    ;
}

/// Coding `n` bits emits at most `13 * n / 8` bytes ahead of the four closing ones.
pub proof fn code_length_bound(iv: Interval, items: Seq<(bool, int)>)
    requires
        iv.settled(),
        forall|i: int| 0 <= i < items.len() ==> valid_prob(#[trigger] items[i].1),
    ensures
        code(iv, items).len() >= 4,
        iv == Interval::full() ==> 8 * (code(iv, items).len() - 4) <= 13 * items.len(),
{
    lemma_code_width(iv, items);
    let k = (code(iv, items).len() - 4) as nat;
    let n = items.len();
    if iv == Interval::full() {
        assert(pow(256, k) <= pow(8192, n)) by (nonlinear_arith)
            requires
                0x1_0000_0000 * pow(256, k) <= 0x1_0000_0000 * pow(8192, n),
        ;
        assert(pow(2, 8) == 256 && pow(2, 13) == 8192) by {
            reveal_with_fuel(pow, 14);
        }
        lemma_pow_multiplies(2, 8, k);
        lemma_pow_multiplies(2, 13, n);
        if 8 * k > 13 * n {
            lemma_pow_strictly_increases(2, 13 * n, 8 * k);
        }
    }
}

proof fn lemma_code_width(iv: Interval, items: Seq<(bool, int)>)
    requires
        iv.settled(),
        forall|i: int| 0 <= i < items.len() ==> valid_prob(#[trigger] items[i].1),
    ensures
        code(iv, items).len() >= 4,
        iv.width() * pow(256, (code(iv, items).len() - 4) as nat) <= 0x1_0000_0000 * pow(
            8192,
            items.len(),
        ),
    decreases items.len(),
{
    if items.len() == 0 {
        lemma_pow0(256);
        lemma_pow0(8192);
    } else {
        let (bit, p) = items[0];
        let rest = items.drop_first();
        assert(valid_prob(items[0].1));
        assert forall|i: int| 0 <= i < rest.len() implies valid_prob(#[trigger] rest[i].1) by {
            assert(rest[i] == items[i + 1]);
        }
        lemma_coded_settled(iv, bit, p);
        lemma_narrow_width(iv, bit, p);
        lemma_flushed_width(iv.narrow(bit, p));
        let nx = iv.coded(bit, p);
        lemma_code_width(nx, rest);
        let e = iv.emitted(bit, p).len();
        let k = (code(nx, rest).len() - 4) as nat;
        let n = rest.len();
        assert(code(iv, items).len() - 4 == e + k);
        lemma_pow_adds(256, e, k);
        lemma_pow_adds(8192, 1, n);
        lemma_pow1(8192);
        lemma_pow_positive(256, e);
        lemma_pow_positive(256, k);
        let w = iv.width();
        let m = iv.narrow(bit, p).width();
        assert(w * (pow(256, e) * pow(256, k)) <= 8192 * (m * pow(256, e) * pow(256, k)))
            by (nonlinear_arith)
            requires
                m * 8192 >= w,
                pow(256, e) > 0,
                pow(256, k) > 0,
        ;
    }
}

// ---------------------------------------------------------------------------
// Encoder
// ---------------------------------------------------------------------------

proof fn lemma_top_byte(a: u32, b: u32)
    by (bit_vector)
    ensures
        (a ^ b) & 0xff00_0000u32 == 0u32 ==> a / 0x100_0000u32 == b / 0x100_0000u32,
        a / 0x100_0000u32 == b / 0x100_0000u32 ==> (a ^ b) & 0xff00_0000u32 == 0u32,
        a >> 24u32 == a / 0x100_0000u32,
        a / 0x100_0000u32 < 256u32,
        a << 8u32 == (a % 0x100_0000u32) * 256,
        (a << 8u32) | 0xffu32 == (a % 0x100_0000u32) * 256 + 255,
{
}

proof fn lemma_shift_in(a: u32, b: u32)
    by (bit_vector)
    requires
        b < 256u32,
    ensures
        (a << 8u32) | b == (a % 0x100_0000u32) * 256 + b,
        ((a << 8u32) | b) / 0x100_0000u32 == a / 0x1_0000u32 % 256u32,
        ((a << 8u32) | b) / 0x1_0000u32 % 256u32 == a / 256u32 % 256u32,
        ((a << 8u32) | b) / 256u32 % 256u32 == a % 256u32,
        ((a << 8u32) | b) % 256u32 == b,
{
}

proof fn lemma_range_step(r: u32)
    by (bit_vector)
    ensures
        r >> 12u32 == r / 4096u32,
{
}

/// Arithmetic encoder. Emits bytes into an internal buffer.
pub struct Encoder {
    x1: u32,
    x2: u32,
    out: Vec<u8>,
}

impl Encoder {
    /// The interval that the bits so far have narrowed down to.
    pub closed spec fn interval(self) -> Interval {
        Interval { lo: self.x1 as int, hi: self.x2 as int }
    }

    /// The bytes emitted so far.
    pub closed spec fn emitted(self) -> Seq<u8> {
        self.out@
    }

    /// A fresh encoder.
    pub fn new() -> (e: Self)
        ensures
            e.interval() == Interval::full(),
            e.interval().settled(),
            e.emitted() == Seq::<u8>::empty(),
    {
        Self { x1: 0, x2: 0xffff_ffff, out: Vec::new() }
    }

    /// Encode one bit (any non-zero `bit` counts as set) with probability `p`.
    pub fn encode(&mut self, bit: i32, p: i32)
        requires
            old(self).interval().settled(),
            valid_prob(p as int),
        ensures
            final(self).interval() == old(self).interval().coded(bit != 0, p as int),
            final(self).emitted() == old(self).emitted() + old(self).interval().emitted(
                bit != 0,
                p as int,
            ),
            final(self).interval().settled(),
    {
        let ghost iv = self.interval();
        let ghost before = self.out@;
        proof {
            lemma_mid_inside(iv, p as int);
            lemma_coded_settled(iv, bit != 0, p as int);
        }
        let range: u32 = self.x2 - self.x1;
        proof {
            lemma_range_step(range);
            assert(0 <= (range / 4096) * p <= range) by (nonlinear_arith)
                requires
                    1 <= p <= 4095,
                    range >= 0,
            ;
        }
        let xmid: u32 = self.x1 + (range >> 12) * (p as u32);
        if bit != 0 {
            self.x2 = xmid;
        } else {
            self.x1 = xmid + 1;
        }
        let ghost nv = iv.narrow(bit != 0, p as int);
        assert(before + nv.flushed() =~= self.out@ + self.interval().flushed());
        proof {
            lemma_top_byte(self.x1, self.x2);
        }
        while (self.x1 ^ self.x2) & 0xff00_0000 == 0
            invariant
                self.interval().wf(),
                self.out@ + self.interval().flushed() == before + nv.flushed(),
                self.interval().renormed() == nv.renormed(),
                ((self.x1 ^ self.x2) & 0xff00_0000u32 == 0) <==> self.interval().agrees(),
            decreases 0x1_0000_0000 - self.interval().width(),
        {
            let ghost cur = self.interval();
            proof {
                lemma_shifted(cur);
                lemma_top_byte(self.x1, self.x2);
                lemma_top_byte(self.x2, self.x1);
            }
            self.out.push((self.x2 >> 24) as u8);
            self.x1 = self.x1 << 8;
            self.x2 = (self.x2 << 8) | 0xff;
            proof {
                assert(self.interval() == cur.shifted());
                lemma_top_byte(self.x1, self.x2);
            }
            assert(self.out@ + cur.shifted().flushed() =~= before + nv.flushed());
        }
        assert(self.out@ + Seq::<u8>::empty() =~= self.out@);
    }

    /// Flush the remaining state and return the encoded byte stream.
    ///
    /// All four bytes of the lower end are emitted, so the decoder can locate the
    /// final interval whatever follows them.
    pub fn finish(self) -> (r: Vec<u8>)
        ensures
            r@ == self.emitted() + be_bytes(self.interval().lo),
    {
        let x1 = self.x1;
        let mut out = self.out;
        out.push((x1 / 0x100_0000) as u8);
        out.push((x1 / 0x1_0000 % 256) as u8);
        out.push((x1 / 256 % 256) as u8);
        out.push((x1 % 256) as u8);
        assert(out@ =~= self.emitted() + be_bytes(x1 as int));
        out
    }
}

// ---------------------------------------------------------------------------
// Decoder
// ---------------------------------------------------------------------------

/// Arithmetic decoder. Mirrors [`Encoder`] exactly.
pub struct Decoder<'a> {
    x1: u32,
    x2: u32,
    x: u32,
    inp: &'a [u8],
    pos: usize,
}

impl<'a> Decoder<'a> {
    /// The interval that the bits read so far have narrowed down to.
    pub closed spec fn interval(self) -> Interval {
        Interval { lo: self.x1 as int, hi: self.x2 as int }
    }

    /// The part of the input not yet passed, followed by zeros.
    pub closed spec fn ahead(self) -> Stream {
        |i: nat|
            if i < 4 {
                be_bytes(self.x as int)[i as int]
            } else {
                stream_of(self.inp@)((self.pos + i - 4) as nat)
            }
    }

    /// The register holds the first four bytes of what is ahead.
    proof fn lemma_register(self)
        ensures
            window(self.ahead()) == self.x,
    {
        let s = self.ahead();
        let b = be_bytes(self.x as int);
        assert(s(0) == b[0] && s(1) == b[1] && s(2) == b[2] && s(3) == b[3]);
    }

    /// A decoder over `inp`; a missing byte reads as zero.
    pub fn new(inp: &'a [u8]) -> (d: Self)
        ensures
            d.interval() == Interval::full(),
            d.interval().settled(),
            d.ahead() == stream_of(inp@),
    {
        let mut d = Self { x1: 0, x2: 0xffff_ffff, x: 0, inp, pos: 0 };
        assert(d.x == 0);
        for k in 0u32..4
            invariant
                d.x1 == 0,
                d.x2 == 0xffff_ffff,
                d.inp == inp,
                forall|j: int|
                    4 - k <= j < 4 ==> #[trigger] be_bytes(d.x as int)[j] == stream_of(inp@)(
                        (j - (4 - k)) as nat,
                    ),
                d.pos == k || (d.pos < k && d.pos >= inp@.len()),
        {
            let b = d.next_byte();
            let ghost was = d.x;
            d.x = (d.x << 8) | (b as u32);
            proof {
                lemma_register_step(was, b);
                assert forall|j: int| 3 - k <= j < 4 implies #[trigger] be_bytes(d.x as int)[j]
                    == stream_of(inp@)((j - (3 - k)) as nat) by {
                    if j < 3 {
                        assert(be_bytes(d.x as int)[j] == be_bytes(was as int)[j + 1]);
                    }
                }
            }
        }
        assert(d.ahead() =~= stream_of(inp@)) by {
            assert forall|i: nat| #[trigger] d.ahead()(i) == stream_of(inp@)(i) by {
                if i < 4 {
                    assert(be_bytes(d.x as int)[i as int] == stream_of(inp@)(i));
                }
            }
        }
        d
    }

    fn next_byte(&mut self) -> (b: u8)
        ensures
            b == stream_of(old(self).inp@)(old(self).pos as nat),
            final(self).x1 == old(self).x1,
            final(self).x2 == old(self).x2,
            final(self).x == old(self).x,
            final(self).inp == old(self).inp,
            final(self).pos == old(self).pos + 1 || (final(self).pos == old(self).pos && old(
                self,
            ).pos >= old(self).inp@.len()),
    {
        if self.pos < self.inp.len() {
            let b = self.inp[self.pos];
            self.pos = self.pos + 1;
            b
        } else {
            0
        }
    }

    /// Decode one bit given the same probability `p` the encoder used.
    pub fn decode(&mut self, p: i32) -> (bit: i32)
        requires
            old(self).interval().settled(),
            valid_prob(p as int),
        ensures
            bit == 0 || bit == 1,
            (bit == 1) == read_bit(old(self).interval(), old(self).ahead(), p as int),
            final(self).interval() == old(self).interval().coded(bit == 1, p as int),
            final(self).ahead() == advance(
                old(self).ahead(),
                old(self).interval().emitted(bit == 1, p as int).len(),
            ),
            final(self).interval().settled(),
    {
        let ghost iv = self.interval();
        let ghost s = self.ahead();
        proof {
            self.lemma_register();
            lemma_mid_inside(iv, p as int);
        }
        let range: u32 = self.x2 - self.x1;
        proof {
            lemma_range_step(range);
            assert(0 <= (range / 4096) * p <= range) by (nonlinear_arith)
                requires
                    1 <= p <= 4095,
                    range >= 0,
            ;
        }
        let xmid: u32 = self.x1 + (range >> 12) * (p as u32);
        let bit: i32 = if self.x <= xmid {
            1
        } else {
            0
        };
        if bit != 0 {
            self.x2 = xmid;
        } else {
            self.x1 = xmid + 1;
        }
        let ghost nv = iv.narrow(bit == 1, p as int);
        proof {
            lemma_coded_settled(iv, bit == 1, p as int);
            lemma_top_byte(self.x1, self.x2);
        }
        let ghost mut gone: nat = 0;
        assert(advance(s, 0) =~= s);
        assert(self.ahead() =~= s);
        while (self.x1 ^ self.x2) & 0xff00_0000 == 0
            invariant
                self.interval().wf(),
                gone + self.interval().flushed().len() == nv.flushed().len(),
                self.ahead() == advance(s, gone),
                self.interval().renormed() == nv.renormed(),
                ((self.x1 ^ self.x2) & 0xff00_0000u32 == 0) <==> self.interval().agrees(),
            decreases 0x1_0000_0000 - self.interval().width(),
        {
            let ghost cur = self.interval();
            let ghost was = *self;
            proof {
                lemma_shifted(cur);
                lemma_top_byte(self.x1, self.x2);
                lemma_top_byte(self.x2, self.x1);
            }
            self.x1 = self.x1 << 8;
            self.x2 = (self.x2 << 8) | 0xff;
            let b = self.next_byte();
            self.x = (self.x << 8) | (b as u32);
            proof {
                gone = gone + 1;
                lemma_register_step(was.x, b);
                assert(self.interval() == cur.shifted());
                lemma_top_byte(self.x1, self.x2);
                assert(self.ahead() =~= advance(s, gone)) by {
                    assert forall|i: nat| #[trigger] self.ahead()(i) == s(i + gone) by {
                        assert(was.ahead()(i + 1) == s(((i + 1) + (gone - 1)) as nat));
                        assert((i + 1) + (gone - 1) == i + gone);
                        if i < 3 {
                            assert(be_bytes(self.x as int)[i as int] == be_bytes(
                                was.x as int,
                            )[(i + 1) as int]);
                        }
                    }
                }
            }
        }
        bit
    }
}

/// Shifting a byte into the register drops its first byte.
proof fn lemma_register_step(x: u32, b: u8)
    ensures
        be_bytes(((x << 8) | (b as u32)) as int) == be_bytes(x as int).drop_first().push(b),
{
    lemma_shift_in(x, b as u32);
    assert(be_bytes(((x << 8) | (b as u32)) as int) =~= be_bytes(x as int).drop_first().push(b));
}

} // verus!
