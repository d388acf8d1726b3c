//! One segment: the predictor and the arithmetic coder in lockstep.
use vstd::prelude::*;
use crate::cm::coder;
use crate::cm::coder::{Decoder, Encoder, Interval, Stream};
use crate::cm::control;
use crate::cm::control::Control;
use crate::cm::predictor::{Knowledge, Predictor};

verus! {

/// Which variant of the model codes a segment. Both sides must use the same.
#[derive(Clone, Copy, PartialEq, Eq, Structural)]
pub struct Profile {
    /// The reduced roster of models.
    pub turbo: bool,
    /// The memory profile.
    pub mem: u8,
}

/// The standard profile: all models, standard memory.
pub open spec fn standard() -> Profile {
    Profile { turbo: false, mem: 0 }
}

// ---------------------------------------------------------------------------
// What a segment's code is
// ---------------------------------------------------------------------------

/// The predictor before the first byte of an `n`-byte segment.
pub open spec fn first(n: int, prof: Profile) -> Knowledge {
    Knowledge::start(n, prof.turbo, prof.mem as int)
}

/// Divisor that brings bit `i` of a byte, counted from the most significant, to
/// the front.
pub open spec fn place(i: int) -> int {
    if i == 0 {
        128
    } else if i == 1 {
        64
    } else if i == 2 {
        32
    } else if i == 3 {
        16
    } else if i == 4 {
        8
    } else if i == 5 {
        4
    } else if i == 6 {
        2
    } else {
        1
    }
}

/// Bit `i` of a byte, counted from the most significant.
pub open spec fn bit_of(b: u8, i: int) -> bool {
    b as int / place(i) % 2 == 1
}

/// Bits `i ..` of byte `b`, each with the probability the predictor gives it.
pub open spec fn byte_items(k: Knowledge, b: u8, i: int) -> Seq<(bool, int)>
    decreases 8 - i,
{
    if i >= 8 {
        Seq::empty()
    } else {
        seq![(bit_of(b, i), k.forecast())] + byte_items(k.after_bit(bit_of(b, i)), b, i + 1)
    }
}

/// The predictor after bits `i ..` of byte `b`.
pub open spec fn byte_seen(k: Knowledge, b: u8, i: int) -> Knowledge
    decreases 8 - i,
{
    if i >= 8 {
        k
    } else {
        byte_seen(k.after_bit(bit_of(b, i)), b, i + 1)
    }
}

/// The predictor after the whole of byte `b`.
pub open spec fn stepped(k: Knowledge, b: u8) -> Knowledge {
    byte_seen(k, b, 0).committed(b)
}

/// All bits of `data`, each with the probability the predictor gives it.
pub open spec fn items(k: Knowledge, data: Seq<u8>) -> Seq<(bool, int)>
    decreases data.len(),
{
    if data.len() == 0 {
        Seq::empty()
    } else {
        byte_items(k, data[0], 0) + items(stepped(k, data[0]), data.drop_first())
    }
}

/// The code of a segment.
pub open spec fn segment_code(data: Seq<u8>, prof: Profile) -> Seq<u8> {
    coder::code(Interval::full(), items(first(data.len() as int, prof), data))
}

// ---------------------------------------------------------------------------
// What the decoder makes of a byte stream
// ---------------------------------------------------------------------------

/// The decoder's state.
#[verifier::ext_equal]
pub struct Reader {
    pub k: Knowledge,
    pub iv: Interval,
    pub s: Stream,
}

impl Reader {
    /// Before the first byte.
    pub open spec fn start(payload: Seq<u8>, n: int, prof: Profile) -> Reader {
        Reader { k: first(n, prof), iv: Interval::full(), s: coder::stream_of(payload) }
    }

    /// The next bit.
    pub open spec fn bit(self) -> bool {
        coder::read_bit(self.iv, self.s, self.k.forecast())
    }

    /// The state after the next bit.
    pub open spec fn next(self) -> Reader {
        let p = self.k.forecast();
        Reader {
            k: self.k.after_bit(self.bit()),
            iv: self.iv.coded(self.bit(), p),
            s: coder::advance(self.s, self.iv.emitted(self.bit(), p).len()),
        }
    }

    /// The value of the next `m` bits, put behind the bits `acc`.
    pub open spec fn value(self, acc: int, m: nat) -> int
        decreases m,
    {
        if m == 0 {
            acc
        } else {
            self.next().value(2 * acc + if self.bit() { 1int } else { 0int }, (m - 1) as nat)
        }
    }

    /// The state after the next `m` bits.
    pub open spec fn skip(self, m: nat) -> Reader
        decreases m,
    {
        if m == 0 {
            self
        } else {
            self.next().skip((m - 1) as nat)
        }
    }

    /// The next byte.
    pub open spec fn byte(self) -> u8 {
        self.value(0, 8) as u8
    }

    /// The state after the next byte.
    pub open spec fn after_byte(self) -> Reader {
        let r = self.skip(8);
        Reader { k: r.k.committed(self.byte()), ..r }
    }

    /// The next `n` bytes.
    pub open spec fn bytes(self, n: nat) -> Seq<u8>
        decreases n,
    {
        if n == 0 {
            Seq::empty()
        } else {
            seq![self.byte()] + self.after_byte().bytes((n - 1) as nat)
        }
    }
}

/// The `n` bytes that `payload` decodes to; defined for any payload whatever.
pub open spec fn segment_data(payload: Seq<u8>, n: nat, prof: Profile) -> Seq<u8> {
    Reader::start(payload, n as int, prof).bytes(n)
}

// ---------------------------------------------------------------------------
// Laws
// ---------------------------------------------------------------------------

/// Every probability the predictor gives is one the coder accepts.
pub proof fn forecast_is_valid(k: Knowledge)
    ensures
        coder::valid_prob(k.forecast()),
{
    k.lemma_forecast();
}

proof fn lemma_byte_items(k: Knowledge, b: u8, i: int)
    requires
        0 <= i <= 8,
    ensures
        byte_items(k, b, i).len() == 8 - i,
        forall|j: int|
            0 <= j < byte_items(k, b, i).len() ==> coder::valid_prob(
                #[trigger] byte_items(k, b, i)[j].1,
            ),
    decreases 8 - i,
{
    if i < 8 {
        forecast_is_valid(k);
        lemma_byte_items(k.after_bit(bit_of(b, i)), b, i + 1);
    }
}

/// A segment of `n` bytes is coded as `8 n` bits, all under valid probabilities.
proof fn lemma_items(k: Knowledge, data: Seq<u8>)
    ensures
        items(k, data).len() == 8 * data.len(),
        forall|j: int|
            0 <= j < items(k, data).len() ==> coder::valid_prob(#[trigger] items(k, data)[j].1),
    decreases data.len(),
{
    if data.len() > 0 {
        lemma_byte_items(k, data[0], 0);
        lemma_items(stepped(k, data[0]), data.drop_first());
    }
}

/// A segment of `n` bytes is coded in at least 4 and at most `13 n + 4` bytes.
pub proof fn segment_code_length(data: Seq<u8>, prof: Profile)
    ensures
        4 <= segment_code(data, prof).len() <= 13 * data.len() + 4,
{
    let its = items(first(data.len() as int, prof), data);
    lemma_items(first(data.len() as int, prof), data);
    coder::code_length_bound(Interval::full(), its);
}

/// The bits of `b` from `i` on, put behind `acc`.
spec fn gathered(b: u8, i: int, acc: int) -> int
    decreases 8 - i,
{
    if i >= 8 {
        acc
    } else {
        gathered(b, i + 1, 2 * acc + if bit_of(b, i) { 1int } else { 0int })
    }
}

proof fn lemma_gathered(b: u8)
    ensures
        gathered(b, 0, 0) == b,
{
    reveal_with_fuel(gathered, 2);
    let v = b as int;
    let h = |i: int| v / place(i);
    assert(h(0) < 2);
    assert(gathered(b, 0, 0) == gathered(b, 1, h(0)));
    assert(gathered(b, 1, h(0)) == gathered(b, 2, h(1)));
    assert(gathered(b, 2, h(1)) == gathered(b, 3, h(2)));
    assert(gathered(b, 3, h(2)) == gathered(b, 4, h(3)));
    assert(gathered(b, 4, h(3)) == gathered(b, 5, h(4)));
    assert(gathered(b, 5, h(4)) == gathered(b, 6, h(5)));
    assert(gathered(b, 6, h(5)) == gathered(b, 7, h(6)));
    assert(gathered(b, 7, h(6)) == gathered(b, 8, h(7)));
}

/// Decoding the bits of one byte from a stream that starts with their code.
proof fn lemma_read_bits(r: Reader, b: u8, i: int, acc: int, rest: Seq<(bool, int)>)
    requires
        0 <= i <= 8,
        r.iv.settled(),
        coder::starts_with(r.s, coder::code(r.iv, byte_items(r.k, b, i) + rest)),
        forall|j: int| 0 <= j < rest.len() ==> coder::valid_prob(#[trigger] rest[j].1),
    ensures
        r.value(acc, (8 - i) as nat) == gathered(b, i, acc),
        r.skip((8 - i) as nat).k == byte_seen(r.k, b, i),
        r.skip((8 - i) as nat).iv.settled(),
        coder::starts_with(
            r.skip((8 - i) as nat).s,
            coder::code(r.skip((8 - i) as nat).iv, rest),
        ),
    decreases 8 - i,
{
    let its = byte_items(r.k, b, i) + rest;
    if i < 8 {
        let bit = bit_of(b, i);
        let more = byte_items(r.k.after_bit(bit), b, i + 1);
        lemma_byte_items(r.k, b, i);
        assert(its[0] == (bit, r.k.forecast()));
        assert forall|j: int| 0 <= j < its.len() implies coder::valid_prob(
            #[trigger] its[j].1,
        ) by {
            let mine = byte_items(r.k, b, i);
            if j < mine.len() {
                assert(its[j] == mine[j]);
            } else {
                assert(its[j] == rest[j - mine.len()]);
            }
        }
        coder::lemma_code_step(r.iv, its, r.s);
        assert(its.drop_first() =~= more + rest);
        lemma_read_bits(
            r.next(),
            b,
            i + 1,
            2 * acc + if bit { 1int } else { 0int },
            rest,
        );
    } else {
        assert(its =~= rest);
    }
}

proof fn lemma_read_back(r: Reader, data: Seq<u8>)
    requires
        r.iv.settled(),
        coder::starts_with(r.s, coder::code(r.iv, items(r.k, data))),
    ensures
        r.bytes(data.len()) == data,
    decreases data.len(),
{
    if data.len() > 0 {
        let b = data[0];
        let rest = items(stepped(r.k, b), data.drop_first());
        lemma_items(stepped(r.k, b), data.drop_first());
        lemma_read_bits(r, b, 0, 0, rest);
        lemma_gathered(b);
        assert(r.byte() == b);
        lemma_read_back(r.after_byte(), data.drop_first());
        assert(seq![b] + data.drop_first() =~= data);
    } else {
        assert(data =~= Seq::empty());
    }
}

/// Decoding a segment's code gives the segment back, even when other bytes follow
/// the code.
pub proof fn segment_round_trip(data: Seq<u8>, prof: Profile, trailing: Seq<u8>)
    ensures
        segment_data(segment_code(data, prof) + trailing, data.len(), prof) == data,
        segment_data(segment_code(data, prof), data.len(), prof) == data,
{
    let code = segment_code(data, prof);
    lemma_read_back(Reader::start(code + trailing, data.len() as int, prof), data);
    lemma_read_back(Reader::start(code, data.len() as int, prof), data);
}

/// A decoded segment has the length that was asked for.
pub proof fn segment_data_length(payload: Seq<u8>, n: nat, prof: Profile)
    ensures
        segment_data(payload, n, prof).len() == n,
{
    lemma_bytes_length(Reader::start(payload, n as int, prof), n);
}

proof fn lemma_bytes_length(r: Reader, n: nat)
    ensures
        r.bytes(n).len() == n,
    decreases n,
{
    if n > 0 {
        lemma_bytes_length(r.after_byte(), (n - 1) as nat);
    }
}

// ---------------------------------------------------------------------------
// Coding
// ---------------------------------------------------------------------------

/// Bound of the partial byte after `i` bits.
spec fn span(i: int) -> int {
    if i == 0 {
        2
    } else if i == 1 {
        4
    } else if i == 2 {
        8
    } else if i == 3 {
        16
    } else if i == 4 {
        32
    } else if i == 5 {
        64
    } else if i == 6 {
        128
    } else if i == 7 {
        256
    } else {
        512
    }
}

/// How many bytes are coded between two looks at the control.
pub const POLL: usize = 1024;

/// `n` bytes were added to the control's counter: whole blocks, then the rest.
pub open spec fn counted(ctrl: Option<&Control>, n: int) -> bool {
    &&& n >= POLL ==> control::reported(ctrl, POLL as u64)
    &&& control::reported(ctrl, (n % POLL as int) as u64)
}

/// Code one byte.
fn encode_byte(model: &mut Predictor, enc: &mut Encoder, byte: u8, Ghost(rest): Ghost<Seq<u8>>)
    requires
        old(model).wf(),
        old(model)@.c0 == 1,
        old(model)@.mm.buf.len() < u32::MAX,
        old(enc).interval().settled(),
    ensures
        final(model).wf(),
        final(model)@ == stepped(old(model)@, byte),
        final(model)@.c0 == 1,
        final(model)@.mm.buf.len() == old(model)@.mm.buf.len() + 1,
        final(enc).interval().settled(),
        final(enc).emitted() + coder::code(
            final(enc).interval(),
            items(final(model)@, rest),
        ) == old(enc).emitted() + coder::code(
            old(enc).interval(),
            items(old(model)@, seq![byte] + rest),
        ),
{
    let ghost k0 = model@;
    let ghost total = enc.emitted() + coder::code(enc.interval(), items(k0, seq![byte] + rest));
    let ghost tail = items(stepped(k0, byte), rest);
    assert((seq![byte] + rest).drop_first() =~= rest);
    let mut left: u8 = 128;
    let mut i: usize = 0;
    while i < 8
        invariant
            i <= 8,
            i < 8 ==> left == place(i as int),
            model.wf(),
            1 <= model@.c0 < span(i as int),
            model@.mm == k0.mm,
            enc.interval().settled(),
            byte_seen(model@, byte, i as int) == byte_seen(k0, byte, 0),
            enc.emitted() + coder::code(
                enc.interval(),
                byte_items(model@, byte, i as int) + tail,
            ) == total,
        decreases 8 - i,
    {
        let one = byte / left % 2 == 1;
        let bit: i32 = if one {
            1
        } else {
            0
        };
        let ghost k = model@;
        let ghost iv = enc.interval();
        let ghost out = enc.emitted();
        let ghost its = byte_items(k, byte, i as int) + tail;
        assert(one == bit_of(byte, i as int));
        let p = model.predict();
        enc.encode(bit, p);
        proof {
            k.lemma_after_bit(one);
        }
        model.update(bit);
        proof {
            let more = byte_items(k.after_bit(one), byte, i + 1);
            assert(its[0] == (one, k.forecast()));
            assert(its.drop_first() =~= more + tail);
            assert(out + coder::code(iv, its) =~= enc.emitted() + coder::code(
                enc.interval(),
                more + tail,
            ));
        }
        left = left / 2;
        i = i + 1;
    }
    proof {
        assert(byte_items(model@, byte, 8) + tail =~= tail);
        model@.lemma_committed(byte);
    }
    model.next_byte(byte);
}

/// Code a segment, unless `ctrl` asks to stop.
pub fn encode_watched(data: &[u8], prof: Profile, ctrl: Option<&Control>) -> (r: Option<Vec<u8>>)
    requires
        data@.len() <= u32::MAX,
    ensures
        r is None ==> data@.len() > 0 && control::stopped(ctrl),
        r matches Some(v) ==> v@ == segment_code(data@, prof),
        r is Some && data@.len() > 0 ==> control::went_on(ctrl),
        r is Some ==> counted(ctrl, data@.len() as int),
{
    let mut model = Predictor::new(data.len(), prof.turbo, prof.mem);
    let mut enc = Encoder::new();
    let ghost whole = segment_code(data@, prof);
    proof {
        Knowledge::lemma_start(data@.len() as int, prof.turbo, prof.mem as int);
    }
    let mut i: usize = 0;
    assert(data@.skip(0) =~= data@);
    assert(Seq::<u8>::empty() + whole =~= whole);
    while i < data.len()
        invariant
            i <= data@.len() <= u32::MAX,
            model.wf(),
            model@.c0 == 1,
            model@.mm.buf.len() == i,
            enc.interval().settled(),
            whole == segment_code(data@, prof),
            i > 0 ==> control::went_on(ctrl),
            i >= POLL ==> control::reported(ctrl, POLL as u64),
            enc.emitted() + coder::code(enc.interval(), items(model@, data@.skip(i as int)))
                == whole,
        decreases data@.len() - i,
    {
        if let Some(c) = ctrl {
            if i % POLL == 0 && c.is_cancelled() {
                return None;
            }
            if i % POLL == POLL - 1 {
                c.advance(POLL as u64);
            }
        }
        assert(data@.skip(i as int) =~= seq![data@[i as int]] + data@.skip(i + 1));
        encode_byte(&mut model, &mut enc, data[i], Ghost(data@.skip(i + 1)));
        i = i + 1;
    }
    if let Some(c) = ctrl {
        c.advance((data.len() % POLL) as u64);
    }
    Some(enc.finish())
}

/// Decode one byte.
fn decode_byte(model: &mut Predictor, dec: &mut Decoder) -> (byte: u8)
    requires
        old(model).wf(),
        old(model)@.c0 == 1,
        old(model)@.mm.buf.len() < u32::MAX,
        old(dec).interval().settled(),
    ensures
        ({
            let r = Reader {
                k: old(model)@,
                iv: old(dec).interval(),
                s: old(dec).ahead(),
            };
            &&& byte == r.byte()
            &&& r.after_byte() == (Reader {
                k: final(model)@,
                iv: final(dec).interval(),
                s: final(dec).ahead(),
            })
        }),
        final(model).wf(),
        final(model)@.c0 == 1,
        final(model)@.mm.buf.len() == old(model)@.mm.buf.len() + 1,
        final(dec).interval().settled(),
{
    let ghost k0 = model@;
    let ghost r0 = Reader { k: model@, iv: dec.interval(), s: dec.ahead() };
    let mut byte: u32 = 0;
    let mut i: usize = 0;
    while i < 8
        invariant
            i <= 8,
            model.wf(),
            1 <= model@.c0 < span(i as int),
            model@.mm == k0.mm,
            dec.interval().settled(),
            2 * byte < span(i as int),
            ({
                let r = Reader { k: model@, iv: dec.interval(), s: dec.ahead() };
                &&& r.value(byte as int, (8 - i) as nat) == r0.value(0, 8)
                &&& r.skip((8 - i) as nat) == r0.skip(8)
            }),
        decreases 8 - i,
    {
        let ghost k = model@;
        let p = model.predict();
        let bit = dec.decode(p);
        proof {
            k.lemma_after_bit(bit == 1);
        }
        model.update(bit);
        byte = byte * 2 + bit as u32;
        i = i + 1;
    }
    proof {
        model@.lemma_committed(byte as u8);
    }
    model.next_byte(byte as u8);
    byte as u8
}

/// Decode a segment of exactly `n` bytes, unless `ctrl` asks to stop.
pub fn decode_watched(
    payload: &[u8],
    n: usize,
    prof: Profile,
    ctrl: Option<&Control>,
) -> (r: Option<Vec<u8>>)
    requires
        n <= u32::MAX,
    ensures
        r is None ==> n > 0 && control::stopped(ctrl),
        r matches Some(v) ==> v@ == segment_data(payload@, n as nat, prof) && v@.len() == n,
        r is Some && n > 0 ==> control::went_on(ctrl),
        r is Some ==> counted(ctrl, n as int),
{
    let mut model = Predictor::new(n, prof.turbo, prof.mem);
    let mut dec = Decoder::new(payload);
    let mut out: Vec<u8> = Vec::new();
    let ghost whole = segment_data(payload@, n as nat, prof);
    proof {
        Knowledge::lemma_start(n as int, prof.turbo, prof.mem as int);
    }
    let mut i: usize = 0;
    while i < n
        invariant
            i <= n <= u32::MAX,
            model.wf(),
            model@.c0 == 1,
            model@.mm.buf.len() == i,
            dec.interval().settled(),
            out@.len() == i,
            i > 0 ==> control::went_on(ctrl),
            i >= POLL ==> control::reported(ctrl, POLL as u64),
            out@ + (Reader { k: model@, iv: dec.interval(), s: dec.ahead() }).bytes(
                (n - i) as nat,
            ) == whole,
        decreases n - i,
    {
        if let Some(c) = ctrl {
            if i % POLL == 0 && c.is_cancelled() {
                return None;
            }
            if i % POLL == POLL - 1 {
                c.advance(POLL as u64);
            }
        }
        let ghost r = Reader { k: model@, iv: dec.interval(), s: dec.ahead() };
        let ghost before = out@;
        let b = decode_byte(&mut model, &mut dec);
        out.push(b);
        assert(before + r.bytes((n - i) as nat) =~= out@ + r.after_byte().bytes(
            (n - i - 1) as nat,
        ));
        i = i + 1;
    }
    if let Some(c) = ctrl {
        c.advance((n % POLL) as u64);
    }
    assert(out@ + Seq::<u8>::empty() =~= out@);
    Some(out)
}

/// Code a segment under the standard profile.
pub fn encode_segment(data: &[u8]) -> (r: Vec<u8>)
    requires
        data@.len() <= u32::MAX,
    ensures
        r@ == segment_code(data@, standard()),
{
    match encode_watched(data, Profile { turbo: false, mem: 0 }, None) {
        Some(v) => v,
        None => Vec::new(),
    }
}

/// Decode a segment of exactly `n` bytes under the standard profile.
pub fn decode_segment(payload: &[u8], n: usize) -> (r: Vec<u8>)
    requires
        n <= u32::MAX,
    ensures
        r@ == segment_data(payload@, n as nat, standard()),
        r@.len() == n,
{
    proof {
        segment_data_length(payload@, n as nat, standard());
    }
    match decode_watched(payload, n, Profile { turbo: false, mem: 0 }, None) {
        Some(v) => v,
        None => Vec::new(),
    }
}

} // verus!
