//! Good forecasts make short codes.
use vstd::arithmetic::power2::*;
use vstd::prelude::*;
use crate::cm::coder;
use crate::cm::coder::Interval;
use crate::cm::contexts;
use crate::cm::hash;
use crate::cm::leaning;
use crate::cm::learning;
use crate::cm::matcher;
use crate::cm::predictor::Knowledge;
use crate::cm::segment;
use crate::cm::segment::Profile;
use crate::cm::sizing;
use crate::cm::sse::Stages;

verus! {

// ---------------------------------------------------------------------------
// Powers
// ---------------------------------------------------------------------------

/// `x` to the power of 17.
spec fn p17(x: int) -> int {
    let a = x * x;
    let b = a * a;
    let c = b * b;
    c * c * x
}

proof fn lemma_square(a: int, b: int)
    by (nonlinear_arith)
    requires
        0 <= a <= b,
    ensures
        0 <= a * a <= b * b,
{
}

proof fn lemma_p17_order(x: int, y: int)
    requires
        0 <= x <= y,
    ensures
        0 <= p17(x) <= p17(y),
{
    lemma_square(x, y);
    let (a, b) = (x * x, y * y);
    lemma_square(a, b);
    let (c, d) = (a * a, b * b);
    lemma_square(c, d);
    let (e, f) = (c * c, d * d);
    lemma_square(e, f);
    let (g, h) = (e * e, f * f);
    assert(0 <= g * x <= h * y) by (nonlinear_arith)
        requires
            0 <= g <= h,
            0 <= x <= y,
    ;
}

proof fn lemma_p17_product(x: int, y: int)
    ensures
        p17(x * y) == p17(x) * p17(y),
{
    let (a, b) = (x * x, y * y);
    assert((x * y) * (x * y) == a * b) by (nonlinear_arith)
        requires
            a == x * x,
            b == y * y,
    ;
    let (c, d) = (a * a, b * b);
    assert((a * b) * (a * b) == c * d) by (nonlinear_arith)
        requires
            c == a * a,
            d == b * b,
    ;
    let (e, f) = (c * c, d * d);
    assert((c * d) * (c * d) == e * f) by (nonlinear_arith)
        requires
            e == c * c,
            f == d * d,
    ;
    let (g, h) = (e * e, f * f);
    assert((e * f) * (e * f) == g * h) by (nonlinear_arith)
        requires
            g == e * e,
            h == f * f,
    ;
    assert((g * h) * (x * y) == (g * x) * (h * y)) by (nonlinear_arith);
}

proof fn lemma_p17_pow2(e: nat)
    ensures
        p17(pow2(e) as int) == pow2(17 * e),
{
    lemma_pow2_adds(e, e);
    lemma_pow2_adds(2 * e, 2 * e);
    lemma_pow2_adds(4 * e, 4 * e);
    lemma_pow2_adds(8 * e, 8 * e);
    lemma_pow2_adds(16 * e, e);
}

// ---------------------------------------------------------------------------
// The coder
// ---------------------------------------------------------------------------

/// Cost of a bit, in 17ths of a bit and generously rounded: a clear forecast costs less
/// than the bit itself.
pub open spec fn cost(b: bool, p: int) -> nat {
    if leaning::clear(b, p) {
        16
    } else {
        18
    }
}

/// Cost of all items.
pub open spec fn costs(b: bool, items: Seq<(bool, int)>) -> nat
    decreases items.len(),
{
    if items.len() == 0 {
        0
    } else {
        cost(b, items[0].1) + costs(b, items.drop_first())
    }
}

/// The interval still touches the end that coding nothing but `b` keeps.
spec fn moored(b: bool, iv: Interval) -> bool {
    if b {
        iv.lo == 0
    } else {
        iv.hi == 0xffff_ffff
    }
}

proof fn lemma_flush(b: bool, iv: Interval)
    requires
        iv.wf(),
        moored(b, iv),
    ensures
        iv.renormed().settled(),
        moored(b, iv.renormed()),
        iv.renormed().width() == iv.width() * pow2(8 * iv.flushed().len()),
    decreases 0x1_0000_0000 - iv.width(),
{
    lemma2_to64();
    if iv.agrees() {
        let s = iv.shifted();
        lemma_flush(b, s);
        let e = s.flushed().len();
        assert(iv.flushed().len() == e + 1);
        lemma_pow2_adds(8, 8 * e);
        let (w, p) = (iv.width(), pow2(8 * e) as int);
        assert(s.width() == w * 256);
        assert(w * 256 * p == w * (256 * p)) by (nonlinear_arith);
        assert(8 + 8 * e == 8 * iv.flushed().len());
    } else {
        assert(iv.flushed().len() == 0);
        assert(iv.width() * 1 == iv.width());
    }
}

/// Coding `b` under a forecast on its side keeps most of the interval.
proof fn lemma_narrow(b: bool, iv: Interval, p: int)
    requires
        iv.settled(),
        moored(b, iv),
        coder::valid_prob(p),
        leaning::side(b, p - 2048),
    ensures
        iv.narrow(b, p).wf(),
        moored(b, iv.narrow(b, p)),
        p17(iv.width()) <= p17(iv.narrow(b, p).width()) * pow2(cost(b, p)),
{
    coder::lemma_mid_inside(iv, p);
    let w = iv.width();
    let v = iv.narrow(b, p).width();
    let q = (w - 1) / 4096;
    assert(w > 0x100_0000);
    let r = if b { p } else { 4096 - p };
    if b {
        assert(v == q * p + 1);
        assert(4096 * v >= w * (p - 1)) by (nonlinear_arith)
            requires
                v == q * p + 1,
                w <= 4096 * q + 4096,
                q >= 4096,
                1 <= p <= 4095,
        ;
    } else {
        assert(v == w - 1 - q * p);
        assert(4096 * v >= w * (r - 1)) by (nonlinear_arith)
            requires
                v == w - 1 - q * p,
                4096 * q <= w - 1,
                w >= 4096,
                1 <= p <= 4095,
                r == 4096 - p,
        ;
    }
    let least = if leaning::clear(b, p) { 2149int } else { 2047int };
    assert(r - 1 >= least);
    assert(4096 * v >= w * least) by (nonlinear_arith)
        requires
            4096 * v >= w * (r - 1),
            r - 1 >= least,
            w > 0,
    ;
    assert(w * least >= 0) by (nonlinear_arith)
        requires
            w > 0,
            least > 0,
    ;
    lemma_p17_order(w * least, 4096 * v);
    lemma_p17_product(w, least);
    lemma_p17_product(4096, v);
    lemma_p17_order(0, v);
    lemma_p17_order(0, w);
    lemma2_to64();
    let (x, y) = (p17(w), p17(v));
    if leaning::clear(b, p) {
        assert(p17(2149) * 65536 >= p17(4096)) by (nonlinear_arith);
        assert(p17(2149) > 0) by (nonlinear_arith);
        let (m, n) = (p17(2149), p17(4096));
        assert(x <= y * 65536) by (nonlinear_arith)
            requires
                x * m <= n * y,
                m * 65536 >= n,
                m > 0,
                x >= 0,
                y >= 0,
        ;
    } else {
        assert(p17(2047) * 262144 >= p17(4096)) by (nonlinear_arith);
        assert(p17(2047) > 0) by (nonlinear_arith);
        let (m, n) = (p17(2047), p17(4096));
        assert(x <= y * 262144) by (nonlinear_arith)
            requires
                x * m <= n * y,
                m * 262144 >= n,
                m > 0,
                x >= 0,
                y >= 0,
        ;
    }
}

proof fn lemma_code(b: bool, iv: Interval, items: Seq<(bool, int)>)
    requires
        iv.settled(),
        moored(b, iv),
        forall|i: int|
            0 <= i < items.len() ==> (#[trigger] items[i]).0 == b && coder::valid_prob(items[i].1)
                && leaning::side(b, items[i].1 - 2048),
    ensures
        coder::code(iv, items).len() >= 4,
        p17(iv.width()) * pow2((136 * (coder::code(iv, items).len() - 4)) as nat) <= pow2(
            544 + costs(b, items),
        ),
    decreases items.len(),
{
    lemma2_to64();
    if items.len() == 0 {
        lemma_p17_order(iv.width(), 0x1_0000_0000);
        lemma_p17_pow2(32);
        assert(pow2(32) == 0x1_0000_0000);
        assert(p17(iv.width()) * 1 == p17(iv.width()));
    } else {
        let p = items[0].1;
        assert(items[0].0 == b);
        let nv = iv.narrow(b, p);
        let rest = items.drop_first();
        lemma_narrow(b, iv, p);
        lemma_flush(b, nv);
        let z = iv.coded(b, p);
        assert forall|i: int| 0 <= i < rest.len() implies (#[trigger] rest[i]).0 == b
            && coder::valid_prob(rest[i].1) && leaning::side(b, rest[i].1 - 2048) by {
            assert(rest[i] == items[i + 1]);
        }
        lemma_code(b, z, rest);
        let e = nv.flushed().len();
        let l = (coder::code(z, rest).len() - 4) as nat;
        assert(coder::code(iv, items).len() - 4 == e + l);
        lemma_p17_product(nv.width(), pow2(8 * e) as int);
        lemma_p17_pow2(8 * e);
        assert(17 * (8 * e) == 136 * e) by (nonlinear_arith);
        lemma_pow2_adds(136 * e, 136 * l);
        assert(136 * e + 136 * l == 136 * (e + l));
        let u = costs(b, rest);
        let c = cost(b, p);
        lemma_pow2_adds(544 + u, c);
        let (x, y, s, t, g) = (
            p17(iv.width()),
            p17(nv.width()),
            pow2(136 * e) as int,
            pow2(136 * l) as int,
            pow2(c) as int,
        );
        lemma_pow2_pos(136 * e);
        lemma_pow2_pos(136 * l);
        assert(y * s * t <= pow2(544 + u));
        assert(x * (s * t) <= (y * g) * (s * t)) by (nonlinear_arith)
            requires
                x <= y * g,
                s > 0,
                t > 0,
        ;
        assert((y * g) * (s * t) == (y * s * t) * g) by (nonlinear_arith);
        lemma_pow2_pos(c);
        assert((y * s * t) * g <= pow2(544 + u) * g) by (nonlinear_arith)
            requires
                y * s * t <= pow2(544 + u),
                g > 0,
        ;
        assert((136 * (coder::code(iv, items).len() - 4)) as nat == 136 * e + 136 * l);
        assert(costs(b, items) == c + u);
        assert(544 + u + c == 544 + costs(b, items));
    }
}

/// Bits that are all the same, each under a forecast on its side, have a code that is no
/// longer than what they cost, in 17ths of a bit, and the four bytes at its end.
pub proof fn good_forecasts_make_short_codes(b: bool, items: Seq<(bool, int)>)
    requires
        forall|i: int|
            0 <= i < items.len() ==> (#[trigger] items[i]).0 == b && coder::valid_prob(items[i].1)
                && leaning::side(b, items[i].1 - 2048),
    ensures
        136 * (coder::code(Interval::full(), items).len() - 4) <= costs(b, items),
{
    let f = Interval::full();
    lemma_code(b, f, items);
    lemma2_to64();
    lemma_p17_pow2(32);
    assert(f.width() == pow2(32));
    let l = (136 * (coder::code(f, items).len() - 4)) as nat;
    let u = costs(b, items);
    lemma_pow2_adds(544, l);
    if l > u {
        lemma_pow2_strictly_increases(544 + u, 544 + l);
    }
}

// ---------------------------------------------------------------------------
// Bits that are all the same
// ---------------------------------------------------------------------------

/// The byte all of whose bits are `b`.
pub open spec fn solid(b: bool) -> u8 {
    if b {
        255
    } else {
        0
    }
}

/// `n` times that byte.
pub open spec fn run(b: bool, n: nat) -> Seq<u8> {
    Seq::new(n, |i: int| solid(b))
}

/// The partial byte after `i` bits `b`.
spec fn partial(b: bool, i: int) -> int {
    if i <= 0 {
        1
    } else if i == 1 {
        if b { 3 } else { 2 }
    } else if i == 2 {
        if b { 7 } else { 4 }
    } else if i == 3 {
        if b { 15 } else { 8 }
    } else if i == 4 {
        if b { 31 } else { 16 }
    } else if i == 5 {
        if b { 63 } else { 32 }
    } else if i == 6 {
        if b { 127 } else { 64 }
    } else {
        if b { 255 } else { 128 }
    }
}

/// Only that byte was committed.
spec fn uniform(b: bool, k: Knowledge) -> bool {
    &&& k.mm.ptr >= 0
    &&& forall|i: int| 0 <= i < k.mm.buf.len() ==> #[trigger] k.mm.buf[i] == solid(b)
}

/// The contexts of the last refinement stage are those of nothing but that byte.
spec fn calm(b: bool, k: Knowledge) -> bool {
    &&& k.hist.take(6) == run(b, 6)
    &&& k.bank.base[1] == hash::hash_of(run(b, 3), 3)
    &&& k.row6 == (hash::hash_of(run(b, 6), 71) & k.mask) as int
}

proof fn lemma_unopposed(b: bool, k: Knowledge, i: int)
    requires
        learning::leans(b, k),
        uniform(b, k),
        0 <= i < 8,
        k.c0 == partial(b, i),
    ensures
        learning::unopposed(b, k),
        k.fast() ==> k.on_track(),
        segment::bit_of(solid(b), i) == b,
{
    lemma_path(b, i);
    match k.mm.byte() {
        Some(x) => {
            assert(x == solid(b));
        },
        None => {},
    }
}

/// The bits of the byte are its path.
proof fn lemma_path(b: bool, i: int)
    requires
        0 <= i < 8,
    ensures
        1 <= partial(b, i) <= 255,
        matcher::follows(partial(b, i), solid(b)),
        matcher::upcoming(partial(b, i), solid(b)) == b,
        segment::bit_of(solid(b), i) == b,
        i < 7 ==> partial(b, i + 1) == 2 * partial(b, i) + if b { 1int } else { 0int },
{
    let c = partial(b, i);
    let v = solid(b) as int;
    if i == 0 {
        assert(matcher::lead(c) == 1);
        assert(128int / 1 == 128 && 256int / 1 == 256);
        assert((256 + v) / 128 == 2 * ((256 + v) / 256) + if b { 1int } else { 0int });
        assert((256 + v) / 256 == c);
        assert(segment::place(i) == 128);
        assert(v / 128 % 2 == if b { 1int } else { 0int });
    } else if i == 1 {
        assert(matcher::lead(c) == 2);
        assert(128int / 2 == 64 && 256int / 2 == 128);
        assert((256 + v) / 64 == 2 * ((256 + v) / 128) + if b { 1int } else { 0int });
        assert((256 + v) / 128 == c);
        assert(segment::place(i) == 64);
        assert(v / 64 % 2 == if b { 1int } else { 0int });
    } else if i == 2 {
        assert(matcher::lead(c) == 4);
        assert(128int / 4 == 32 && 256int / 4 == 64);
        assert((256 + v) / 32 == 2 * ((256 + v) / 64) + if b { 1int } else { 0int });
        assert((256 + v) / 64 == c);
        assert(segment::place(i) == 32);
        assert(v / 32 % 2 == if b { 1int } else { 0int });
    } else if i == 3 {
        assert(matcher::lead(c) == 8);
        assert(128int / 8 == 16 && 256int / 8 == 32);
        assert((256 + v) / 16 == 2 * ((256 + v) / 32) + if b { 1int } else { 0int });
        assert((256 + v) / 32 == c);
        assert(segment::place(i) == 16);
        assert(v / 16 % 2 == if b { 1int } else { 0int });
    } else if i == 4 {
        assert(matcher::lead(c) == 16);
        assert(128int / 16 == 8 && 256int / 16 == 16);
        assert((256 + v) / 8 == 2 * ((256 + v) / 16) + if b { 1int } else { 0int });
        assert((256 + v) / 16 == c);
        assert(segment::place(i) == 8);
        assert(v / 8 % 2 == if b { 1int } else { 0int });
    } else if i == 5 {
        assert(matcher::lead(c) == 32);
        assert(128int / 32 == 4 && 256int / 32 == 8);
        assert((256 + v) / 4 == 2 * ((256 + v) / 8) + if b { 1int } else { 0int });
        assert((256 + v) / 8 == c);
        assert(segment::place(i) == 4);
        assert(v / 4 % 2 == if b { 1int } else { 0int });
    } else if i == 6 {
        assert(matcher::lead(c) == 64);
        assert(128int / 64 == 2 && 256int / 64 == 4);
        assert((256 + v) / 2 == 2 * ((256 + v) / 4) + if b { 1int } else { 0int });
        assert((256 + v) / 4 == c);
        assert(segment::place(i) == 2);
        assert(v / 2 % 2 == if b { 1int } else { 0int });
    } else {
        assert(matcher::lead(c) == 128);
        assert(128int / 128 == 1 && 256int / 128 == 2);
        assert((256 + v) / 1 == 2 * ((256 + v) / 2) + if b { 1int } else { 0int });
        assert((256 + v) / 2 == c);
        assert(segment::place(i) == 1);
        assert(v / 1 % 2 == if b { 1int } else { 0int });
    }
}

/// Doubtful forecasts that a gap still allows.
spec fn owed(g: int) -> int {
    if g <= 0 {
        0
    } else {
        (g + 203) / 204
    }
}

/// One byte, bit by bit.
proof fn lemma_byte(b: bool, k: Knowledge, i: int)
    requires
        learning::leans(b, k),
        uniform(b, k),
        0 <= i <= 8,
        i < 8 ==> k.c0 == partial(b, i),
    ensures
        ({
            let v = solid(b);
            let z = segment::byte_seen(k, v, i);
            let items = segment::byte_items(k, v, i);
            &&& learning::leans(b, z)
            &&& z.mm == k.mm
            &&& z.hist == k.hist
            &&& z.row6 == k.row6
            &&& z.mask == k.mask
            &&& z.bank.base == k.bank.base
            &&& items.len() == 8 - i
            &&& costs(b, items) <= 18 * (8 - i)
            &&& costs(b, items) + 2 * owed(learning::current_gap(b, z)) <= 16 * (8 - i) + 2 * owed(
                learning::current_gap(b, k),
            )
            &&& learning::current_gap(b, z) <= learning::current_gap(b, k)
            &&& forall|j: int|
                0 <= j < items.len() ==> (#[trigger] items[j]).0 == b && coder::valid_prob(
                    items[j].1,
                ) && leaning::side(b, items[j].1 - 2048)
        }),
    decreases 8 - i,
{
    let v = solid(b);
    if i < 8 {
        lemma_unopposed(b, k, i);
        lemma_path(b, i);
        k.lemma_forecast();
        k.lemma_after_bit(b);
        learning::lemma_after_keeps(k, b);
        let s = k.after_bit(b);
        if k.fast() {
            learning::lemma_fast(b, k);
        } else {
            learning::lemma_full(b, k);
        }
        lemma_mask_kept(k, b);
        lemma_byte(b, s, i + 1);
        let rest = segment::byte_items(s, v, i + 1);
        let items = segment::byte_items(k, v, i);
        let one = (b, k.forecast());
        assert(items =~= seq![one] + rest);
        assert(items[0] == one);
        assert(items.drop_first() =~= rest);
        assert forall|j: int| 0 <= j < items.len() implies (#[trigger] items[j]).0 == b
            && coder::valid_prob(items[j].1) && leaning::side(b, items[j].1 - 2048) by {
            if j > 0 {
                assert(items[j] == rest[j - 1]);
            }
        }
    }
}

proof fn lemma_mask_kept(k: Knowledge, b: bool)
    ensures
        k.after_bit(b).mask == k.mask,
{
    reveal(Knowledge::primed);
    reveal(Knowledge::learned);
}

/// Committing the byte keeps contexts calm, and six of them make them so.
proof fn lemma_settle(b: bool, k: Knowledge, m: int)
    requires
        learning::leans(b, k),
        uniform(b, k),
        0 <= m <= 6,
        forall|i: int| 0 <= i < m ==> #[trigger] k.hist[i] == solid(b),
    ensures
        ({
            let z = k.committed(solid(b));
            &&& uniform(b, z)
            &&& z.c0 == 1
            &&& z.mask == k.mask
            &&& forall|i: int| 0 <= i < m + 1 && i < 6 ==> #[trigger] z.hist[i] == solid(b)
            &&& m >= 5 ==> calm(b, z)
        }),
{
    reveal(Knowledge::committed);
    let v = solid(b);
    let z = k.committed(v);
    k.lemma_committed(v);
    assert(z.hist =~= seq![v] + k.hist.drop_last());
    assert forall|i: int| 0 <= i < m + 1 && i < 6 implies #[trigger] z.hist[i] == v by {
        if i > 0 {
            assert(z.hist[i] == k.hist[i - 1]);
        }
    }
    if m >= 5 {
        assert(z.hist.take(6) =~= run(b, 6));
        assert(z.hist.subrange(0, 6) =~= run(b, 6));
        assert(z.hist.subrange(0, 3) =~= run(b, 3)) by {
            assert(z.hist[0] == v && z.hist[1] == v && z.hist[2] == v);
        }
        contexts::lemma_order3(
            z.turbo,
            z.hist,
            z.words,
            z.mm.buf,
            z.follow.followers(),
            z.markup,
        );
    }
}

proof fn lemma_joined(b: bool, x: Seq<(bool, int)>, y: Seq<(bool, int)>)
    ensures
        costs(b, x + y) == costs(b, x) + costs(b, y),
    decreases x.len(),
{
    if x.len() == 0 {
        assert(x + y =~= y);
    } else {
        lemma_joined(b, x.drop_first(), y);
        assert((x + y).drop_first() =~= x.drop_first() + y);
    }
}

/// All bytes of a run, after `m` of them have been seen.
proof fn lemma_run(b: bool, k: Knowledge, m: int, n: nat)
    requires
        learning::leans(b, k),
        uniform(b, k),
        k.c0 == 1,
        0 <= m <= 6,
        forall|i: int| 0 <= i < m ==> #[trigger] k.hist[i] == solid(b),
        m == 6 ==> calm(b, k),
        m < 6 ==> forall|g: Stages|
            leaning::stages_fit(k.sse, g) ==> #[trigger] leaning::last_gap(b, k.sse, g) <= 6544,
    ensures
        ({
            let items = segment::items(k, run(b, n));
            &&& m == 6 ==> costs(b, items) <= 128 * n + 2 * owed(learning::current_gap(b, k))
            &&& m < 6 ==> costs(b, items) <= 128 * n + 16 * (6 - m) + 66
            &&& forall|j: int|
                0 <= j < items.len() ==> (#[trigger] items[j]).0 == b && coder::valid_prob(
                    items[j].1,
                ) && leaning::side(b, items[j].1 - 2048)
        }),
    decreases n,
{
    let v = solid(b);
    let data = run(b, n);
    let items = segment::items(k, data);
    if n > 0 {
        let l = (n - 1) as nat;
        assert(data[0] == v);
        assert(data.drop_first() =~= run(b, l));
        lemma_byte(b, k, 0);
        let s = segment::byte_seen(k, v, 0);
        let z = s.committed(v);
        assert(segment::stepped(k, v) == z);
        lemma_settle(b, s, m);
        learning::lemma_commit(b, s, v);
        let m2 = if m < 6 { m + 1 } else { 6 };
        if m < 6 {
            lemma_gaps_kept(b, k, 0);
        }
        if m2 == 6 {
            assert(calm(b, z));
            learning::lemma_select(b, z);
        }
        lemma_run(b, z, m2, l);
        let first = segment::byte_items(k, v, 0);
        let rest = segment::items(z, run(b, l));
        assert(items == first + rest);
        lemma_joined(b, first, rest);
        assert forall|j: int| 0 <= j < items.len() implies (#[trigger] items[j]).0 == b
            && coder::valid_prob(items[j].1) && leaning::side(b, items[j].1 - 2048) by {
            if j < first.len() {
                assert(items[j] == first[j]);
            } else {
                assert(items[j] == rest[j - first.len()]);
            }
        }
        if m == 6 {
            assert(z.stages().o3 == s.stages().o3 && z.stages().o6 == s.stages().o6);
            assert(learning::current_gap(b, z) == learning::current_gap(b, s));
        } else if m2 == 6 {
            assert(learning::current_gap(b, z) <= 6544);
        }
    }
}

/// No gap widens while a byte is seen.
proof fn lemma_gaps_kept(b: bool, k: Knowledge, i: int)
    requires
        learning::leans(b, k),
        uniform(b, k),
        0 <= i <= 8,
        i < 8 ==> k.c0 == partial(b, i),
    ensures
        segment::byte_seen(k, solid(b), i).sse.turbo == k.sse.turbo,
        segment::byte_seen(k, solid(b), i).sse.a3.n == k.sse.a3.n,
        forall|g: Stages|
            leaning::stages_fit(k.sse, g) ==> #[trigger] leaning::last_gap(
                b,
                segment::byte_seen(k, solid(b), i).sse,
                g,
            ) <= leaning::last_gap(b, k.sse, g),
    decreases 8 - i,
{
    if i < 8 {
        lemma_unopposed(b, k, i);
        lemma_path(b, i);
        k.lemma_after_bit(b);
        let s = k.after_bit(b);
        if k.fast() {
            learning::lemma_fast(b, k);
            reveal(Knowledge::primed);
            reveal(Knowledge::learned);
            assert(s.sse == k.sse);
        } else {
            learning::lemma_full(b, k);
            learning::lemma_gaps(b, k);
        }
        lemma_gaps_kept(b, s, i + 1);
        let z = segment::byte_seen(k, solid(b), i);
        assert forall|g: Stages| leaning::stages_fit(k.sse, g) implies #[trigger]
            leaning::last_gap(b, z.sse, g) <= leaning::last_gap(b, k.sse, g) by {
            assert(leaning::last_gap(b, s.sse, g) <= leaning::last_gap(b, k.sse, g));
        }
    }
}

/// A run of one byte without or with nothing but set bits is compressed, under every
/// profile: the code of `n` bytes takes at most `n * 16 / 17 + 5.2` bytes, which is less
/// than `n` from 89 bytes on, with no need of a long match.
pub proof fn runs_are_compressed(b: bool, n: nat, prof: Profile)
    ensures
        136 * (segment::segment_code(run(b, n), prof).len() - 4) <= 128 * n + 162,
        n >= 89 ==> segment::segment_code(run(b, n), prof).len() < n,
{
    let k = segment::first(n as int, prof);
    Knowledge::lemma_start(n as int, prof.turbo, prof.mem as int);
    assert(k.mm.ptr == 0) by {
        reveal(Knowledge::start);
    }
    learning::lemma_start(b, n as int, prof.turbo, prof.mem as int);
    let rows = sizing::mix_rows_spec(n as int, prof.turbo, prof.mem as int);
    assert forall|g: Stages| leaning::stages_fit(k.sse, g) implies #[trigger]
        leaning::last_gap(b, k.sse, g) <= 6544 by {
        leaning::lemma_chain_start(b, prof.turbo, rows, g);
    }
    lemma_run(b, k, 0, n);
    let items = segment::items(k, run(b, n));
    assert(run(b, n).len() == n);
    good_forecasts_make_short_codes(b, items);
}

} // verus!
