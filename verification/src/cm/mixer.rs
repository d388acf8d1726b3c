//! The two-layer mixer: six context-selected weight sets combine the models'
//! stretched predictions, and a small learned combiner blends their outputs.
use vstd::prelude::*;
use crate::cm::logistic;
use crate::cm::logistic::Logistic;
use crate::cm::sizing::NINP;

verus! {

/// Outputs of the first layer: six views and a bias.
pub const NMIX: usize = 7;

/// Weight sets of the second layer.
pub const NMIX_CTX: usize = 1024;

/// Bound of a first-layer weight, with 16 fractional bits.
pub const W_CLAMP: i32 = 524287;

/// Bound of a second-layer weight.
pub const W2_CLAMP: i32 = 0x10_0000;

/// Bound of a first-layer output.
pub const S_CLAMP: i32 = 0x8000;

/// Bound of a mixer input.
pub const X_CLAMP: i32 = 2047;

// ---------------------------------------------------------------------------
// One row of weights
// ---------------------------------------------------------------------------

/// Sum of the first `k` products of weights and inputs.
pub open spec fn weighted(w: Seq<i32>, x: Seq<i32>, k: int) -> int
    decreases k,
{
    if k <= 0 {
        0
    } else {
        weighted(w, x, k - 1) + w[k - 1] * x[k - 1]
    }
}

/// Weighted sum of the inputs; weights have 16 fractional bits.
pub open spec fn dot_of(w: Seq<i32>, x: Seq<i32>) -> int {
    weighted(w, x, x.len() as int) / 65536
}

/// A weight moved along its input by the coding error.
pub open spec fn stepped(w: i32, x: i32, err: int, cap: int) -> i32 {
    logistic::clamp(w + (x * err + 0x8000) / 65536, -cap, cap) as i32
}

/// A row of weights moved along the inputs by the coding error.
pub open spec fn trained(w: Seq<i32>, x: Seq<i32>, err: int, cap: int) -> Seq<i32> {
    Seq::new(w.len(), |i: int| stepped(w[i], x[i], err, cap))
}

/// Every entry lies within `cap` of zero.
pub open spec fn within(s: Seq<i32>, cap: int) -> bool {
    forall|i: int| 0 <= i < s.len() ==> -cap <= #[trigger] s[i] <= cap
}

/// Every row lies within `cap` of zero and has `n` weights.
pub open spec fn bounded(rows: Seq<Seq<i32>>, n: int, cap: int) -> bool {
    forall|r: int| 0 <= r < rows.len() ==> #[trigger] rows[r].len() == n && within(rows[r], cap)
}

/// Training keeps weights within their bound.
pub proof fn training_keeps_bounds(w: Seq<i32>, x: Seq<i32>, err: int, cap: int)
    requires
        0 <= cap <= 0x10_0000,
    ensures
        within(trained(w, x, err, cap), cap),
{
}

proof fn lemma_step_moves(w: i32, x: i32, err: int, cap: int)
    requires
        -cap <= w <= cap,
        0 < cap <= 0x10_0000,
    ensures
        err >= 0 ==> stepped(w, x, err, cap) * x >= w * x,
        err <= 0 ==> stepped(w, x, err, cap) * x <= w * x,
        x == 256 && err > 128 && w < cap ==> stepped(w, x, err, cap) * x > w * x,
        x == 256 && err < -128 && w > -cap ==> stepped(w, x, err, cap) * x < w * x,
{
    let m = x * err;
    let d = (m + 0x8000) / 65536;
    let v = stepped(w, x, err, cap) as int;
    assert(x >= 0 && err >= 0 ==> m >= 0) by (nonlinear_arith)
        requires
            m == x * err,
    ;
    assert(x <= 0 && err >= 0 ==> m <= 0) by (nonlinear_arith)
        requires
            m == x * err,
    ;
    assert(x >= 0 && err <= 0 ==> m <= 0) by (nonlinear_arith)
        requires
            m == x * err,
    ;
    assert(x <= 0 && err <= 0 ==> m >= 0) by (nonlinear_arith)
        requires
            m == x * err,
    ;
    assert(m >= 0 ==> d >= 0 && v >= w);
    assert(m <= 0 ==> d <= 0 && v <= w);
    assert(x >= 0 && v >= w ==> v * x >= w * x) by (nonlinear_arith);
    assert(x >= 0 && v <= w ==> v * x <= w * x) by (nonlinear_arith);
    assert(x <= 0 && v >= w ==> v * x <= w * x) by (nonlinear_arith);
    assert(x <= 0 && v <= w ==> v * x >= w * x) by (nonlinear_arith);
    if x == 256 {
        assert(m == 256 * err);
        assert(v * x == 256 * v && w * x == 256 * w) by (nonlinear_arith)
            requires
                x == 256,
        ;
        if err > 128 && w < cap {
            assert(d >= 1 && v >= w + 1);
        }
        if err < -128 && w > -cap {
            assert(d <= -1 && v <= w - 1);
        }
    }
}

proof fn lemma_training_moves(w: Seq<i32>, x: Seq<i32>, err: int, cap: int, k: int)
    requires
        within(w, cap),
        0 < cap <= 0x10_0000,
        0 <= k <= w.len() == x.len(),
    ensures
        err >= 0 ==> weighted(trained(w, x, err, cap), x, k) >= weighted(w, x, k),
        err <= 0 ==> weighted(trained(w, x, err, cap), x, k) <= weighted(w, x, k),
        forall|i: int|
            0 <= i < k && #[trigger] x[i] == 256 && err > 128 && w[i] < cap ==> weighted(
                trained(w, x, err, cap),
                x,
                k,
            ) > weighted(w, x, k),
        forall|i: int|
            0 <= i < k && #[trigger] x[i] == 256 && err < -128 && w[i] > -cap ==> weighted(
                trained(w, x, err, cap),
                x,
                k,
            ) < weighted(w, x, k),
    decreases k,
{
    if k > 0 {
        lemma_training_moves(w, x, err, cap, k - 1);
        lemma_step_moves(w[k - 1], x[k - 1], err, cap);
    }
}

/// Training helps: with the same inputs, a row of weights says more for a bit that it
/// underrated and less for one that it overrated. It stands still only if the error is
/// small or the bias has reached its bound.
pub proof fn training_helps(w: Seq<i32>, x: Seq<i32>, err: int, cap: int, bias: int)
    requires
        within(w, cap),
        0 < cap <= 0x10_0000,
        w.len() == x.len(),
        0 <= bias < x.len(),
        x[bias] == 256,
    ensures
        ({
            let n = x.len() as int;
            let t = trained(w, x, err, cap);
            &&& err >= 0 ==> weighted(t, x, n) >= weighted(w, x, n)
            &&& err <= 0 ==> weighted(t, x, n) <= weighted(w, x, n)
            &&& err > 128 && w[bias] < cap ==> weighted(t, x, n) > weighted(w, x, n)
            &&& err < -128 && w[bias] > -cap ==> weighted(t, x, n) < weighted(w, x, n)
        }),
{
    lemma_training_moves(w, x, err, cap, x.len() as int);
}

/// The mixer learns: after a bit, every row that had a say in it says more for that bit
/// in the same situation, in both layers. The rows that had no say stay as they were.
pub proof fn the_mixer_learns(w: Weights, x: Seq<i32>, s: Select, bit: bool)
    requires
        w.wf(),
        w.selects(s),
        x.len() == 72,
        x[65] == 256,
    ensures
        ({
            let z = w.after(x, s, bit);
            let o = w.outputs(x, s);
            let more = |was: Seq<i32>, now: Seq<i32>, v: Seq<i32>, n: int|
                if bit {
                    weighted(now, v, n) >= weighted(was, v, n)
                } else {
                    weighted(now, v, n) <= weighted(was, v, n)
                };
            &&& more(w.a[s.a as int], z.a[s.a as int], x, 72)
            &&& more(w.d[s.d as int], z.d[s.d as int], x, 72)
            &&& more(w.f[s.f as int], z.f[s.f as int], o, 7)
            &&& !w.turbo ==> more(w.b[s.b as int], z.b[s.b as int], x, 72)
            &&& !w.turbo ==> more(w.c[s.c as int], z.c[s.c as int], x, 72)
            &&& !w.turbo ==> more(w.e[s.e as int], z.e[s.e as int], x, 72)
            &&& !w.turbo ==> more(w.g[s.g as int], z.g[s.g as int], x, 72)
            &&& bit && w.mixed(x, s) < 3968 && w.a[s.a as int][65] < 524287 ==> weighted(
                z.a[s.a as int],
                x,
                72,
            ) > weighted(w.a[s.a as int], x, 72)
            &&& !bit && w.mixed(x, s) > 128 && w.a[s.a as int][65] > -524287 ==> weighted(
                z.a[s.a as int],
                x,
                72,
            ) < weighted(w.a[s.a as int], x, 72)
            &&& forall|r: int| 0 <= r < 256 && r != s.a ==> #[trigger] z.a[r] == w.a[r]
            &&& forall|r: int| 0 <= r < 256 && r != s.d ==> #[trigger] z.d[r] == w.d[r]
            &&& forall|r: int| 0 <= r < 1024 && r != s.f ==> #[trigger] z.f[r] == w.f[r]
        }),
{
    let err = w.error(x, s, bit);
    let o = w.outputs(x, s);
    let d = dot_of(w.f[s.f as int], o);
    logistic::lemma_squash_range(d);
    let e = (if bit { 4096int } else { 0int }) - w.mixed(x, s);
    assert(e >= 0 ==> e * w.lr >= e) by (nonlinear_arith)
        requires
            w.lr >= 1,
    ;
    assert(e <= 0 ==> e * w.lr <= e) by (nonlinear_arith)
        requires
            w.lr >= 1,
    ;
    assert(o[6] == 256);
    assert(w.a[s.a as int].len() == 72 && within(w.a[s.a as int], W_CLAMP as int));
    assert(w.b[s.b as int].len() == 72 && within(w.b[s.b as int], W_CLAMP as int));
    assert(w.c[s.c as int].len() == 72 && within(w.c[s.c as int], W_CLAMP as int));
    assert(w.d[s.d as int].len() == 72 && within(w.d[s.d as int], W_CLAMP as int));
    assert(w.e[s.e as int].len() == 72 && within(w.e[s.e as int], W_CLAMP as int));
    assert(w.g[s.g as int].len() == 72 && within(w.g[s.g as int], W_CLAMP as int));
    assert(w.f[s.f as int].len() == 7 && within(w.f[s.f as int], W2_CLAMP as int));
    training_helps(w.a[s.a as int], x, err, W_CLAMP as int, 65);
    training_helps(w.b[s.b as int], x, err, W_CLAMP as int, 65);
    training_helps(w.c[s.c as int], x, err, W_CLAMP as int, 65);
    training_helps(w.d[s.d as int], x, err, W_CLAMP as int, 65);
    training_helps(w.e[s.e as int], x, err, W_CLAMP as int, 65);
    training_helps(w.g[s.g as int], x, err, W_CLAMP as int, 65);
    training_helps(w.f[s.f as int], o, err, W2_CLAMP as int, 6);
}

proof fn lemma_product(w: int, x: int, cw: int, cx: int)
    by (nonlinear_arith)
    requires
        -cw <= w <= cw,
        -cx <= x <= cx,
    ensures
        -(cw * cx) <= w * x <= cw * cx,
{
}

/// Weighted sum of the inputs in a first-layer row.
pub fn dot(w: &[i32; 72], x: &[i32; 72]) -> (r: i32)
    requires
        within(w@, W_CLAMP as int),
        within(x@, X_CLAMP as int),
    ensures
        r == dot_of(w@, x@),
        -0x20_0000 <= r <= 0x20_0000,
{
    let mut acc: i64 = 0;
    let mut i: usize = 0;
    while i < NINP
        invariant
            i <= 72,
            within(w@, W_CLAMP as int),
            within(x@, X_CLAMP as int),
            acc == weighted(w@, x@, i as int),
            -0x4000_0000 * i <= acc <= 0x4000_0000 * i,
        decreases 72 - i,
    {
        proof {
            lemma_product(w@[i as int] as int, x@[i as int] as int, W_CLAMP as int, X_CLAMP as int);
        }
        acc = acc + w[i] as i64 * x[i] as i64;
        i = i + 1;
    }
    assert(acc >> 16 == (acc as int) / 65536) by (bit_vector);
    (acc >> 16) as i32
}

/// Move a first-layer row along the inputs.
pub fn train(w: &mut [i32; 72], x: &[i32; 72], err: i32)
    requires
        within(old(w)@, W_CLAMP as int),
        within(x@, X_CLAMP as int),
        -20475 <= err <= 20475,
    ensures
        final(w)@ == trained(old(w)@, x@, err as int, W_CLAMP as int),
        within(final(w)@, W_CLAMP as int),
{
    let ghost was = w@;
    let mut i: usize = 0;
    while i < NINP
        invariant
            i <= 72,
            was.len() == 72,
            within(was, W_CLAMP as int),
            within(x@, X_CLAMP as int),
            -20475 <= err <= 20475,
            forall|j: int|
                0 <= j < 72 ==> #[trigger] w@[j] == (if j < i {
                    stepped(was[j], x@[j], err as int, W_CLAMP as int)
                } else {
                    was[j]
                }),
        decreases 72 - i,
    {
        let xi = x[i];
        proof {
            lemma_product(xi as int, err as int, X_CLAMP as int, 20475);
        }
        let m: i32 = xi * err + 0x8000;
        assert(m >> 16 == (m as int) / 65536) by (bit_vector);
        let nw: i32 = w[i] + (m >> 16);
        w[i] = if nw < -W_CLAMP {
            -W_CLAMP
        } else if nw > W_CLAMP {
            W_CLAMP
        } else {
            nw
        };
        i = i + 1;
    }
    assert(w@ =~= trained(was, x@, err as int, W_CLAMP as int));
}

/// Weighted sum of the inputs in a second-layer row.
fn dot2(w: &[i32; 7], x: &[i32; 7]) -> (r: i32)
    requires
        within(w@, W2_CLAMP as int),
        within(x@, S_CLAMP as int),
    ensures
        r == dot_of(w@, x@),
{
    let mut acc: i64 = 0;
    let mut i: usize = 0;
    while i < NMIX
        invariant
            i <= 7,
            within(w@, W2_CLAMP as int),
            within(x@, S_CLAMP as int),
            acc == weighted(w@, x@, i as int),
            -0x8_0000_0000 * i <= acc <= 0x8_0000_0000 * i,
        decreases 7 - i,
    {
        proof {
            lemma_product(w@[i as int] as int, x@[i as int] as int, W2_CLAMP as int, S_CLAMP as int);
        }
        acc = acc + w[i] as i64 * x[i] as i64;
        i = i + 1;
    }
    assert(acc >> 16 == (acc as int) / 65536) by (bit_vector);
    (acc >> 16) as i32
}

/// Move a second-layer row along the first layer's outputs.
fn train2(w: &mut [i32; 7], x: &[i32; 7], err: i32)
    requires
        within(old(w)@, W2_CLAMP as int),
        within(x@, S_CLAMP as int),
        -20475 <= err <= 20475,
    ensures
        final(w)@ == trained(old(w)@, x@, err as int, W2_CLAMP as int),
        within(final(w)@, W2_CLAMP as int),
{
    let ghost was = w@;
    let mut i: usize = 0;
    while i < NMIX
        invariant
            i <= 7,
            was.len() == 7,
            within(was, W2_CLAMP as int),
            within(x@, S_CLAMP as int),
            -20475 <= err <= 20475,
            forall|j: int|
                0 <= j < 7 ==> #[trigger] w@[j] == (if j < i {
                    stepped(was[j], x@[j], err as int, W2_CLAMP as int)
                } else {
                    was[j]
                }),
        decreases 7 - i,
    {
        let xi = x[i];
        proof {
            lemma_product(xi as int, err as int, S_CLAMP as int, 20475);
        }
        let m: i64 = xi as i64 * err as i64 + 0x8000;
        assert(m >> 16 == (m as int) / 65536) by (bit_vector);
        let nw: i64 = w[i] as i64 + (m >> 16);
        w[i] = if nw < -W2_CLAMP as i64 {
            -W2_CLAMP
        } else if nw > W2_CLAMP as i64 {
            W2_CLAMP
        } else {
            nw as i32
        };
        i = i + 1;
    }
    assert(w@ =~= trained(was, x@, err as int, W2_CLAMP as int));
}

// ---------------------------------------------------------------------------
// The mixer
// ---------------------------------------------------------------------------

/// Which row each weight set uses for the next bit.
#[derive(Clone, Copy)]
pub struct Select {
    /// By the previous byte.
    pub a: usize,
    /// By the match length.
    pub b: usize,
    /// By a hashed order-3 context.
    pub c: usize,
    /// By the partial byte.
    pub d: usize,
    /// By a hashed order-6 context.
    pub e: usize,
    /// By the current word.
    pub g: usize,
    /// By character classes, match length and bit position, in the second layer.
    pub f: usize,
}

/// Weights of the mixer.
#[verifier::ext_equal]
pub struct Weights {
    pub turbo: bool,
    pub lr: int,
    pub a: Seq<Seq<i32>>,
    pub b: Seq<Seq<i32>>,
    pub c: Seq<Seq<i32>>,
    pub d: Seq<Seq<i32>>,
    pub e: Seq<Seq<i32>>,
    pub g: Seq<Seq<i32>>,
    pub f: Seq<Seq<i32>>,
}

/// `rows` rows of `n` zero weights.
pub open spec fn zero_rows(rows: int, n: int) -> Seq<Seq<i32>> {
    Seq::new(rows as nat, |r: int| Seq::new(n as nat, |i: int| 0i32))
}

/// Initial second-layer row: an average of the views in use.
pub open spec fn average_row(turbo: bool) -> Seq<i32> {
    if turbo {
        seq![32768, 0, 0, 32768, 0, 0, 0]
    } else {
        seq![10922, 10922, 10922, 10922, 10922, 10922, 0]
    }
}

/// A first-layer output, bounded.
pub open spec fn output(w: Seq<i32>, x: Seq<i32>) -> i32 {
    logistic::clamp(dot_of(w, x), -0x8000, 0x8000) as i32
}

impl Weights {
    /// Untrained weights.
    pub open spec fn start(turbo: bool, lr: int, rows: int) -> Weights {
        Weights {
            turbo,
            lr,
            a: zero_rows(256, 72),
            b: zero_rows(64, 72),
            c: zero_rows(rows, 72),
            d: zero_rows(256, 72),
            e: zero_rows(rows, 72),
            g: zero_rows(rows, 72),
            f: Seq::new(1024, |r: int| average_row(turbo)),
        }
    }

    /// All weights lie within their bounds.
    pub open spec fn wf(self) -> bool {
        &&& 1 <= self.lr <= 5
        &&& self.a.len() == 256
        &&& self.b.len() == 64
        &&& self.d.len() == 256
        &&& self.f.len() == 1024
        &&& self.e.len() == self.c.len()
        &&& self.g.len() == self.c.len()
        &&& bounded(self.a, 72, W_CLAMP as int)
        &&& bounded(self.b, 72, W_CLAMP as int)
        &&& bounded(self.c, 72, W_CLAMP as int)
        &&& bounded(self.d, 72, W_CLAMP as int)
        &&& bounded(self.e, 72, W_CLAMP as int)
        &&& bounded(self.g, 72, W_CLAMP as int)
        &&& bounded(self.f, 7, W2_CLAMP as int)
    }

    /// The selected rows exist.
    pub open spec fn selects(self, s: Select) -> bool {
        &&& s.a < self.a.len()
        &&& s.b < self.b.len()
        &&& s.c < self.c.len()
        &&& s.d < self.d.len()
        &&& s.e < self.e.len()
        &&& s.g < self.g.len()
        &&& s.f < self.f.len()
    }

    /// Outputs of the first layer; turbo runs only two of the views.
    pub open spec fn outputs(self, x: Seq<i32>, s: Select) -> Seq<i32> {
        let (va, vd) = (output(self.a[s.a as int], x), output(self.d[s.d as int], x));
        if self.turbo {
            seq![va, 0, 0, vd, 0, 0, 256]
        } else {
            seq![
                va,
                output(self.b[s.b as int], x),
                output(self.c[s.c as int], x),
                vd,
                output(self.e[s.e as int], x),
                output(self.g[s.g as int], x),
                256,
            ]
        }
    }

    /// The mixed probability.
    pub open spec fn mixed(self, x: Seq<i32>, s: Select) -> int {
        logistic::squash(dot_of(self.f[s.f as int], self.outputs(x, s)))
    }

    /// Scaled coding error once `bit` is known.
    pub open spec fn error(self, x: Seq<i32>, s: Select, bit: bool) -> int {
        ((if bit { 4096int } else { 0int }) - self.mixed(x, s)) * self.lr
    }

    /// The weights after `bit` was coded.
    pub open spec fn after(self, x: Seq<i32>, s: Select, bit: bool) -> Weights {
        let err = self.error(x, s, bit);
        let step = |rows: Seq<Seq<i32>>, r: usize|
            rows.update(r as int, trained(rows[r as int], x, err, W_CLAMP as int));
        let f = self.f.update(
            s.f as int,
            trained(self.f[s.f as int], self.outputs(x, s), err, W2_CLAMP as int),
        );
        if self.turbo {
            Weights { a: step(self.a, s.a), d: step(self.d, s.d), f, ..self }
        } else {
            Weights {
                a: step(self.a, s.a),
                b: step(self.b, s.b),
                c: step(self.c, s.c),
                d: step(self.d, s.d),
                e: step(self.e, s.e),
                g: step(self.g, s.g),
                f,
                ..self
            }
        }
    }
}

/// What the mixer made of one set of inputs: the first layer's outputs and the
/// mixed probability.
#[derive(Clone, Copy)]
pub struct Mixed {
    pub outputs: [i32; 7],
    pub pr: i32,
}

/// Rows per page of a bank.
const ROWS: usize = 16;

/// A bank of first-layer weight rows. Pages of rows that were never trained are empty.
struct Bank {
    pages: Vec<Vec<[i32; 72]>>,
    len: usize,
}

/// An untrained row.
spec fn zero_row() -> Seq<i32> {
    Seq::new(72, |i: int| 0i32)
}

impl View for Bank {
    type V = Seq<Seq<i32>>;

    closed spec fn view(&self) -> Seq<Seq<i32>> {
        Seq::new(
            self.len as nat,
            |r: int|
                if self.pages@[r / 16]@.len() == 0 {
                    zero_row()
                } else {
                    self.pages@[r / 16]@[r % 16]@
                },
        )
    }
}

impl Bank {
    /// Every page is whole or empty.
    closed spec fn wf(self) -> bool {
        &&& self.len <= self.pages@.len() * 16
        &&& forall|p: int|
            0 <= p < self.pages@.len() ==> (#[trigger] self.pages@[p])@.len() == 0
                || self.pages@[p]@.len() == 16
    }

    fn new(rows: usize) -> (r: Bank)
        ensures
            r@ == zero_rows(rows as int, 72),
            bounded(r@, 72, W_CLAMP as int),
            r.wf(),
    {
        let count: usize = rows / ROWS + 1;
        let mut pages: Vec<Vec<[i32; 72]>> = Vec::with_capacity(count);
        let mut p: usize = 0;
        while p < count
            invariant
                p <= count,
                pages@.len() == p,
                forall|q: int| 0 <= q < p ==> (#[trigger] pages@[q])@.len() == 0,
            decreases count - p,
        {
            pages.push(Vec::new());
            p = p + 1;
        }
        let r = Bank { pages, len: rows };
        assert forall|k: int| 0 <= k < rows implies #[trigger] r@[k] == zero_rows(
            rows as int,
            72,
        )[k] by {
            assert(r@[k] =~= zero_rows(rows as int, 72)[k]);
        }
        assert(r@ =~= zero_rows(rows as int, 72));
        r
    }

    /// Bounded output of row `r`.
    fn output(&self, r: usize, x: &[i32; 72]) -> (v: i32)
        requires
            self.wf(),
            r < self@.len(),
            bounded(self@, 72, W_CLAMP as int),
            within(x@, X_CLAMP as int),
        ensures
            v == output(self@[r as int], x@),
            -0x8000 <= v <= 0x8000,
    {
        assert(within(self@[r as int], W_CLAMP as int));
        let page = &self.pages[r / ROWS];
        if page.len() == 0 {
            proof {
                lemma_zero_output(x@, 72);
            }
            return 0;
        }
        let v = dot(&page[r % ROWS], x);
        if v < -S_CLAMP {
            -S_CLAMP
        } else if v > S_CLAMP {
            S_CLAMP
        } else {
            v
        }
    }

    /// Train row `r`.
    fn train(&mut self, r: usize, x: &[i32; 72], err: i32)
        requires
            old(self).wf(),
            r < old(self)@.len(),
            bounded(old(self)@, 72, W_CLAMP as int),
            within(x@, X_CLAMP as int),
            -20475 <= err <= 20475,
        ensures
            final(self)@ == old(self)@.update(
                r as int,
                trained(old(self)@[r as int], x@, err as int, W_CLAMP as int),
            ),
            bounded(final(self)@, 72, W_CLAMP as int),
            final(self).wf(),
    {
        let ghost was = self@;
        assert(within(was[r as int], W_CLAMP as int));
        let p: usize = r / ROWS;
        if self.pages[p].len() == 0 {
            let row = [0i32;72];
            assert(row@ =~= zero_row());
            self.pages[p] = vec![row; ROWS];
            assert forall|k: int| 0 <= k < was.len() implies #[trigger] self@[k] == was[k] by {
                if k / 16 == p {
                    assert(self@[k] =~= zero_row());
                }
            }
        }
        assert(self@ =~= was);
        assert(was[r as int] == self.pages@[p as int]@[r as int % 16]@);
        let ghost goal = trained(was[r as int], x@, err as int, W_CLAMP as int);
        train(&mut self.pages[p][r % ROWS], x, err);
        assert forall|k: int| 0 <= k < was.len() implies #[trigger] self@[k] == was.update(
            r as int,
            goal,
        )[k] by {
            assert(k / 16 == p && k % 16 == r as int % 16 ==> k == r);
        }
        assert(self@ =~= was.update(r as int, goal));
        assert forall|k: int| 0 <= k < self@.len() implies #[trigger] self@[k].len() == 72 && within(
            self@[k],
            W_CLAMP as int,
        ) by {
            if k != r {
                assert(self@[k] == was[k]);
            }
        }
    }
}

/// An untrained row gives 0.
proof fn lemma_zero_output(x: Seq<i32>, k: int)
    requires
        0 <= k <= 72,
    ensures
        weighted(zero_row(), x, k) == 0,
    decreases k,
{
    if k > 0 {
        lemma_zero_output(x, k - 1);
        assert(0 * x[k - 1] == 0);
    }
}

/// The mixer.
pub struct Mixer {
    turbo: bool,
    lr: i32,
    a: Bank,
    b: Bank,
    c: Bank,
    d: Bank,
    e: Bank,
    g: Bank,
    f: Vec<[i32; 7]>,
}

impl View for Mixer {
    type V = Weights;

    closed spec fn view(&self) -> Weights {
        Weights {
            turbo: self.turbo,
            lr: self.lr as int,
            a: self.a@,
            b: self.b@,
            c: self.c@,
            d: self.d@,
            e: self.e@,
            g: self.g@,
            f: Seq::new(self.f@.len(), |r: int| self.f@[r]@),
        }
    }
}

impl Mixer {
    /// The banks are well formed and all weights lie within their bounds.
    pub closed spec fn wf(self) -> bool {
        &&& self@.wf()
        &&& self.a.wf()
        &&& self.b.wf()
        &&& self.c.wf()
        &&& self.d.wf()
        &&& self.e.wf()
        &&& self.g.wf()
    }

    /// A well-formed mixer has a well-formed view.
    pub proof fn lemma_wf(&self)
        requires
            self.wf(),
        ensures
            self@.wf(),
    {
    }

    /// An untrained mixer with `rows` rows in each hash-selected weight set.
    pub fn new(turbo: bool, lr: i32, rows: usize) -> (r: Mixer)
        requires
            1 <= lr <= 5,
        ensures
            r@ == Weights::start(turbo, lr as int, rows as int),
            r.wf(),
    {
        let row: [i32; 7] = if turbo {
            [32768, 0, 0, 32768, 0, 0, 0]
        } else {
            [10922, 10922, 10922, 10922, 10922, 10922, 0]
        };
        assert(row@ =~= average_row(turbo));
        let r = Mixer {
            turbo,
            lr,
            a: Bank::new(256),
            b: Bank::new(64),
            c: Bank::new(rows),
            d: Bank::new(256),
            e: Bank::new(rows),
            g: Bank::new(rows),
            f: vec![row; NMIX_CTX],
        };
        assert forall|k: int| 0 <= k < 1024 implies #[trigger] r@.f[k] == average_row(turbo) by {
            assert(r@.f[k] =~= average_row(turbo));
        }
        assert(r@ =~= Weights::start(turbo, lr as int, rows as int));
        r
    }

    /// Mix the inputs `x` with the selected weights.
    pub fn mix(&self, lg: &Logistic, x: &[i32; 72], s: &Select) -> (r: Mixed)
        requires
            self.wf(),
            self@.selects(*s),
            within(x@, X_CLAMP as int),
        ensures
            r.outputs@ == self@.outputs(x@, *s),
            r.pr == self@.mixed(x@, *s),
            1 <= r.pr <= 4095,
            within(r.outputs@, S_CLAMP as int),
    {
        let va = self.a.output(s.a, x);
        let vd = self.d.output(s.d, x);
        let outputs: [i32; 7] = if self.turbo {
            [va, 0, 0, vd, 0, 0, 256]
        } else {
            [
                va,
                self.b.output(s.b, x),
                self.c.output(s.c, x),
                vd,
                self.e.output(s.e, x),
                self.g.output(s.g, x),
                256,
            ]
        };
        assert(outputs@ =~= self@.outputs(x@, *s));
        assert(within(outputs@, S_CLAMP as int));
        assert(within(self@.f[s.f as int], W2_CLAMP as int));
        assert(self@.f[s.f as int] == self.f@[s.f as int]@);
        let pr = lg.squash(dot2(&self.f[s.f], &outputs));
        Mixed { outputs, pr }
    }

    /// Train the selected weights on the coding error of `bit`.
    pub fn update(&mut self, x: &[i32; 72], s: &Select, m: &Mixed, bit: bool)
        requires
            old(self).wf(),
            old(self)@.selects(*s),
            within(x@, X_CLAMP as int),
            m.outputs@ == old(self)@.outputs(x@, *s),
            within(m.outputs@, S_CLAMP as int),
            m.pr == old(self)@.mixed(x@, *s),
            1 <= m.pr <= 4095,
        ensures
            final(self)@ == old(self)@.after(x@, *s, bit),
            final(self).wf(),
    {
        let ghost was = self@;
        let t: i32 = if bit {
            4096
        } else {
            0
        };
        assert(-20475 <= (t - m.pr) * self.lr <= 20475) by (nonlinear_arith)
            requires
                1 <= self.lr <= 5,
                -4095 <= t - m.pr <= 4095,
        ;
        let err: i32 = (t - m.pr) * self.lr;
        assert(err == was.error(x@, *s, bit));
        self.a.train(s.a, x, err);
        self.d.train(s.d, x, err);
        if !self.turbo {
            self.b.train(s.b, x, err);
            self.c.train(s.c, x, err);
            self.e.train(s.e, x, err);
            self.g.train(s.g, x, err);
        }
        let ghost row = was.f[s.f as int];
        assert(within(row, W2_CLAMP as int));
        assert(row == self.f@[s.f as int]@);
        train2(&mut self.f[s.f], &m.outputs, err);
        let ghost fresh = trained(row, m.outputs@, err as int, W2_CLAMP as int);
        assert(self@.f =~= was.f.update(s.f as int, fresh));
        assert forall|k: int| 0 <= k < self@.f.len() implies #[trigger] self@.f[k].len() == 7
            && within(self@.f[k], W2_CLAMP as int) by {
            if k != s.f {
                assert(self@.f[k] == was.f[k]);
            }
        }
        assert(self@ =~= was.after(x@, *s, bit));
    }
}

} // verus!
