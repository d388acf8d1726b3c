//! How the parts of the predictor lean: as long as only one kind of bit was learned,
//! every estimate, every vote and every weight is on the side of that bit.
use vstd::prelude::*;
use crate::cm::apm;
use crate::cm::apm::Nodes;
use crate::cm::bank;
use crate::cm::bank::BankState;
use crate::cm::counters;
use crate::cm::counters::DualCounter;
use crate::cm::logistic;
use crate::cm::mixer;
use crate::cm::mixer::{Select, Weights};
use crate::cm::sizing;
use crate::cm::sse;
use crate::cm::sse::{SseState, Stages};
use crate::cm::states;
use crate::cm::states::{Buckets, SmEntry};

verus! {

/// `v` is on the side of `b`: not negative for a 1, not positive for a 0.
pub open spec fn side(b: bool, v: int) -> bool {
    if b {
        v >= 0
    } else {
        v <= 0
    }
}

/// `v` is at least as far on the side of `b` as `u`.
pub open spec fn onward(b: bool, u: int, v: int) -> bool {
    side(b, v - u)
}

proof fn lemma_product_side(b: bool, w: int, x: int)
    requires
        w >= 0,
        side(b, x),
    ensures
        side(b, w * x),
{
    assert(x >= 0 ==> w * x >= 0) by (nonlinear_arith)
        requires
            w >= 0,
    ;
    assert(x <= 0 ==> w * x <= 0) by (nonlinear_arith)
        requires
            w >= 0,
    ;
}

proof fn lemma_product_same(b: bool, x: int, y: int)
    requires
        side(b, x),
        side(b, y),
    ensures
        x * y >= 0,
{
    assert(x >= 0 && y >= 0 ==> x * y >= 0) by (nonlinear_arith);
    assert(x <= 0 && y <= 0 ==> x * y >= 0) by (nonlinear_arith);
}

// ---------------------------------------------------------------------------
// Estimates
// ---------------------------------------------------------------------------

/// An estimate moves toward the observed bit and stays in its range.
pub proof fn lemma_drift(b: bool, v: int, num: int, den: int)
    requires
        0 <= v <= 65535,
        0 <= num < den,
    ensures
        0 <= counters::drift(v, b, num, den) <= 65535,
        onward(b, v, counters::drift(v, b, num, den)),
{
    counters::lemma_drift_range(v, b, num, den);
    let d = counters::target(b) - v;
    if b {
        assert(d * num / den >= 0) by (nonlinear_arith)
            requires
                d >= 0,
                0 <= num < den,
        ;
    } else {
        assert(d * num / den <= 0) by (nonlinear_arith)
            requires
                d <= 0,
                0 <= num < den,
        ;
    }
}

/// Both estimates of a counter are on the side of `b`.
pub open spec fn counter_leans(b: bool, c: DualCounter) -> bool {
    side(b, c.fast - 32768) && side(b, c.slow - 32768)
}

proof fn lemma_rate(cnt: int)
    requires
        cnt >= 0,
    ensures
        0 <= counters::rate(cnt) < 65536,
{
    assert(0 <= 65536int / (cnt + 2) < 65536) by (nonlinear_arith)
        requires
            cnt >= 0,
    ;
}

pub proof fn lemma_counter(b: bool, c: DualCounter)
    requires
        counter_leans(b, c),
    ensures
        counter_leans(b, c.after(b)),
{
    lemma_rate(c.cnt as int);
    lemma_drift(b, c.fast as int, 8192, 65536);
    lemma_drift(b, c.slow as int, counters::rate(c.cnt as int), 65536);
}

/// All counters lean.
#[verifier::opaque]
pub open spec fn counters_lean(b: bool, s: Seq<DualCounter>) -> bool {
    forall|i: int| 0 <= i < s.len() ==> counter_leans(b, #[trigger] s[i])
}

pub proof fn lemma_counters(b: bool, s: Seq<DualCounter>, i: int)
    requires
        counters_lean(b, s),
        0 <= i < s.len(),
    ensures
        counters_lean(b, s.update(i, s[i].after(b))),
        side(b, logistic::stretch(s[i].fast as int / 16)),
        side(b, logistic::stretch(s[i].slow as int / 16)),
        side(b, s[i].slow - 32768),
{
    reveal(counters_lean);
    assert(counter_leans(b, s[i]));
    lemma_counter(b, s[i]);
    logistic::stretch_keeps_sides(s[i].fast as int / 16);
    logistic::stretch_keeps_sides(s[i].slow as int / 16);
}

// ---------------------------------------------------------------------------
// Bit histories
// ---------------------------------------------------------------------------

/// A state that has seen no bit but `b`.
pub open spec fn state_leans(b: bool, s: u8) -> bool {
    if b {
        s as int / 16 == 0
    } else {
        s as int % 16 == 0
    }
}

/// All states of a table have seen no bit but `b`.
pub open spec fn table_leans(b: bool, t: Buckets) -> bool {
    t.wf() && forall|i: int| 0 <= i < t.t.len() && i % 16 != 0 ==> state_leans(b, #[trigger] t.t[i])
}

/// All entries for such states are on the side of `b`.
pub open spec fn map_leans(b: bool, m: Seq<SmEntry>) -> bool {
    forall|i: int|
        0 <= i < m.len() && state_leans(b, (i % 256) as u8) ==> side(b, (#[trigger] m[i]).p - 32768)
}

/// Model `i` has seen no bit but `b`, and its current states are a bucket.
pub open spec fn model_leans(b: bool, k: BankState, i: int) -> bool {
    &&& table_leans(b, k.tables[i])
    &&& k.off[i] % 16 == 1
    &&& 1 <= k.off[i]
    &&& k.off[i] + 15 <= k.tables[i].t.len()
}

/// The bank has seen no bit but `b`.
#[verifier::opaque]
pub open spec fn bank_leans(b: bool, k: BankState) -> bool {
    &&& 1 <= k.tables.len() <= 30
    &&& k.off.len() == k.tables.len()
    &&& k.maps.len() == k.tables.len() * 1024
    &&& map_leans(b, k.maps)
    &&& forall|i: int| 0 <= i < k.tables.len() ==> #[trigger] model_leans(b, k, i)
}

proof fn lemma_found_leans(b: bool, t: Buckets, h: u32)
    requires
        table_leans(b, t),
    ensures
        table_leans(b, t.found(h)),
        t.offset(h) % 16 == 1,
        1 <= t.offset(h),
        t.offset(h) + 15 <= t.found(h).t.len(),
{
    t.lemma_found(h);
    let f = t.found(h);
    let i = t.at(h, t.choice(h));
    assert(i % 16 == 0) by {
        let q = (h & t.mask & !((t.ways - 1) as u32)) + t.choice(h);
        assert(i == q * 16);
    }
    assert forall|j: int| 0 <= j < f.t.len() && j % 16 != 0 implies state_leans(
        b,
        #[trigger] f.t[j],
    ) by {
        assert(state_leans(b, t.t[j]));
    }
}

pub proof fn lemma_anchored(b: bool, k: BankState, c0: int)
    requires
        bank_leans(b, k),
    ensures
        bank_leans(b, k.anchored(c0)),
{
    reveal(bank_leans);
    let a = k.anchored(c0);
    if c0 == 1 || 16 <= c0 < 32 {
        assert forall|i: int| 0 <= i < a.tables.len() implies #[trigger] model_leans(b, a, i) by {
            assert(model_leans(b, k, i));
            lemma_found_leans(b, k.tables[i], k.bucket_hash(i, c0));
        }
        assert(a.maps == k.maps && a.tables.len() == k.tables.len());
        assert(a.off.len() == a.tables.len());
    } else {
        assert(a == k);
    }
}

proof fn lemma_estimate(b: bool, s: int)
    requires
        0 <= s < 256,
        state_leans(b, s as u8),
    ensures
        side(b, states::estimate(s, 65536) - 32768),
        side(b, states::estimate(s, 4096) - 2048),
        side(b, states::direct(s)),
{
    let (n0, n1) = (s / 16, s % 16);
    let d = 2 * n0 + 2 * n1 + 2;
    let a = 2 * n1 + 1;
    let x = (2 * a * 65536 + d) / (2 * d);
    let y = (2 * a * 4096 + d) / (2 * d);
    if b {
        assert(2 * a >= d);
        assert(x >= 32768 && y >= 2048) by (nonlinear_arith)
            requires
                2 * a >= d,
                d > 0,
                x == (2 * a * 65536 + d) / (2 * d),
                y == (2 * a * 4096 + d) / (2 * d),
        ;
    } else {
        assert(2 * a <= d);
        assert(x <= 32768 && y <= 2048) by (nonlinear_arith)
            requires
                2 * a <= d,
                d > 0,
                x == (2 * a * 65536 + d) / (2 * d),
                y == (2 * a * 4096 + d) / (2 * d),
        ;
    }
    logistic::stretch_keeps_sides(logistic::clamp(states::estimate(s, 4096), 1, 4095));
}

proof fn lemma_place(b: bool, k: BankState, i: int, c0: int)
    requires
        bank_leans(b, k),
        0 <= i < k.tables.len(),
        1 <= c0 <= 255,
    ensures
        0 <= k.node(i, c0) < k.tables[i].t.len(),
        k.node(i, c0) % 16 != 0,
        state_leans(b, k.state(i, c0)),
        i * 1024 <= k.entry(i, c0) < (i + 1) * 1024,
        k.entry(i, c0) < k.maps.len(),
        k.entry(i, c0) / 1024 == i,
        k.entry(i, c0) % 256 == k.state(i, c0),
{
    reveal(bank_leans);
    assert(model_leans(b, k, i));
    assert(1 <= bank::nib_path(c0) <= 15);
    let n = k.node(i, c0);
    let o = k.off[i];
    let q = o / 16;
    assert(o == 16 * q + 1);
    assert(n % 16 != 0);
    assert(state_leans(b, k.tables[i].t[n]));
    assert(bank::plane(c0) % 256 == 0 && 0 <= bank::plane(c0) <= 768);
}

/// What the bank says about the next bit is on the side of `b`.
pub proof fn lemma_input(b: bool, k: BankState, i: int, c0: int)
    requires
        bank_leans(b, k),
        0 <= i < 2 * k.tables.len(),
        1 <= c0 <= 255,
    ensures
        side(b, k.input(i, c0)),
{
    let m = i / 2;
    lemma_place(b, k, m, c0);
    reveal(bank_leans);
    let e = k.entry(m, c0);
    let s = k.state(m, c0);
    assert((e % 256) as u8 == s);
    assert(side(b, k.maps[e].p - 32768));
    logistic::stretch_keeps_sides(k.maps[e].p as int / 16);
    lemma_estimate(b, s as int);
}

pub proof fn lemma_bank_after(b: bool, k: BankState, c0: int)
    requires
        bank_leans(b, k),
        1 <= c0 <= 255,
    ensures
        bank_leans(b, k.after(c0, b)),
{
    let a = k.after(c0, b);
    assert forall|i: int| 0 <= i < k.tables.len() implies #[trigger] model_leans(b, a, i) by {
        lemma_place(b, k, i, c0);
        reveal(bank_leans);
        assert(model_leans(b, k, i));
        let s = k.state(i, c0);
        let t = a.tables[i];
        assert forall|j: int| 0 <= j < t.t.len() && j % 16 != 0 implies state_leans(
            b,
            #[trigger] t.t[j],
        ) by {
            assert(state_leans(b, k.tables[i].t[j]));
        }
    }
    assert(map_leans(b, a.maps)) by {
        reveal(bank_leans);
        assert forall|i: int| 0 <= i < a.maps.len() && state_leans(b, (i % 256) as u8) implies side(
            b,
            (#[trigger] a.maps[i]).p - 32768,
        ) by {
            assert(side(b, k.maps[i].p - 32768));
            lemma_rate(k.maps[i].cnt as int);
            lemma_drift(
                b,
                k.maps[i].p as int,
                counters::rate(k.maps[i].cnt as int),
                65536,
            );
        }
    }
    reveal(bank_leans);
}

proof fn lemma_empty(bits: u32, ways: u32)
    requires
        2 <= bits <= 25,
        ways == 2 || ways == 4,
    ensures
        Buckets::empty(bits, ways).wf(),
{
    assert(2u32 <= bits && bits <= 25u32 ==> (1u32 << bits) <= 0x200_0000u32 && (1u32 << bits)
        >= 4u32 && (1u32 << bits) & 3u32 == 0u32) by (bit_vector);
    let n: u32 = 1u32 << bits;
    assert(n & 3 == 0 && n >= 4 ==> ((n - 1) as u32) & 3 == 3) by (bit_vector);
}

pub proof fn lemma_bank_start(b: bool, n: int, turbo: bool, mem: int)
    ensures
        bank_leans(b, BankState::start(n, turbo, mem)),
{
    reveal(bank_leans);
    let k = BankState::start(n, turbo, mem);
    assert forall|i: int| 0 <= i < k.tables.len() implies #[trigger] model_leans(b, k, i) by {
        let bits = sizing::model_bits_spec(i, n, mem);
        assert(11 <= bits <= 25);
        lemma_empty(bits as u32, k.tables[i].ways);
    }
    assert(map_leans(b, k.maps)) by {
        assert forall|i: int| 0 <= i < k.maps.len() && state_leans(b, (i % 256) as u8) implies side(
            b,
            (#[trigger] k.maps[i]).p - 32768,
        ) by {
            lemma_estimate(b, i % 256);
        }
    }
}

// ---------------------------------------------------------------------------
// The mixer
// ---------------------------------------------------------------------------

/// A row of weights trusts every vote, and its own bias is on the side of `b`.
pub open spec fn row_leans(b: bool, w: Seq<i32>, bias: int) -> bool {
    &&& w.len() > bias
    &&& forall|i: int| 0 <= i < w.len() && i != bias ==> #[trigger] w[i] >= 0
    &&& side(b, w[bias] as int)
}

/// Every vote is on the side of `b`; the bias votes for itself.
pub open spec fn votes_lean(b: bool, x: Seq<i32>, bias: int) -> bool {
    &&& x.len() > bias
    &&& forall|i: int| 0 <= i < x.len() && i != bias ==> side(b, #[trigger] x[i] as int)
    &&& x[bias] == 256
}

/// All rows lean.
pub open spec fn rows_lean(b: bool, rows: Seq<Seq<i32>>, n: int, bias: int) -> bool {
    forall|r: int|
        0 <= r < rows.len() ==> (#[trigger] rows[r]).len() == n && row_leans(b, rows[r], bias)
}

/// All weights lean.
#[verifier::opaque]
pub open spec fn weights_lean(b: bool, w: Weights) -> bool {
    &&& w.lr >= 1
    &&& w.a.len() == 256
    &&& w.b.len() == 64
    &&& w.d.len() == 256
    &&& w.f.len() == 1024
    &&& w.e.len() == w.c.len()
    &&& w.g.len() == w.c.len()
    &&& rows_lean(b, w.a, 72, 65)
    &&& rows_lean(b, w.b, 72, 65)
    &&& rows_lean(b, w.c, 72, 65)
    &&& rows_lean(b, w.d, 72, 65)
    &&& rows_lean(b, w.e, 72, 65)
    &&& rows_lean(b, w.g, 72, 65)
    &&& rows_lean(b, w.f, 7, 6)
}

proof fn lemma_weighted(b: bool, w: Seq<i32>, x: Seq<i32>, bias: int, k: int)
    requires
        row_leans(b, w, bias),
        votes_lean(b, x, bias),
        0 <= bias,
        0 <= k <= x.len() == w.len(),
    ensures
        side(b, mixer::weighted(w, x, k)),
    decreases k,
{
    if k > 0 {
        lemma_weighted(b, w, x, bias, k - 1);
        let (u, v) = (w[k - 1] as int, x[k - 1] as int);
        if k - 1 == bias {
            lemma_product_side(b, v, u);
            assert(u * v == v * u) by (nonlinear_arith);
        } else {
            assert(w[k - 1] >= 0);
            assert(side(b, x[k - 1] as int));
            lemma_product_side(b, u, v);
        }
    }
}

proof fn lemma_dot(b: bool, w: Seq<i32>, x: Seq<i32>, bias: int)
    requires
        row_leans(b, w, bias),
        votes_lean(b, x, bias),
        0 <= bias,
        x.len() == w.len(),
    ensures
        side(b, mixer::dot_of(w, x)),
{
    lemma_weighted(b, w, x, bias, x.len() as int);
}

proof fn lemma_trained(b: bool, w: Seq<i32>, x: Seq<i32>, bias: int, err: int, cap: int)
    requires
        row_leans(b, w, bias),
        votes_lean(b, x, bias),
        0 <= bias,
        x.len() == w.len(),
        side(b, err),
        0 < cap <= 0x10_0000,
    ensures
        row_leans(b, mixer::trained(w, x, err, cap), bias),
{
    let t = mixer::trained(w, x, err, cap);
    assert forall|i: int| 0 <= i < t.len() && i != bias implies #[trigger] t[i] >= 0 by {
        assert(w[i] >= 0);
        assert(side(b, x[i] as int));
        lemma_product_same(b, x[i] as int, err);
    }
    assert(t[bias] == mixer::stepped(w[bias], x[bias], err, cap));
    assert(256 * err == x[bias] * err);
}

proof fn lemma_step_rows(b: bool, rows: Seq<Seq<i32>>, n: int, bias: int, r: int, x: Seq<i32>, err: int, cap: int)
    requires
        rows_lean(b, rows, n, bias),
        0 <= r < rows.len(),
        votes_lean(b, x, bias),
        x.len() == n,
        0 <= bias,
        side(b, err),
        0 < cap <= 0x10_0000,
    ensures
        rows_lean(b, rows.update(r, mixer::trained(rows[r], x, err, cap)), n, bias),
{
    assert(row_leans(b, rows[r], bias));
    lemma_trained(b, rows[r], x, bias, err, cap);
}

pub proof fn lemma_outputs(b: bool, w: Weights, x: Seq<i32>, s: Select)
    requires
        weights_lean(b, w),
        votes_lean(b, x, 65),
        x.len() == 72,
        w.selects(s),
    ensures
        votes_lean(b, w.outputs(x, s), 6),
        w.outputs(x, s).len() == 7,
        side(b, w.mixed(x, s) - 2048),
        side(b, w.error(x, s, b)),
{
    reveal(weights_lean);
    lemma_dot(b, w.a[s.a as int], x, 65);
    lemma_dot(b, w.b[s.b as int], x, 65);
    lemma_dot(b, w.c[s.c as int], x, 65);
    lemma_dot(b, w.d[s.d as int], x, 65);
    lemma_dot(b, w.e[s.e as int], x, 65);
    lemma_dot(b, w.g[s.g as int], x, 65);
    let o = w.outputs(x, s);
    assert forall|i: int| 0 <= i < o.len() && i != 6 implies side(b, #[trigger] o[i] as int) by {}
    lemma_dot(b, w.f[s.f as int], o, 6);
    let d = mixer::dot_of(w.f[s.f as int], o);
    logistic::squash_keeps_sides(d);
    logistic::lemma_squash_range(d);
    let e = (if b { 4096int } else { 0int }) - w.mixed(x, s);
    lemma_product_side(b, w.lr, e);
    assert(e * w.lr == w.lr * e) by (nonlinear_arith);
}

pub proof fn lemma_weights_after(b: bool, w: Weights, x: Seq<i32>, s: Select)
    requires
        weights_lean(b, w),
        votes_lean(b, x, 65),
        x.len() == 72,
        w.selects(s),
    ensures
        weights_lean(b, w.after(x, s, b)),
        w.after(x, s, b).turbo == w.turbo,
        w.after(x, s, b).c.len() == w.c.len(),
{
    lemma_outputs(b, w, x, s);
    reveal(weights_lean);
    let err = w.error(x, s, b);
    let cap = mixer::W_CLAMP as int;
    lemma_step_rows(b, w.a, 72, 65, s.a as int, x, err, cap);
    lemma_step_rows(b, w.b, 72, 65, s.b as int, x, err, cap);
    lemma_step_rows(b, w.c, 72, 65, s.c as int, x, err, cap);
    lemma_step_rows(b, w.d, 72, 65, s.d as int, x, err, cap);
    lemma_step_rows(b, w.e, 72, 65, s.e as int, x, err, cap);
    lemma_step_rows(b, w.g, 72, 65, s.g as int, x, err, cap);
    lemma_step_rows(
        b,
        w.f,
        7,
        6,
        s.f as int,
        w.outputs(x, s),
        err,
        mixer::W2_CLAMP as int,
    );
}

pub proof fn lemma_weights_start(b: bool, turbo: bool, lr: int, rows: int)
    requires
        lr >= 1,
        rows >= 0,
    ensures
        weights_lean(b, Weights::start(turbo, lr, rows)),
{
    reveal(weights_lean);
    let f = mixer::average_row(turbo);
    assert(row_leans(b, f, 6));
}

// ---------------------------------------------------------------------------
// Refinement
// ---------------------------------------------------------------------------

/// Node `j` of a map, with the value `v`, is on the side of `b`, if it serves that side.
pub open spec fn node_leans(b: bool, j: int, v: int) -> bool {
    if b {
        (j >= 16 ==> v >= 32768) && (j >= 17 ==> v >= 39312)
    } else {
        (j <= 16 ==> v <= 32768) && (j <= 15 ==> v <= 26224)
    }
}

/// All nodes of a map lean.
#[verifier::opaque]
pub open spec fn nodes_lean(b: bool, x: Nodes) -> bool {
    &&& x.n >= 1
    &&& x.t.len() == x.n * 33
    &&& forall|i: int| 0 <= i < x.t.len() ==> node_leans(b, i % 33, #[trigger] x.t[i] as int)
}

/// How far the middle node of context `c` is from where the side is clear.
pub open spec fn gap(b: bool, x: Nodes, c: int) -> int {
    if b {
        39312 - x.t[c * 33 + 16]
    } else {
        x.t[c * 33 + 16] - 26224
    }
}

/// A probability that the middle nodes serve.
pub open spec fn near(p: int) -> bool {
    -64 < logistic::stretch(p) < 64
}

pub proof fn lemma_identity(b: bool, n: int)
    requires
        n >= 1,
    ensures
        nodes_lean(b, Nodes::identity(n)),
        forall|c: int| 0 <= c < n ==> #[trigger] gap(b, Nodes::identity(n), c) <= 6544,
{
    reveal(nodes_lean);
    let x = Nodes::identity(n);
    assert forall|i: int| 0 <= i < x.t.len() implies node_leans(
        b,
        i % 33,
        #[trigger] x.t[i] as int,
    ) by {
        let d = (i % 33 - 16) * 128;
        logistic::squash_keeps_sides(d);
        logistic::lemma_squash_range(d);
    }
    assert forall|c: int| 0 <= c < n implies #[trigger] gap(b, x, c) <= 6544 by {
        assert((c * 33 + 16) % 33 == 16);
        assert(c * 33 + 16 < n * 33);
        logistic::squash_keeps_sides(0);
    }
}

/// A look-up on the side of `b` stays there, and learning `b` moves the nodes onward.
pub proof fn lemma_look(b: bool, x: Nodes, pr: int, c: int)
    requires
        nodes_lean(b, x),
        0 <= c < x.n,
        side(b, pr - 2048),
    ensures
        ({
            let y = x.looked_up(pr, c);
            let z = y.after(b);
            let q = y.interpolated();
            &&& side(b, q - 2048)
            &&& 1 <= q <= 4095
            &&& nodes_lean(b, z)
            &&& z.n == x.n
            &&& forall|d: int| 0 <= d < x.n ==> #[trigger] gap(b, z, d) <= gap(b, x, d)
            &&& near(pr) && gap(b, x, c) > 0 ==> gap(b, z, c) <= gap(b, x, c) - 204
            &&& near(pr) && gap(b, x, c) <= 0 ==> (if b {
                q >= 2457
            } else {
                q <= 1639
            })
            &&& near(pr) && gap(b, x, c) <= 6340 ==> (if b {
                q >= 2060
            } else {
                q <= 2036
            })
        }),
{
    reveal(nodes_lean);
    let y = x.looked_up(pr, c);
    let z = y.after(b);
    logistic::stretch_keeps_sides(pr);
    logistic::lemma_stretch_range(pr);
    let s = Nodes::place(pr);
    let (j, w) = (s / 128, s % 128);
    let base = c * 33 + j;
    assert(0 <= j <= 31);
    assert(c * 33 + 33 <= x.n * 33) by (nonlinear_arith)
        requires
            c + 1 <= x.n,
    ;
    assert(base % 33 == j && (base + 1) % 33 == j + 1);
    let (lo, hi) = (x.t[base] as int, x.t[base + 1] as int);
    assert(node_leans(b, j, lo) && node_leans(b, j + 1, hi));
    let m = lo * (128 - w) + hi * w;
    lemma_drift(b, lo, 128 - w, 8192);
    lemma_drift(b, hi, w, 8192);
    assert forall|i: int| 0 <= i < z.t.len() implies {
        &&& onward(b, x.t[i] as int, #[trigger] z.t[i] as int)
        &&& node_leans(b, i % 33, z.t[i] as int)
    } by {
        assert(node_leans(b, i % 33, x.t[i] as int));
    }
    assert forall|d: int| 0 <= d < x.n implies #[trigger] gap(b, z, d) <= gap(b, x, d) by {
        let i = d * 33 + 16;
        assert(0 <= i < x.n * 33) by (nonlinear_arith)
            requires
                0 <= d < x.n,
                i == d * 33 + 16,
        ;
        assert(onward(b, x.t[i] as int, z.t[i] as int));
    }
    lemma_mean(b, lo, hi, w);
    let q = y.interpolated();
    assert(q == logistic::clamp(m / 128 / 16, 1, 4095));
    assert(side(b, q - 2048));
    let i = c * 33 + 16;
    assert(0 <= i < x.t.len());
    let v = x.t[i] as int;
    if near(pr) {
        // The middle node has at least half the weight.
        if b {
            assert(j == 16 && w < 64 && lo == v && hi >= 39312);
            lemma_blend(v, hi, w, 39312);
            if gap(b, x, c) > 0 {
                assert((65536 - v) * (128 - w) >= 26224 * 64) by (nonlinear_arith)
                    requires
                        v <= 39312,
                        0 <= w <= 64,
                ;
                assert((65536 - v) * (128 - w) / 8192 >= 204);
            }
        } else if s == 2048 {
            assert(j == 16 && w == 0 && lo == v);
            assert(m == 128 * v) by (nonlinear_arith)
                requires
                    m == lo * (128 - w) + hi * w,
                    w == 0,
                    lo == v,
            ;
            assert((0 - v) * (128 - w) == -(128 * v)) by (nonlinear_arith)
                requires
                    w == 0,
            ;
            if gap(b, x, c) > 0 {
                assert((-(128 * v)) / 8192 <= -204);
            }
        } else {
            assert(j == 15 && w >= 64 && hi == v && lo <= 26224);
            lemma_blend_low(v, lo, w, 26224);
            if gap(b, x, c) > 0 {
                assert((0 - v) * w <= -(26224 * 64)) by (nonlinear_arith)
                    requires
                        v >= 26224,
                        w >= 64,
                ;
                assert((0 - v) * w / 8192 <= -204);
            }
        }
        assert(z.t[i] == (if b || s == 2048 {
            counters::drift(lo, b, 128 - w, 8192)
        } else {
            counters::drift(hi, b, w, 8192)
        }));
    }
}

proof fn lemma_mean(b: bool, lo: int, hi: int, w: int)
    requires
        0 <= w < 128,
        0 <= lo <= 65535,
        0 <= hi <= 65535,
        side(b, lo - 32768),
        side(b, hi - 32768) || w == 0,
    ensures
        0 <= lo * (128 - w) + hi * w <= 65535 * 128,
        side(b, lo * (128 - w) + hi * w - 32768 * 128),
{
    let m = lo * (128 - w) + hi * w;
    assert(0 <= m <= 65535 * 128) by (nonlinear_arith)
        requires
            m == lo * (128 - w) + hi * w,
            0 <= w < 128,
            0 <= lo <= 65535,
            0 <= hi <= 65535,
    ;
    if b {
        assert(m >= 32768 * 128) by (nonlinear_arith)
            requires
                m == lo * (128 - w) + hi * w,
                0 <= w < 128,
                lo >= 32768,
                hi >= 32768 || w == 0,
        ;
    } else {
        assert(m <= 32768 * 128) by (nonlinear_arith)
            requires
                m == lo * (128 - w) + hi * w,
                0 <= w < 128,
                lo <= 32768,
                hi <= 32768 || w == 0,
        ;
    }
}

/// Between a node and one that lies beyond `cap` nothing is below both.
proof fn lemma_blend(v: int, hi: int, w: int, cap: int)
    requires
        0 <= w < 128,
        hi >= cap,
    ensures
        v >= cap ==> v * (128 - w) + hi * w >= cap * 128,
        v <= cap ==> v * (128 - w) + hi * w >= v * 128,
{
    let m = v * (128 - w) + hi * w;
    assert(v >= cap ==> m >= cap * 128) by (nonlinear_arith)
        requires
            m == v * (128 - w) + hi * w,
            0 <= w < 128,
            hi >= cap,
    ;
    assert(v <= cap ==> m >= v * 128) by (nonlinear_arith)
        requires
            m == v * (128 - w) + hi * w,
            0 <= w < 128,
            hi >= cap,
    ;
}

proof fn lemma_blend_low(v: int, lo: int, w: int, cap: int)
    requires
        0 <= w < 128,
        lo <= cap,
    ensures
        v <= cap ==> lo * (128 - w) + v * w <= cap * 128,
        v >= cap ==> lo * (128 - w) + v * w <= v * 128,
{
    let m = lo * (128 - w) + v * w;
    assert(v <= cap ==> m <= cap * 128) by (nonlinear_arith)
        requires
            m == lo * (128 - w) + v * w,
            0 <= w < 128,
            lo <= cap,
    ;
    assert(v >= cap ==> m <= v * 128) by (nonlinear_arith)
        requires
            m == lo * (128 - w) + v * w,
            0 <= w < 128,
            lo <= cap,
    ;
}

/// A forecast that is clearly on the side of `b`: more than 52 %.
pub open spec fn clear(b: bool, p: int) -> bool {
    if b {
        p >= 2150
    } else {
        p <= 1946
    }
}

/// A forecast that is on the side of `b` and not at a half.
pub open spec fn decided(b: bool, p: int) -> bool {
    if b {
        p > 2048
    } else {
        p < 2048
    }
}

/// All stages of the chain lean.
pub open spec fn chain_leans(b: bool, s: SseState) -> bool {
    &&& nodes_lean(b, s.a0)
    &&& nodes_lean(b, s.a1)
    &&& nodes_lean(b, s.a2)
    &&& nodes_lean(b, s.a3)
    &&& s.a0.n == 256
    &&& s.a1.n == 0x1_0000
    &&& s.a2.n == 0x4000
}

/// The contexts exist.
pub open spec fn stages_fit(s: SseState, g: Stages) -> bool {
    g.c0 < 256 && g.o2 < 0x1_0000 && g.o3 < 0x4000 && g.o6 < s.a3.n
}

/// The gap of the last stage.
pub open spec fn last_gap(b: bool, s: SseState, g: Stages) -> int {
    if s.turbo {
        gap(b, s.a2, g.o3 as int)
    } else {
        gap(b, s.a3, g.o6 as int)
    }
}

proof fn lemma_last(b: bool, p: int, q: int, near_: bool)
    requires
        side(b, p - 2048),
        side(b, q - 2048),
        1 <= p <= 4095,
        1 <= q <= 4095,
        near_ == near(p),
    ensures
        side(b, sse::blend(p, q) - 2048),
        1 <= sse::blend(p, q) <= 4095,
        !near_ ==> clear(b, sse::blend(p, q)),
        (if b { q >= 2457 } else { q <= 1639 }) ==> clear(b, sse::blend(p, q)),
        (if b { q >= 2060 } else { q <= 2036 }) ==> decided(b, sse::blend(p, q)),
{
    logistic::stretch_keeps_sides(p);
}

/// The chain keeps to the side of `b`. Unless its forecast is already clear, learning
/// `b` narrows the gap of the last stage.
pub proof fn lemma_chain(b: bool, s: SseState, pr: int, g: Stages)
    requires
        chain_leans(b, s),
        stages_fit(s, g),
        1 <= pr <= 4095,
        side(b, pr - 2048),
    ensures
        ({
            let (t, p) = s.refined(pr, g);
            let z = t.after(b);
            &&& side(b, p - 2048)
            &&& chain_leans(b, z)
            &&& z.turbo == s.turbo
            &&& z.a3.n == s.a3.n
            &&& forall|h: Stages|
                stages_fit(s, h) ==> #[trigger] last_gap(b, z, h) <= last_gap(b, s, h)
            &&& clear(b, p) || last_gap(b, z, g) <= last_gap(b, s, g) - 204
            &&& last_gap(b, s, g) <= 0 ==> clear(b, p)
            &&& last_gap(b, s, g) <= 6340 ==> decided(b, p)
        }),
{
    lemma_look(b, s.a0, pr, g.c0 as int);
    let q0 = s.a0.looked_up(pr, g.c0 as int).interpolated();
    lemma_last(b, pr, q0, near(pr));
    let p0 = sse::blend(pr, q0);
    let mut p1 = p0;
    if !s.turbo {
        lemma_look(b, s.a1, p0, g.o2 as int);
        let q1 = s.a1.looked_up(p0, g.o2 as int).interpolated();
        lemma_last(b, p0, q1, near(p0));
        p1 = sse::blend(p0, q1);
    }
    lemma_look(b, s.a2, p1, g.o3 as int);
    let q2 = s.a2.looked_up(p1, g.o3 as int).interpolated();
    lemma_last(b, p1, q2, near(p1));
    let p2 = sse::blend(p1, q2);
    if !s.turbo {
        lemma_look(b, s.a3, p2, g.o6 as int);
        let q3 = s.a3.looked_up(p2, g.o6 as int).interpolated();
        lemma_last(b, p2, q3, near(p2));
    }
    let (t, p) = s.refined(pr, g);
    let z = t.after(b);
    assert forall|h: Stages| stages_fit(s, h) implies #[trigger] last_gap(b, z, h) <= last_gap(
        b,
        s,
        h,
    ) by {
        if s.turbo {
            assert(gap(b, z.a2, h.o3 as int) <= gap(b, s.a2, h.o3 as int));
        } else {
            assert(gap(b, z.a3, h.o6 as int) <= gap(b, s.a3, h.o6 as int));
        }
    }
}

pub proof fn lemma_chain_start(b: bool, turbo: bool, rows: int, g: Stages)
    requires
        rows >= 1,
        stages_fit(SseState::start(turbo, rows), g),
    ensures
        chain_leans(b, SseState::start(turbo, rows)),
        last_gap(b, SseState::start(turbo, rows), g) <= 6544,
{
    lemma_identity(b, 256);
    lemma_identity(b, 0x1_0000);
    lemma_identity(b, 0x4000);
    lemma_identity(b, rows);
    let s = SseState::start(turbo, rows);
    assert(gap(b, s.a2, g.o3 as int) <= 6544);
    assert(gap(b, s.a3, g.o6 as int) <= 6544);
}

} // verus!
