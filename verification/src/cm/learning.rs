//! What the predictor has seen shows in what it forecasts.
use vstd::prelude::*;
use crate::cm::counters;
use crate::cm::hash;
use crate::cm::leaning;
use crate::cm::logistic;
use crate::cm::matcher;
use crate::cm::mixer;
use crate::cm::predictor;
use crate::cm::predictor::{Call, Knowledge};
use crate::cm::sizing;
use crate::cm::sse::{SseState, Stages};
use crate::cm::states;

verus! {

/// The fast-path estimates for a match that foretells `b` trust it.
#[verifier::opaque]
pub open spec fn quick_leans(b: bool, q: Seq<u16>) -> bool {
    &&& q.len() == 256
    &&& forall|i: int|
        0 <= i < 256 && (i % 2 == 1) == b ==> (if b {
            #[trigger] q[i] >= 62400
        } else {
            q[i] <= 3136
        })
}

/// The predictor has learned no bit but `b`.
pub open spec fn leans(b: bool, k: Knowledge) -> bool {
    &&& k.t0.len() == 256
    &&& k.t1.len() == 0x1_0000
    &&& k.hist.len() == 16
    &&& leaning::counters_lean(b, k.t0)
    &&& leaning::counters_lean(b, k.t1)
    &&& leaning::bank_leans(b, k.bank)
    &&& quick_leans(b, k.quick)
    &&& leaning::weights_lean(b, k.weights)
    &&& leaning::chain_leans(b, k.sse)
    &&& k.weights.turbo == k.turbo
    &&& k.sse.turbo == k.turbo
    &&& k.weights.c.len() == k.mask + 1
    &&& k.sse.a3.n == k.mask + 1
    &&& 0 <= k.row3 <= k.mask
    &&& 0 <= k.row6 <= k.mask
    &&& 0 <= k.roww <= k.mask
    &&& k.mm.len >= 0
}

/// The bit after `c0` is coded, and a live match does not foretell the opposite of `b`.
pub open spec fn unopposed(b: bool, k: Knowledge) -> bool {
    1 <= k.c0 <= 255 && leaning::side(b, k.mm.opinion(k.c0))
}

/// The gap of the last refinement stage in the current context.
pub open spec fn current_gap(b: bool, k: Knowledge) -> int {
    leaning::last_gap(b, k.sse, k.stages())
}

proof fn lemma_rows(r: int, need: int, most: int)
    requires
        0 < r,
        most <= 0x8_0000,
        r <= 0x10_0000,
    ensures
        r <= sizing::rows_from(r, need, most) <= 0x10_0000,
    decreases 2 * most - r,
{
    if r >= most || r >= need {
    } else {
        lemma_rows(2 * r, need, most);
    }
}

/// A fresh predictor has learned no bit at all.
pub proof fn lemma_start(b: bool, n: int, turbo: bool, mem: int)
    ensures
        leans(b, Knowledge::start(n, turbo, mem)),
        Knowledge::start(n, turbo, mem).sse == SseState::start(
            turbo,
            sizing::mix_rows_spec(n, turbo, mem),
        ),
        1 <= sizing::mix_rows_spec(n, turbo, mem),
{
    reveal(Knowledge::start);
    reveal(leaning::counters_lean);
    reveal(quick_leans);
    let k = Knowledge::start(n, turbo, mem);
    let rows = sizing::mix_rows_spec(n, turbo, mem);
    lemma_rows(8192, n / 64, sizing::most_rows(mem));
    leaning::lemma_bank_start(b, n, turbo, mem);
    leaning::lemma_weights_start(b, turbo, sizing::mix_lr_spec(n, turbo), rows);
    hash::lemma_mask(0, 0);
    leaning::lemma_chain_start(
        b,
        turbo,
        rows,
        Stages { c0: 0, o2: 0, o3: 0, o6: 0 },
    );
}

proof fn lemma_inputs(b: bool, k: Knowledge)
    requires
        leans(b, k),
        unopposed(b, k),
    ensures
        leaning::votes_lean(b, k.inputs(), 65),
        k.inputs().len() == 72,
{
    let x = k.inputs();
    leaning::lemma_counters(b, k.t0, k.c0);
    leaning::lemma_counters(b, k.t1, k.pair());
    logistic::lemma_stretch_range(k.t0[k.c0].fast as int / 16);
    logistic::lemma_stretch_range(k.t0[k.c0].slow as int / 16);
    logistic::lemma_stretch_range(k.t1[k.pair()].fast as int / 16);
    logistic::lemma_stretch_range(k.t1[k.pair()].slow as int / 16);
    assert(k.bank.tables.len() <= 30) by {
        reveal(leaning::bank_leans);
    }
    assert forall|i: int| 0 <= i < 72 && i != 65 implies leaning::side(b, #[trigger] x[i] as int) by {
        if 4 <= i < 4 + 2 * k.bank.tables.len() {
            leaning::lemma_input(b, k.bank, i - 4, k.c0);
            let m = (i - 4) / 2;
            logistic::lemma_stretch_range(k.bank.maps[k.bank.entry(m, k.c0)].p as int / 16);
            logistic::lemma_stretch_range(
                logistic::clamp(states::estimate(k.bank.state(m, k.c0) as int, 4096), 1, 4095),
            );
        }
    }
    assert(x[65] == 256);
}

/// The selected rows and contexts exist.
pub proof fn lemma_select(b: bool, k: Knowledge)
    requires
        leans(b, k),
        1 <= k.c0 <= 255,
    ensures
        k.weights.selects(k.select()),
        leaning::stages_fit(k.sse, k.stages()),
{
    reveal(leaning::weights_lean);
    hash::lemma_mask(k.bank.base[1], 0x3fff);
}

/// One bit on the full path.
pub proof fn lemma_full(b: bool, k: Knowledge)
    requires
        leans(b, k),
        unopposed(b, k),
        !k.fast(),
    ensures
        leans(b, k.after_bit(b)),
        leaning::side(b, k.forecast() - 2048),
        current_gap(b, k.after_bit(b)) <= current_gap(b, k),
        leaning::clear(b, k.forecast()) || current_gap(b, k.after_bit(b)) <= current_gap(b, k) - 204,
        current_gap(b, k) <= 0 ==> leaning::clear(b, k.forecast()),
        current_gap(b, k) <= 6340 ==> leaning::decided(b, k.forecast()),
{
    reveal(Knowledge::forecast);
    reveal(Knowledge::primed);
    reveal(Knowledge::learned);
    let s = k.anchored();
    leaning::lemma_anchored(b, k.bank, k.c0);
    assert(leans(b, s) && unopposed(b, s));
    lemma_inputs(b, s);
    lemma_select(b, s);
    let (x, sel, st) = (s.inputs(), s.select(), s.stages());
    leaning::lemma_outputs(b, s.weights, x, sel);
    let pr = s.weights.mixed(x, sel);
    logistic::lemma_squash_range(
        mixer::dot_of(s.weights.f[sel.f as int], s.weights.outputs(x, sel)),
    );
    leaning::lemma_chain(b, s.sse, pr, st);
    let t = k.primed();
    assert(t.inputs() =~= x);
    assert(t.select() == sel);
    leaning::lemma_weights_after(b, s.weights, x, sel);
    leaning::lemma_bank_after(b, s.bank, k.c0);
    leaning::lemma_counters(b, k.t0, k.c0);
    leaning::lemma_counters(b, k.t1, k.pair());
    let z = k.after_bit(b);
    assert(z.sse == s.sse.refined(pr, st).0.after(b));
    assert(k.stages() == st);
    let g = z.stages();
    assert(g.o3 == st.o3 && g.o6 == st.o6);
    assert(leaning::last_gap(b, z.sse, g) == leaning::last_gap(b, z.sse, st));
    assert(leaning::last_gap(b, z.sse, st) <= leaning::last_gap(b, s.sse, st));
}

/// No gap of the last stage widens.
pub proof fn lemma_gaps(b: bool, k: Knowledge)
    requires
        leans(b, k),
        unopposed(b, k),
        !k.fast(),
    ensures
        k.after_bit(b).sse.turbo == k.sse.turbo,
        k.after_bit(b).sse.a3.n == k.sse.a3.n,
        forall|g: Stages|
            leaning::stages_fit(k.sse, g) ==> #[trigger] leaning::last_gap(
                b,
                k.after_bit(b).sse,
                g,
            ) <= leaning::last_gap(b, k.sse, g),
{
    reveal(Knowledge::primed);
    reveal(Knowledge::learned);
    let s = k.anchored();
    leaning::lemma_anchored(b, k.bank, k.c0);
    assert(leans(b, s) && unopposed(b, s));
    lemma_inputs(b, s);
    lemma_select(b, s);
    let (x, sel, st) = (s.inputs(), s.select(), s.stages());
    leaning::lemma_outputs(b, s.weights, x, sel);
    let pr = s.weights.mixed(x, sel);
    logistic::lemma_squash_range(
        mixer::dot_of(s.weights.f[sel.f as int], s.weights.outputs(x, sel)),
    );
    leaning::lemma_chain(b, s.sse, pr, st);
    assert(k.after_bit(b).sse == s.sse.refined(pr, st).0.after(b));
}

/// A long match is trusted from the first, at 3900 to 196, and every bit that was coded by
/// it moves the trust in matches of its length towards what came, and no other.
pub proof fn long_matches_are_trusted(k: Knowledge, bit: bool, j: int)
    requires
        k.fast(),
        k.on_track(),
        1 <= k.c0 <= 255,
        k.quick.len() == 256,
    ensures
        ({
            let i = k.quick_slot();
            let z = k.after_bit(bit);
            let fresh = forall|m: int| 0 <= m < 256 ==> #[trigger] k.quick[m] == predictor::quick_seed(m);
            let (was, is) = (k.quick[i] as int, z.quick[i] as int);
            &&& 0 <= i < 256
            &&& fresh && matcher::upcoming(k.c0, k.guess()) ==> k.forecast() == 3900
            &&& fresh && !matcher::upcoming(k.c0, k.guess()) ==> k.forecast() == 196
            &&& 16 <= was ==> k.forecast() == was / 16
            &&& bit && was <= 65504 ==> was < is <= 65536
            &&& !bit && was > 0 ==> 0 <= is < was
            &&& j != i && 0 <= j < 256 ==> z.quick[j] == k.quick[j]
        }),
{
    reveal(Knowledge::forecast);
    reveal(Knowledge::primed);
    reveal(Knowledge::learned);
    lemma_digits(k.mm.len as nat);
    let i = k.quick_slot();
    assert(0 <= i < 256);
    assert(i % 2 == (if matcher::upcoming(k.c0, k.guess()) { 1int } else { 0int }));
    counters::lemma_drift_range(k.quick[i] as int, bit, 2048, 65536);
}

/// One bit on the fast path.
pub proof fn lemma_fast(b: bool, k: Knowledge)
    requires
        leans(b, k),
        unopposed(b, k),
        k.fast(),
    ensures
        leans(b, k.after_bit(b)),
        leaning::side(b, k.forecast() - 2048),
        k.on_track() ==> leaning::clear(b, k.forecast()),
        current_gap(b, k.after_bit(b)) == current_gap(b, k),
{
    reveal(Knowledge::forecast);
    reveal(Knowledge::primed);
    reveal(Knowledge::learned);
    let z = k.after_bit(b);
    leaning::lemma_counters(b, k.t0, k.c0);
    leaning::lemma_counters(b, k.t1, k.pair());
    if k.on_track() {
        let i = k.quick_slot();
        assert(matcher::upcoming(k.c0, k.guess()) == b);
        lemma_digits(k.mm.len as nat);
        assert(0 <= i < 256 && (i % 2 == 1) == b);
        assert(quick_leans(b, z.quick)) by {
            reveal(quick_leans);
            leaning::lemma_drift(b, k.quick[i] as int, 2048, 65536);
        }
        assert(leaning::clear(b, k.forecast())) by {
            reveal(quick_leans);
            assert((i % 2 == 1) == b);
            let v = k.quick[i];
        }
    }
    let (g, h) = (z.stages(), k.stages());
    assert(g.o3 == h.o3 && g.o6 == h.o6);
}

proof fn lemma_digits(n: nat)
    ensures
        sizing::digits(n) >= 1,
{
}

proof fn lemma_bit(b: bool, k: Knowledge)
    requires
        leans(b, k),
        unopposed(b, k),
    ensures
        leans(b, k.after_bit(b)),
        leaning::side(b, k.forecast() - 2048),
{
    if k.fast() {
        lemma_fast(b, k);
    } else {
        lemma_full(b, k);
    }
}

/// Committing a byte, whatever it is, teaches the predictor no bit.
pub proof fn lemma_commit(b: bool, k: Knowledge, byte: u8)
    requires
        leans(b, k),
    ensures
        leans(b, k.committed(byte)),
        k.committed(byte).sse == k.sse,
{
    reveal(Knowledge::committed);
    let z = k.committed(byte);
    hash::lemma_mask(hash::hash_of(z.hist.subrange(0, 3), 61), k.mask);
    hash::lemma_mask(hash::hash_of(z.hist.subrange(0, 6), 71), k.mask);
    hash::lemma_mask(z.words.word.wrapping_mul(hash::PR2), k.mask);
    assert(leaning::bank_leans(b, z.bank)) by {
        reveal(leaning::bank_leans);
        assert forall|i: int| 0 <= i < z.bank.tables.len() implies #[trigger] leaning::model_leans(
            b,
            z.bank,
            i,
        ) by {
            assert(leaning::model_leans(b, k.bank, i));
        }
    }
}

// ---------------------------------------------------------------------------
// Laws
// ---------------------------------------------------------------------------

/// All bits that were learned are `b`, and no live match foretold the opposite.
pub open spec fn only_saw(b: bool, states: Seq<Knowledge>, calls: Seq<Call>) -> bool {
    forall|j: int|
        0 <= j < calls.len() ==> match #[trigger] calls[j] {
            Call::Bit(bit) => bit == b && unopposed(b, states[j]),
            Call::Byte(_) => true,
        }
}

proof fn lemma_history(
    b: bool,
    states: Seq<Knowledge>,
    calls: Seq<Call>,
    n: int,
    turbo: bool,
    mem: int,
    j: int,
)
    requires
        predictor::history(states, calls, n, turbo, mem),
        only_saw(b, states, calls),
        0 <= j < states.len(),
    ensures
        leans(b, states[j]),
    decreases j,
{
    if j == 0 {
        lemma_start(b, n, turbo, mem);
    } else {
        lemma_history(b, states, calls, n, turbo, mem, j - 1);
        let k = states[j - 1];
        assert(states[j - 1 + 1] == k.after_call(calls[j - 1]));
        match calls[j - 1] {
            Call::Bit(bit) => {
                lemma_bit(b, k);
            },
            Call::Byte(x) => {
                lemma_commit(b, k, x);
            },
        }
    }
}

/// Forecasts follow what was seen: as long as every bit was the same, whatever bytes were
/// committed around it and in whatever contexts, no forecast is on the other side.
pub proof fn forecasts_follow_what_was_seen(
    b: bool,
    states: Seq<Knowledge>,
    calls: Seq<Call>,
    n: int,
    turbo: bool,
    mem: int,
    j: int,
)
    requires
        predictor::history(states, calls, n, turbo, mem),
        only_saw(b, states, calls),
        0 <= j < states.len(),
        unopposed(b, states[j]),
    ensures
        b ==> states[j].forecast() >= 2048,
        !b ==> states[j].forecast() <= 2048,
{
    lemma_history(b, states, calls, n, turbo, mem, j);
    lemma_bit(b, states[j]);
}

/// A fresh predictor that was shown `text` and stands at the partial byte `c0`.
pub open spec fn shown(text: Seq<u8>, c0: int, n: int, turbo: bool, mem: int) -> Knowledge
    decreases text.len(),
{
    if text.len() == 0 {
        Knowledge { c0, ..Knowledge::start(n, turbo, mem) }
    } else {
        Knowledge {
            c0,
            ..shown(text.drop_last(), 1, n, turbo, mem).committed(text.last())
        }
    }
}

/// The predictor having seen `b` in its present context `times` times.
pub open spec fn seen(k: Knowledge, b: bool, times: nat) -> Knowledge
    decreases times,
{
    if times == 0 {
        k
    } else {
        Knowledge { c0: k.c0, ..seen(k, b, (times - 1) as nat).after_bit(b) }
    }
}

/// How many of the first `times` forecasts of `b` in a context were not clear.
pub open spec fn doubts(k: Knowledge, b: bool, times: nat) -> nat
    decreases times,
{
    if times == 0 {
        0
    } else {
        doubts(k, b, (times - 1) as nat) + if leaning::clear(
            b,
            seen(k, b, (times - 1) as nat).forecast(),
        ) {
            0nat
        } else {
            1nat
        }
    }
}

proof fn lemma_shown(b: bool, text: Seq<u8>, c0: int, n: int, turbo: bool, mem: int)
    ensures
        leans(b, shown(text, c0, n, turbo, mem)),
        shown(text, c0, n, turbo, mem).c0 == c0,
        shown(text, c0, n, turbo, mem).sse == SseState::start(
            turbo,
            sizing::mix_rows_spec(n, turbo, mem),
        ),
    decreases text.len(),
{
    if text.len() == 0 {
        lemma_start(b, n, turbo, mem);
    } else {
        lemma_shown(b, text.drop_last(), 1, n, turbo, mem);
        lemma_commit(b, shown(text.drop_last(), 1, n, turbo, mem), text.last());
    }
}

/// A bit leaves the contexts of the byte alone.
pub proof fn lemma_after_keeps(k: Knowledge, b: bool)
    ensures
        k.after_bit(b).mm == k.mm,
        k.after_bit(b).hist == k.hist,
        k.after_bit(b).row6 == k.row6,
        k.after_bit(b).bank.base == k.bank.base,
{
    reveal(Knowledge::primed);
    reveal(Knowledge::learned);
}

proof fn lemma_seen(k: Knowledge, b: bool, times: nat)
    requires
        leans(b, k),
        unopposed(b, k),
        !k.fast(),
        current_gap(b, k) <= 6544,
        !leaning::clear(b, k.forecast()),
    ensures
        leans(b, seen(k, b, times)),
        seen(k, b, times).c0 == k.c0,
        seen(k, b, times).mm == k.mm,
        seen(k, b, times).stages() == k.stages(),
        204 * doubts(k, b, times) + current_gap(b, seen(k, b, times)) <= 6544,
        times > 0 ==> current_gap(b, seen(k, b, times)) <= 6340,
    decreases times,
{
    if times > 0 {
        let t = (times - 1) as nat;
        lemma_seen(k, b, t);
        let s = seen(k, b, t);
        lemma_full(b, s);
        lemma_after_keeps(s, b);
        let z = Knowledge { c0: k.c0, ..s.after_bit(b) };
        assert(current_gap(b, z) == current_gap(b, s.after_bit(b)));
        if t == 0 {
            assert(s == k);
        }
    }
}

/// What was seen is expected. A fresh predictor, whatever text it was shown, forecasts a
/// half. Once it has seen a bit in a context, it leans to that bit there, and after at
/// most 33 doubtful forecasts it gives it more than 52 %.
pub proof fn what_was_seen_is_expected(
    text: Seq<u8>,
    c0: int,
    n: int,
    turbo: bool,
    mem: int,
    b: bool,
    times: nat,
)
    requires
        ({
            let k = shown(text, c0, n, turbo, mem);
            1 <= c0 <= 255 && k.mm.opinion(c0) == 0 && !k.fast()
        }),
    ensures
        ({
            let k = shown(text, c0, n, turbo, mem);
            &&& k.forecast() == 2048
            &&& times > 0 && b ==> seen(k, b, times).forecast() > 2048
            &&& times > 0 && !b ==> seen(k, b, times).forecast() < 2048
            &&& doubts(k, b, times) <= 33
        }),
{
    let k = shown(text, c0, n, turbo, mem);
    lemma_shown(true, text, c0, n, turbo, mem);
    lemma_shown(false, text, c0, n, turbo, mem);
    lemma_bit(true, k);
    lemma_bit(false, k);
    lemma_start(b, n, turbo, mem);
    lemma_select(b, k);
    leaning::lemma_chain_start(b, turbo, sizing::mix_rows_spec(n, turbo, mem), k.stages());
    lemma_seen(k, b, times);
    lemma_full(b, seen(k, b, times));
    lemma_doubts(k, b, times);
}

/// Doubt ends where the gap is closed.
proof fn lemma_doubts(k: Knowledge, b: bool, times: nat)
    requires
        leans(b, k),
        unopposed(b, k),
        !k.fast(),
        current_gap(b, k) <= 6544,
        !leaning::clear(b, k.forecast()),
    ensures
        doubts(k, b, times) <= 33,
    decreases times,
{
    if times > 0 {
        let t = (times - 1) as nat;
        lemma_doubts(k, b, t);
        lemma_seen(k, b, t);
        let s = seen(k, b, t);
        lemma_full(b, s);
        if doubts(k, b, t) == 33 {
            assert(current_gap(b, s) <= 6544 - 204 * 33);
        }
    }
}

} // verus!
