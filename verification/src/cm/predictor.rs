//! The predictor: estimates the probability of every bit from what came before.
//!
//! Bytes are coded most significant bit first. For each bit, [`Predictor::predict`]
//! gives the probability that it is 1 and [`Predictor::update`] learns its value;
//! after eight bits [`Predictor::next_byte`] commits the byte. Encoder and decoder
//! run the same predictor over the same bytes, so nothing about it is transmitted.
use vstd::prelude::*;
use crate::cm::bank::{Bank, BankState};
use crate::cm::contexts;
use crate::cm::contexts::{Followers, FollowState, Indirect, Words};
use crate::cm::counters;
use crate::cm::counters::DualCounter;
use crate::cm::hash;
use crate::cm::hash::PR2;
use crate::cm::logistic;
use crate::cm::logistic::Logistic;
use crate::cm::markup::{Markup, MarkupState};
use crate::cm::matcher;
use crate::cm::matcher::{MatchState, Matcher};
use crate::cm::mixer;
use crate::cm::mixer::{Mixed, Mixer, Select, Weights};
use crate::cm::sizing;
use crate::cm::sse::{Sse, SseState, Stages};
use crate::cm::states;

verus! {

/// Mixer input of the match model.
pub const MATCH_IN: usize = 64;

/// Mixer input that is always on.
pub const BIAS_IN: usize = 65;

/// Everything the predictor knows.
#[verifier::ext_equal]
pub struct Knowledge {
    pub turbo: bool,
    /// Order-0 counters, by partial byte.
    pub t0: Seq<DualCounter>,
    /// Order-1 counters, by previous byte and partial byte.
    pub t1: Seq<DualCounter>,
    pub hist: Seq<u8>,
    pub words: Words,
    pub markup: MarkupState,
    pub follow: FollowState,
    pub bank: BankState,
    pub mm: MatchState,
    /// Fast-path estimates, by match length, bit position and predicted bit.
    pub quick: Seq<u16>,
    pub weights: Weights,
    pub sse: SseState,
    /// The partial byte: a 1 followed by the bits seen so far.
    pub c0: int,
    /// Rows of the hash-selected weight sets.
    pub mask: u32,
    pub row3: int,
    pub row6: int,
    pub roww: int,
}

/// A fast-path estimate before anything was observed.
pub open spec fn quick_seed(i: int) -> u16 {
    if i % 2 == 1 {
        62400
    } else {
        3136
    }
}

impl Knowledge {
    /// Before the first byte of an `n`-byte segment.
    #[verifier::opaque]
    pub open spec fn start(n: int, turbo: bool, mem: int) -> Knowledge {
        let rows = sizing::mix_rows_spec(n, turbo, mem);
        Knowledge {
            turbo,
            t0: Seq::new(256, |i: int| DualCounter::fresh()),
            t1: Seq::new(0x1_0000, |i: int| DualCounter::fresh()),
            hist: contexts::no_history(),
            words: Words::start(),
            markup: MarkupState::start(),
            follow: FollowState::start(sizing::ind_bits_spec(mem) as u32),
            bank: BankState::start(n, turbo, mem),
            mm: MatchState::start(sizing::match_bits_spec(n, mem) as u32),
            quick: Seq::new(256, |i: int| quick_seed(i)),
            weights: Weights::start(turbo, sizing::mix_lr_spec(n, turbo), rows),
            sse: SseState::start(turbo, rows),
            c0: 1,
            mask: (rows - 1) as u32,
            row3: 0,
            row6: 0,
            roww: 0,
        }
    }

    /// Index of the order-1 counter in use.
    pub open spec fn pair(self) -> int {
        self.hist[0] * 256 + self.c0
    }

    /// The next byte is coded on the fast path.
    pub open spec fn fast(self) -> bool {
        self.mm.fast()
    }

    // --- fast path -------------------------------------------------------

    /// The byte the live match predicts.
    pub open spec fn guess(self) -> u8 {
        self.mm.byte()->0
    }

    /// The bits seen so far agree with the match.
    pub open spec fn on_track(self) -> bool {
        matcher::follows(self.c0, self.guess())
    }

    /// Fast-path estimate in use while the match is on track.
    pub open spec fn quick_slot(self) -> int {
        let bucket = sizing::min(sizing::digits(self.mm.len as nat) - 1, 15);
        let bit = if matcher::upcoming(self.c0, self.guess()) { 1int } else { 0int };
        bucket * 16 + matcher::depth(self.c0) * 2 + bit
    }

    /// Probability that the next bit is 1, on the fast path: the match's own record
    /// while it is on track, else the low-order counters.
    pub open spec fn quick_forecast(self) -> int {
        let p = if self.on_track() {
            self.quick[self.quick_slot()] as int / 16
        } else {
            (self.t1[self.pair()].slow * 3 + self.t0[self.c0].slow) / 4 / 16
        };
        logistic::clamp(p, 1, 4095)
    }

    // --- full path -------------------------------------------------------

    /// Mixer inputs: counters, bit histories, match, bias.
    pub open spec fn inputs(self) -> Seq<i32> {
        Seq::new(
            72,
            |i: int|
                (if i == 0 {
                    logistic::stretch(self.t0[self.c0].fast as int / 16)
                } else if i == 1 {
                    logistic::stretch(self.t0[self.c0].slow as int / 16)
                } else if i == 2 {
                    logistic::stretch(self.t1[self.pair()].fast as int / 16)
                } else if i == 3 {
                    logistic::stretch(self.t1[self.pair()].slow as int / 16)
                } else if i < 4 + 2 * self.bank.tables.len() {
                    self.bank.input(i - 4, self.c0)
                } else if i == 64 {
                    self.mm.opinion(self.c0)
                } else if i == 65 {
                    256
                } else {
                    0
                }) as i32,
        )
    }

    /// Rows of weights in use.
    pub open spec fn select(self) -> Select {
        let classes = contexts::class_spec(self.hist[0]) * 4 + contexts::class_spec(self.hist[1]);
        Select {
            a: self.hist[0] as usize,
            b: sizing::min(self.mm.len, 63) as usize,
            c: self.row3 as usize,
            d: self.c0 as usize,
            e: self.row6 as usize,
            g: self.roww as usize,
            f: (classes * 64 + sizing::min(self.mm.len, 7) * 8 + matcher::depth(self.c0)) as usize,
        }
    }

    /// Contexts of the refinement stages.
    pub open spec fn stages(self) -> Stages {
        Stages {
            c0: self.c0 as usize,
            o2: (self.hist[0] * 256 + self.hist[1]) as usize,
            o3: (self.bank.base[1] & 0x3fff) as usize,
            o6: self.row6 as usize,
        }
    }

    /// The bit-history models found their buckets.
    pub open spec fn anchored(self) -> Knowledge {
        Knowledge { bank: self.bank.anchored(self.c0), ..self }
    }

    /// The refinement chain applied to the mixed probability.
    pub open spec fn chain(self) -> (SseState, int) {
        self.sse.refined(self.weights.mixed(self.inputs(), self.select()), self.stages())
    }

    // --- the cycle -------------------------------------------------------

    /// The predictor having made its forecast.
    #[verifier::opaque]
    pub open spec fn primed(self) -> Knowledge {
        if self.fast() {
            self
        } else {
            let s = self.anchored();
            Knowledge { sse: s.chain().0, ..s }
        }
    }

    /// Probability, in 4096ths, that the next bit is 1.
    #[verifier::opaque]
    pub open spec fn forecast(self) -> int {
        if self.fast() {
            self.quick_forecast()
        } else {
            self.anchored().chain().1
        }
    }

    /// Both low-order counters observe `bit`.
    pub open spec fn counted(self, bit: bool) -> Knowledge {
        Knowledge {
            t0: self.t0.update(self.c0, self.t0[self.c0].after(bit)),
            t1: self.t1.update(self.pair(), self.t1[self.pair()].after(bit)),
            ..self
        }
    }

    /// The predictor, primed, having learned `bit`.
    #[verifier::opaque]
    pub open spec fn learned(self, bit: bool) -> Knowledge {
        let next = 2 * self.c0 + if bit { 1int } else { 0int };
        if !self.fast() {
            Knowledge {
                bank: self.bank.after(self.c0, bit),
                weights: self.weights.after(self.inputs(), self.select(), bit),
                sse: self.sse.after(bit),
                c0: next,
                ..self.counted(bit)
            }
        } else if self.on_track() {
            let i = self.quick_slot();
            Knowledge {
                quick: self.quick.update(
                    i,
                    counters::drift(self.quick[i] as int, bit, 2048, 65536) as u16,
                ),
                c0: next,
                ..self
            }
        } else {
            Knowledge { c0: next, ..self.counted(bit) }
        }
    }

    /// The predictor after one bit.
    pub open spec fn after_bit(self, bit: bool) -> Knowledge {
        self.primed().learned(bit)
    }

    /// The predictor having committed byte `b`.
    #[verifier::opaque]
    pub open spec fn committed(self, b: u8) -> Knowledge {
        let mm = self.mm.after(b);
        let markup = self.markup.after(b, self.hist[0]);
        let hist = contexts::remembered(self.hist, b);
        let words = self.words.after(b);
        let recorded = self.follow.recorded(b);
        let follow = if self.turbo {
            recorded
        } else {
            recorded.resolved(hist, markup.element())
        };
        let base = contexts::roster(self.turbo, hist, words, mm.buf, follow.followers(), markup);
        Knowledge {
            mm,
            markup,
            hist,
            words,
            follow,
            bank: BankState { base, ..self.bank },
            c0: 1,
            row3: (hash::hash_of(hist.subrange(0, 3), 61) & self.mask) as int,
            row6: (hash::hash_of(hist.subrange(0, 6), 71) & self.mask) as int,
            roww: (words.word.wrapping_mul(PR2) & self.mask) as int,
            ..self
        }
    }

    /// A forecast is a probability the coder accepts.
    pub proof fn lemma_forecast(self)
        ensures
            1 <= self.forecast() <= 4095,
    {
        reveal(Knowledge::forecast);
    }

    /// Where a fresh predictor stands.
    pub proof fn lemma_start(n: int, turbo: bool, mem: int)
        ensures
            Knowledge::start(n, turbo, mem).c0 == 1,
            Knowledge::start(n, turbo, mem).mm.buf.len() == 0,
    {
        reveal(Knowledge::start);
    }

    /// A bit extends the partial byte and leaves the committed bytes alone.
    pub proof fn lemma_after_bit(self, bit: bool)
        ensures
            self.primed().c0 == self.c0,
            self.primed().mm == self.mm,
            self.after_bit(bit).c0 == 2 * self.c0 + if bit { 1int } else { 0int },
            self.after_bit(bit).mm == self.mm,
    {
        reveal(Knowledge::primed);
        reveal(Knowledge::learned);
    }

    /// Committing a byte starts a new one.
    pub proof fn lemma_committed(self, b: u8)
        ensures
            self.committed(b).c0 == 1,
            self.committed(b).mm.buf == self.mm.buf.push(b),
    {
        reveal(Knowledge::committed);
    }

    /// All indices lie inside their tables.
    pub open spec fn wf(self) -> bool {
        &&& 1 <= self.c0 <= 511
        &&& self.t0.len() == 256
        &&& self.t1.len() == 0x1_0000
        &&& self.hist.len() == 16
        &&& self.quick.len() == 256
        &&& self.markup.wf()
        &&& self.markup.col <= self.mm.buf.len()
        &&& self.follow.wf()
        &&& self.bank.wf()
        &&& self.mm.wf()
        &&& self.weights.wf()
        &&& self.weights.c.len() == self.mask + 1
        &&& self.weights.turbo == self.turbo
        &&& self.sse.turbo == self.turbo
        &&& self.sse.a3.n == self.mask + 1
        &&& 0 <= self.row3 <= self.mask
        &&& 0 <= self.row6 <= self.mask
        &&& 0 <= self.roww <= self.mask
    }
}

/// Different situations use different weights and refinements: one set of weights for
/// each last byte, each match length up to 63, and each partial byte; one refinement for
/// each of the last two bytes together.
pub proof fn situations_are_kept_apart(k: Knowledge, z: Knowledge)
    requires
        0 <= k.c0 < 256,
        0 <= z.c0 < 256,
        k.mm.len >= 0,
        z.mm.len >= 0,
    ensures
        k.hist[0] != z.hist[0] ==> k.select().a != z.select().a && k.stages().o2 != z.stages().o2,
        k.hist[1] != z.hist[1] ==> k.stages().o2 != z.stages().o2,
        k.c0 != z.c0 ==> k.select().d != z.select().d && k.stages().c0 != z.stages().c0,
        k.mm.len != z.mm.len && k.mm.len < 63 ==> k.select().b != z.select().b,
{
    if k.hist[0] * 256 + k.hist[1] == z.hist[0] * 256 + z.hist[1] {
        assert(k.hist[0] == z.hist[0] && k.hist[1] == z.hist[1]);
    }
}

/// Every model is heard: its vote is one of the mixer's inputs, and so is that of a live
/// match.
pub proof fn every_model_is_heard(k: Knowledge, m: int)
    requires
        0 <= m < k.bank.tables.len() <= 30,
    ensures
        k.inputs()[5 + 2 * m] == states::direct(k.bank.state(m, k.c0) as int),
        k.inputs()[4 + 2 * m] == logistic::stretch(
            k.bank.maps[k.bank.entry(m, k.c0)].p as int / 16,
        ),
        k.mm.len >= 0 ==> k.inputs()[64] == k.mm.opinion(k.c0),
        k.inputs()[0] == logistic::stretch(k.t0[k.c0].fast as int / 16),
        k.inputs()[2] == logistic::stretch(k.t1[k.hist[0] * 256 + k.c0].fast as int / 16),
{
    assert((1 + 2 * m) / 2 == m && (1 + 2 * m) % 2 == 1);
    assert((2 * m) / 2 == m && (2 * m) % 2 == 0);
    let e = k.bank.entry(m, k.c0);
    logistic::lemma_stretch_range(k.bank.maps[e].p as int / 16);
    logistic::lemma_stretch_range(
        logistic::clamp(states::estimate(k.bank.state(m, k.c0) as int, 4096), 1, 4095),
    );
    logistic::lemma_stretch_range(k.t0[k.c0].fast as int / 16);
    logistic::lemma_stretch_range(k.t1[k.hist[0] * 256 + k.c0].fast as int / 16);
}

/// What is done with a predictor.
pub ghost enum Call {
    /// Predict a bit, then learn it.
    Bit(bool),
    /// Commit a byte.
    Byte(u8),
}

impl Knowledge {
    /// The predictor after a call.
    pub open spec fn after_call(self, c: Call) -> Knowledge {
        match c {
            Call::Bit(bit) => self.after_bit(bit),
            Call::Byte(b) => self.committed(b),
        }
    }
}

/// What a predictor made for an `n`-byte segment knows before each call and after the
/// last.
pub open spec fn history(
    states: Seq<Knowledge>,
    calls: Seq<Call>,
    n: int,
    turbo: bool,
    mem: int,
) -> bool {
    &&& states.len() == calls.len() + 1
    &&& states[0] == Knowledge::start(n, turbo, mem)
    &&& forall|j: int|
        0 <= j < calls.len() ==> states[j + 1] == (#[trigger] states[j]).after_call(calls[j])
}

/// Predictors that were made alike and were given the same calls predict the same, on
/// any machine, and what they predict is a probability the coder accepts.
pub proof fn equal_calls_equal_predictions(
    a: Seq<Knowledge>,
    b: Seq<Knowledge>,
    calls: Seq<Call>,
    n: int,
    turbo: bool,
    mem: int,
)
    requires
        history(a, calls, n, turbo, mem),
        history(b, calls, n, turbo, mem),
    ensures
        a == b,
        forall|j: int|
            0 <= j < a.len() ==> 1 <= (#[trigger] a[j]).forecast() <= 4095 && a[j].forecast()
                == b[j].forecast(),
{
    assert forall|j: int| 0 <= j < a.len() implies #[trigger] a[j] == b[j] && 1 <= a[j].forecast()
        <= 4095 by {
        lemma_same_state(a, b, calls, n, turbo, mem, j);
        a[j].lemma_forecast();
    }
    assert(a =~= b);
}

proof fn lemma_same_state(
    a: Seq<Knowledge>,
    b: Seq<Knowledge>,
    calls: Seq<Call>,
    n: int,
    turbo: bool,
    mem: int,
    j: int,
)
    requires
        history(a, calls, n, turbo, mem),
        history(b, calls, n, turbo, mem),
        0 <= j < a.len(),
    ensures
        a[j] == b[j],
    decreases j,
{
    if j > 0 {
        lemma_same_state(a, b, calls, n, turbo, mem, j - 1);
        assert(a[j - 1 + 1] == a[j - 1].after_call(calls[j - 1]));
        assert(b[j - 1 + 1] == b[j - 1].after_call(calls[j - 1]));
    }
}

/// The bit predictor.
pub struct Predictor {
    turbo: bool,
    t0: Vec<DualCounter>,
    t1: Vec<DualCounter>,
    hist: [u8; 16],
    words: Words,
    markup: Markup,
    follow: Indirect,
    bank: Bank,
    mm: Matcher,
    quick: Vec<u16>,
    weights: Mixer,
    sse: Sse,
    c0: u32,
    mask: u32,
    row3: usize,
    row6: usize,
    roww: usize,
    lg: Logistic,
    // What the last prediction was made of.
    x: [i32; 72],
    mixed: Mixed,
}

impl View for Predictor {
    type V = Knowledge;

    closed spec fn view(&self) -> Knowledge {
        Knowledge {
            turbo: self.turbo,
            t0: self.t0@,
            t1: self.t1@,
            hist: self.hist@,
            words: self.words,
            markup: self.markup@,
            follow: self.follow@,
            bank: self.bank@,
            mm: self.mm@,
            quick: self.quick@,
            weights: self.weights@,
            sse: self.sse@,
            c0: self.c0 as int,
            mask: self.mask,
            row3: self.row3 as int,
            row6: self.row6 as int,
            roww: self.roww as int,
        }
    }
}

impl Predictor {
    /// The predictor's tables are well formed.
    pub closed spec fn wf(self) -> bool {
        &&& self@.wf()
        &&& self.bank.wf()
        &&& self.sse.wf()
        &&& self.weights.wf()
        &&& self.follow.wf()
    }

    /// A well-formed predictor has a well-formed view.
    pub proof fn lemma_wf(&self)
        requires
            self.wf(),
        ensures
            self@.wf(),
    {
    }

    /// The last prediction was made for the bit that comes next.
    pub closed spec fn ready(self) -> bool {
        self@.fast() || {
            &&& self.x@ == self@.inputs()
            &&& mixer::within(self.x@, mixer::X_CLAMP as int)
            &&& self.mixed.outputs@ == self@.weights.outputs(self.x@, self@.select())
            &&& mixer::within(self.mixed.outputs@, mixer::S_CLAMP as int)
            &&& self.mixed.pr == self@.weights.mixed(self.x@, self@.select())
            &&& 1 <= self.mixed.pr <= 4095
        }
    }

    /// A predictor for a segment of `n` bytes. `turbo` selects the reduced profile,
    /// `mem` the memory profile; both shape the code, so the decoder needs the same.
    pub fn new(n: usize, turbo: bool, mem: u8) -> (r: Predictor)
        ensures
            r@ == Knowledge::start(n as int, turbo, mem as int),
            r.wf(),
    {
        let lg = Logistic::new();
        let rows = sizing::mix_rows_for(n, turbo, mem);
        let mut quick: Vec<u16> = Vec::new();
        let mut i: usize = 0;
        while i < 256
            invariant
                i <= 256,
                quick@.len() == i,
                forall|j: int| 0 <= j < i ==> #[trigger] quick@[j] == quick_seed(j),
            decreases 256 - i,
        {
            quick.push(
                if i % 2 == 1 {
                    62400
                } else {
                    3136
                },
            );
            i = i + 1;
        }
        let fresh = DualCounter::new();
        let bank = Bank::new(&lg, n, turbo, mem);
        let sse = Sse::new(&lg, turbo, rows);
        let r = Predictor {
            turbo,
            t0: vec![fresh; 256],
            t1: vec![fresh; 0x1_0000],
            hist: [0u8;16],
            words: Words::new(),
            markup: Markup::new(),
            follow: Indirect::new(sizing::ind_bits(mem)),
            bank,
            mm: Matcher::new(sizing::match_bits(n, mem)),
            quick,
            weights: Mixer::new(turbo, sizing::mix_lr_for(n, turbo), rows),
            sse,
            c0: 1,
            mask: (rows - 1) as u32,
            row3: 0,
            row6: 0,
            roww: 0,
            lg,
            x: [0i32;72],
            mixed: Mixed { outputs: [0i32;7], pr: 2048 },
        };
        proof {
            reveal(Knowledge::start);
            r.bank.lemma_wf();
            r.weights.lemma_wf();
            r.follow.lemma_wf();
        }
        assert(r@ =~= Knowledge::start(n as int, turbo, mem as int));
        r
    }

    /// Slot of the fast-path estimate for the predicted bit.
    fn quick_index(&self, bit: bool) -> (i: usize)
        requires
            self.wf(),
            self@.c0 <= 255,
            self@.fast(),
            bit == matcher::upcoming(self@.c0, self@.guess()),
        ensures
            i == self@.quick_slot(),
            i < 256,
    {
        let d: u32 = sizing::raw_bits(self.mm.len() as usize) - 2;
        let bucket: usize = if d - 1 < 15 {
            (d - 1) as usize
        } else {
            15
        };
        let b: usize = if bit {
            1
        } else {
            0
        };
        bucket * 16 + matcher::depth_of(self.c0) as usize * 2 + b
    }

    /// Fast-path prediction inside a long match.
    fn fast_predict(&self) -> (p: i32)
        requires
            self.wf(),
            self@.c0 <= 255,
            self@.fast(),
        ensures
            p == self@.quick_forecast(),
            1 <= p <= 4095,
    {
        let guess = match self.mm.byte() {
            Some(b) => b,
            None => 0,
        };
        let p: u32 = match matcher::foretold(self.c0, guess) {
            Some(bit) => self.quick[self.quick_index(bit)] as u32 / 16,
            None => {
                let p1 = self.t1[self.hist[0] as usize * 256 + self.c0 as usize].slow as u32;
                let p0 = self.t0[self.c0 as usize].slow as u32;
                (p1 * 3 + p0) / 4 / 16
            },
        };
        if p < 1 {
            1
        } else if p > 4095 {
            4095
        } else {
            p as i32
        }
    }

    /// The rows of weights for the next bit.
    fn select(&self) -> (s: Select)
        requires
            self.wf(),
            self@.c0 <= 255,
        ensures
            s == self@.select(),
            self@.weights.selects(s),
    {
        let classes: usize = contexts::char_class(self.hist[0]) * 4 + contexts::char_class(
            self.hist[1],
        );
        let len = self.mm.len();
        let short: usize = if len < 7 {
            len as usize
        } else {
            7
        };
        Select {
            a: self.hist[0] as usize,
            b: if len < 63 {
                len as usize
            } else {
                63
            },
            c: self.row3,
            d: self.c0 as usize,
            e: self.row6,
            g: self.roww,
            f: classes * 64 + short * 8 + matcher::depth_of(self.c0) as usize,
        }
    }

    /// Gather the mixer inputs for the next bit.
    fn gather(&self) -> (x: [i32; 72])
        requires
            self.wf(),
            self@.c0 <= 255,
        ensures
            x@ == self@.inputs(),
            mixer::within(x@, mixer::X_CLAMP as int),
    {
        let c = self.t0[self.c0 as usize];
        let d = self.t1[self.hist[0] as usize * 256 + self.c0 as usize];
        let mut x = [0i32;72];
        x[0] = self.lg.stretch((c.fast / 16) as i32);
        x[1] = self.lg.stretch((c.slow / 16) as i32);
        x[2] = self.lg.stretch((d.fast / 16) as i32);
        x[3] = self.lg.stretch((d.slow / 16) as i32);
        x[MATCH_IN] = self.mm.match_prediction(self.c0);
        x[BIAS_IN] = 256;
        self.bank.fill(&self.lg, self.c0, &mut x);
        assert(x@ =~= self@.inputs());
        x
    }

    /// Probability, in 4096ths, that the next bit is 1.
    pub fn predict(&mut self) -> (p: i32)
        requires
            old(self).wf(),
            old(self)@.c0 <= 255,
        ensures
            p == old(self)@.forecast(),
            1 <= p <= 4095,
            final(self)@ == old(self)@.primed(),
            final(self).wf(),
            final(self).ready(),
    {
        proof {
            reveal(Knowledge::forecast);
            reveal(Knowledge::primed);
        }
        if self.mm.fast() {
            return self.fast_predict();
        }
        let ghost was = self@;
        self.bank.anchor(self.c0);
        proof {
            self.bank.lemma_wf();
        }
        assert(self@ =~= was.anchored());
        let ghost s = self@;
        let x = self.gather();
        let sel = self.select();
        let m = self.weights.mix(&self.lg, &x, &sel);
        let h3 = self.bank.context(1);
        proof {
            hash::lemma_mask(h3, 0x3fff);
        }
        let stages = Stages {
            c0: self.c0 as usize,
            o2: self.hist[0] as usize * 256 + self.hist[1] as usize,
            o3: (h3 & 0x3fff) as usize,
            o6: self.row6,
        };
        assert(stages == s.stages());
        let p = self.sse.refine(&self.lg, m.pr, &stages);
        self.x = x;
        self.mixed = m;
        assert(self@ =~= was.primed());
        assert(self@.inputs() =~= s.inputs());
        p
    }

    /// Learn the bit that was predicted.
    pub fn update(&mut self, bit: i32)
        requires
            old(self).wf(),
            old(self).ready(),
            old(self)@.c0 <= 255,
            bit == 0 || bit == 1,
        ensures
            final(self)@ == old(self)@.learned(bit == 1),
            final(self).wf(),
    {
        let ghost was = self@;
        proof {
            reveal(Knowledge::learned);
        }
        let one = bit == 1;
        let pair = self.hist[0] as usize * 256 + self.c0 as usize;
        if self.mm.fast() {
            let guess = match self.mm.byte() {
                Some(b) => b,
                None => 0,
            };
            match matcher::foretold(self.c0, guess) {
                Some(b) => {
                    let i = self.quick_index(b);
                    self.quick[i] = counters::drift_by(self.quick[i], one, 2048);
                },
                None => {
                    self.t0[self.c0 as usize].update(one);
                    self.t1[pair].update(one);
                },
            }
        } else {
            let sel = self.select();
            self.t0[self.c0 as usize].update(one);
            self.t1[pair].update(one);
            self.bank.update(self.c0, one);
            self.weights.update(&self.x, &sel, &self.mixed, one);
            self.sse.update(one);
            proof {
                self.bank.lemma_wf();
                self.weights.lemma_wf();
            }
        }
        self.c0 = self.c0 * 2 + bit as u32;
        assert(self@ =~= was.learned(bit == 1));
    }

    /// Commit a finished byte.
    pub fn next_byte(&mut self, byte: u8)
        requires
            old(self).wf(),
            old(self)@.mm.buf.len() < u32::MAX,
        ensures
            final(self)@ == old(self)@.committed(byte),
            final(self).wf(),
    {
        let ghost was = self@;
        proof {
            reveal(Knowledge::committed);
            was.mm.lemma_after(byte);
        }
        self.mm.commit(byte);
        self.follow.record(byte);
        self.markup.update_markup(byte, self.hist[0]);
        contexts::remember(&mut self.hist, byte);
        self.words.update(byte);
        self.c0 = 1;
        let ghost goal = was.committed(byte);
        let base = if self.turbo {
            contexts::turbo_roster(&self.hist, self.words)
        } else {
            let f = self.follow.resolve(&self.hist, self.markup.element());
            contexts::full_roster(&self.hist, self.words, &self.mm, f, &self.markup)
        };
        assert(base@ == goal.bank.base);
        self.bank.set_contexts(base);
        proof {
            self.bank.lemma_wf();
            self.follow.lemma_wf();
        }
        let h3 = hash::hash_ctx(&self.hist[0..3], 61);
        let h6 = hash::hash_ctx(&self.hist[0..6], 71);
        let hw = self.words.word.wrapping_mul(PR2);
        proof {
            hash::lemma_mask(h3, self.mask);
            hash::lemma_mask(h6, self.mask);
            hash::lemma_mask(hw, self.mask);
        }
        self.row3 = (h3 & self.mask) as usize;
        self.row6 = (h6 & self.mask) as usize;
        self.roww = (hw & self.mask) as usize;
        assert(self@ =~= goal);
    }
}

} // verus!
