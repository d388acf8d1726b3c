//! The refinement chain: four probability maps, each in a longer context, each
//! contributing a quarter of the refined probability.
use vstd::prelude::*;
use crate::cm::apm::{Apm, Nodes};
use crate::cm::logistic;
use crate::cm::logistic::Logistic;

verus! {

/// The contexts of the four stages.
#[derive(Clone, Copy)]
pub struct Stages {
    /// The partial byte.
    pub c0: usize,
    /// The two previous bytes.
    pub o2: usize,
    /// A hashed order-3 context.
    pub o3: usize,
    /// A hashed order-6 context.
    pub o6: usize,
}

/// State of the chain.
#[verifier::ext_equal]
pub struct SseState {
    pub turbo: bool,
    pub a0: Nodes,
    pub a1: Nodes,
    pub a2: Nodes,
    pub a3: Nodes,
}

/// Three parts `p`, one part `q`.
pub open spec fn blend(p: int, q: int) -> int {
    (p * 3 + q) / 4
}

impl SseState {
    /// A chain that changes nothing; the last stage has `rows` contexts.
    pub open spec fn start(turbo: bool, rows: int) -> SseState {
        SseState {
            turbo,
            a0: Nodes::identity(256),
            a1: Nodes::identity(0x1_0000),
            a2: Nodes::identity(0x4000),
            a3: Nodes::identity(rows),
        }
    }

    /// The chain having looked up `pr`, and the refined probability. Turbo skips
    /// the second and the last stage.
    pub open spec fn refined(self, pr: int, s: Stages) -> (SseState, int) {
        let a0 = self.a0.looked_up(pr, s.c0 as int);
        let p0 = blend(pr, a0.interpolated());
        let a1 = if self.turbo {
            self.a1
        } else {
            self.a1.looked_up(p0, s.o2 as int)
        };
        let p1 = if self.turbo {
            p0
        } else {
            blend(p0, a1.interpolated())
        };
        let a2 = self.a2.looked_up(p1, s.o3 as int);
        let p2 = blend(p1, a2.interpolated());
        let a3 = if self.turbo {
            self.a3
        } else {
            self.a3.looked_up(p2, s.o6 as int)
        };
        let p3 = if self.turbo {
            p2
        } else {
            blend(p2, a3.interpolated())
        };
        (SseState { a0, a1, a2, a3, ..self }, logistic::clamp(p3, 1, 4095))
    }

    /// The chain after `bit` was seen.
    pub open spec fn after(self, bit: bool) -> SseState {
        if self.turbo {
            SseState { a0: self.a0.after(bit), a2: self.a2.after(bit), ..self }
        } else {
            SseState {
                a0: self.a0.after(bit),
                a1: self.a1.after(bit),
                a2: self.a2.after(bit),
                a3: self.a3.after(bit),
                ..self
            }
        }
    }
}

/// The refinement chain.
pub struct Sse {
    turbo: bool,
    a0: Apm,
    a1: Apm,
    a2: Apm,
    a3: Apm,
}

impl View for Sse {
    type V = SseState;

    closed spec fn view(&self) -> SseState {
        SseState {
            turbo: self.turbo,
            a0: self.a0@,
            a1: self.a1@,
            a2: self.a2@,
            a3: self.a3@,
        }
    }
}

impl Sse {
    /// The maps are well formed and have their contexts.
    pub closed spec fn wf(self) -> bool {
        &&& self.a0.wf()
        &&& self.a1.wf()
        &&& self.a2.wf()
        &&& self.a3.wf()
        &&& self.a0@.n == 256
        &&& self.a1@.n == 0x1_0000
        &&& self.a2@.n == 0x4000
    }

    /// A chain that changes nothing; the last stage has `rows` contexts.
    pub fn new(lg: &Logistic, turbo: bool, rows: usize) -> (r: Sse)
        requires
            1 <= rows <= 0x8_0000,
        ensures
            r@ == SseState::start(turbo, rows as int),
            r.wf(),
    {
        Sse {
            turbo,
            a0: Apm::new(256, lg),
            a1: Apm::new(0x1_0000, lg),
            a2: Apm::new(0x4000, lg),
            a3: Apm::new(rows, lg),
        }
    }

    /// Refine the probability `pr`.
    pub fn refine(&mut self, lg: &Logistic, pr: i32, s: &Stages) -> (p: i32)
        requires
            old(self).wf(),
            1 <= pr <= 4095,
            s.c0 < 256,
            s.o2 < 0x1_0000,
            s.o3 < 0x4000,
            s.o6 < old(self)@.a3.n,
        ensures
            (final(self)@, p as int) == old(self)@.refined(pr as int, *s),
            final(self).wf(),
            1 <= p <= 4095,
    {
        let mut p: i32 = pr;
        let q = self.a0.refine(lg, p, s.c0);
        p = (p * 3 + q) / 4;
        if !self.turbo {
            let q = self.a1.refine(lg, p, s.o2);
            p = (p * 3 + q) / 4;
        }
        let q = self.a2.refine(lg, p, s.o3);
        p = (p * 3 + q) / 4;
        if !self.turbo {
            let q = self.a3.refine(lg, p, s.o6);
            p = (p * 3 + q) / 4;
        }
        if p < 1 {
            1
        } else if p > 4095 {
            4095
        } else {
            p
        }
    }

    /// Learn the bit that was seen.
    pub fn update(&mut self, bit: bool)
        requires
            old(self).wf(),
        ensures
            final(self)@ == old(self)@.after(bit),
            final(self).wf(),
    {
        self.a0.update(bit);
        self.a2.update(bit);
        if !self.turbo {
            self.a1.update(bit);
            self.a3.update(bit);
        }
    }
}

} // verus!
