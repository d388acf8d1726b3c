//! Adaptive probability maps: refine a probability in a small context by
//! interpolating between 33 nodes spread evenly over the stretched domain.
use vstd::prelude::*;
use crate::cm::counters;
use crate::cm::logistic;
use crate::cm::logistic::Logistic;
use crate::cm::paged::Paged;

verus! {

/// What a map of `n` contexts holds, and which pair of nodes the last refinement
/// used.
#[verifier::ext_equal]
pub struct Nodes {
    pub n: int,
    pub t: Seq<u16>,
    pub base: int,
    pub w: int,
}

/// Initial value of node `j`: its own position, in 16 bits.
pub open spec fn node_seed(j: int) -> u16 {
    (logistic::squash((j - 16) * 128) * 16) as u16
}

impl Nodes {
    /// The map of `n` contexts that changes nothing.
    pub open spec fn identity(n: int) -> Nodes {
        Nodes { n, t: Seq::new((n * 33) as nat, |i: int| node_seed(i % 33)), base: 0, w: 0 }
    }

    /// The last refinement used a pair of nodes of one context.
    pub open spec fn wf(self) -> bool {
        &&& self.n >= 1
        &&& self.t.len() == self.n * 33
        &&& 0 <= self.base
        &&& self.base % 33 < 32
        &&& self.base + 1 < self.t.len()
        &&& 0 <= self.w < 128
    }

    /// Position of probability `pr` on the node axis, in 128ths of a node.
    pub open spec fn place(pr: int) -> int {
        logistic::clamp(logistic::stretch(pr) + 2048, 0, 4095)
    }

    /// The map having looked up `pr` in context `cxt`.
    pub open spec fn looked_up(self, pr: int, cxt: int) -> Nodes {
        Nodes {
            base: cxt * 33 + Nodes::place(pr) / 128,
            w: Nodes::place(pr) % 128,
            ..self
        }
    }

    /// The probability interpolated between the two nodes last looked up.
    pub open spec fn interpolated(self) -> int {
        let lo = self.t[self.base] as int;
        let hi = self.t[self.base + 1] as int;
        logistic::clamp((lo * (128 - self.w) + hi * self.w) / 128 / 16, 1, 4095)
    }

    /// The map after the bit is known: both nodes move toward it in proportion to
    /// their share in the interpolation.
    pub open spec fn after(self, bit: bool) -> Nodes {
        let lo = counters::drift(self.t[self.base] as int, bit, 128 - self.w, 8192) as u16;
        let hi = counters::drift(self.t[self.base + 1] as int, bit, self.w, 8192) as u16;
        Nodes { t: self.t.update(self.base, lo).update(self.base + 1, hi), ..self }
    }
}

/// A map learns where it was asked: the two nodes it used move toward the bit, the
/// nearer one by up to a 64th of what is missing, and no other node moves.
pub proof fn maps_learn_where_they_were_asked(x: Nodes, pr: int, c: int, bit: bool)
    requires
        x.wf(),
        0 <= c < x.n,
    ensures
        ({
            let y = x.looked_up(pr, c);
            let z = y.after(bit);
            let j = c * 33 + Nodes::place(pr) / 128;
            let (lo, now) = (x.t[j] as int, z.t[j] as int);
            &&& y.base == j
            &&& bit ==> now >= lo && z.t[j + 1] >= x.t[j + 1]
            &&& !bit ==> now <= lo && z.t[j + 1] <= x.t[j + 1]
            &&& Nodes::place(pr) % 128 == 0 && bit ==> now - lo == (65536 - lo) / 64
            &&& forall|i: int| 0 <= i < x.t.len() && i != j && i != j + 1 ==> #[trigger] z.t[i] == x.t[i]
        }),
{
    let y = x.looked_up(pr, c);
    let s = Nodes::place(pr);
    logistic::lemma_stretch_range(pr);
    let j = c * 33 + s / 128;
    let w = s % 128;
    assert(c * 33 + 33 <= x.n * 33) by (nonlinear_arith)
        requires
            c + 1 <= x.n,
    ;
    let (lo, hi) = (x.t[j] as int, x.t[j + 1] as int);
    let t = counters::target(bit);
    lemma_drift_way(lo, bit, 128 - w);
    lemma_drift_way(hi, bit, w);
    if w == 0 {
        assert((t - lo) * (128 - w) == 128 * (t - lo)) by (nonlinear_arith)
            requires
                w == 0,
        ;
    }
}

proof fn lemma_drift_way(v: int, bit: bool, k: int)
    requires
        0 <= v <= 65535,
        0 <= k <= 128,
    ensures
        0 <= counters::drift(v, bit, k, 8192) <= 65535,
        bit ==> counters::drift(v, bit, k, 8192) >= v,
        !bit ==> counters::drift(v, bit, k, 8192) <= v,
{
    counters::lemma_drift_range(v, bit, k, 8192);
    let d = counters::target(bit) - v;
    if bit {
        assert(d * k / 8192 >= 0) by (nonlinear_arith)
            requires
                d >= 0,
                k >= 0,
        ;
    } else {
        assert(d * k / 8192 <= 0) by (nonlinear_arith)
            requires
                d <= 0,
                k >= 0,
        ;
    }
}

/// An adaptive probability map.
///
/// Nodes are stored as their difference (exclusive or) from their initial value,
/// so a fresh map is all zeros.
pub struct Apm {
    n: usize,
    d: Paged<u16>,
    seed: Vec<u16>,
    base: usize,
    node: usize,
    w: u32,
}

impl View for Apm {
    type V = Nodes;

    closed spec fn view(&self) -> Nodes {
        Nodes {
            n: self.n as int,
            t: Seq::new(self.d@.len(), |i: int| self.d@[i] ^ self.seed@[i % 33]),
            base: self.base as int,
            w: self.w as int,
        }
    }
}

proof fn lemma_xor_back(a: u16, s: u16)
    by (bit_vector)
    ensures
        (a ^ s) ^ s == a,
        0u16 ^ s == s,
{
}

impl Apm {
    /// The stored differences are well formed.
    pub closed spec fn wf(self) -> bool {
        &&& self@.wf()
        &&& self.d.wf()
        &&& self.seed@.len() == 33
        &&& forall|j: int| 0 <= j < 33 ==> #[trigger] self.seed@[j] == node_seed(j)
        &&& self.node == self.base % 33
    }

    /// A well-formed map has a well-formed view.
    pub proof fn lemma_wf(&self)
        requires
            self.wf(),
        ensures
            self@.wf(),
    {
    }

    /// A map of `n` contexts that changes nothing.
    pub fn new(n: usize, lg: &Logistic) -> (r: Apm)
        requires
            1 <= n <= 0x8_0000,
        ensures
            r@ == Nodes::identity(n as int),
            r.wf(),
    {
        let mut seed: Vec<u16> = Vec::new();
        let mut j: usize = 0;
        while j < 33
            invariant
                j <= 33,
                seed@.len() == j,
                forall|i: int| 0 <= i < j ==> #[trigger] seed@[i] == node_seed(i),
            decreases 33 - j,
        {
            let p: i32 = lg.squash((j as i32 - 16) * 128);
            seed.push((p * 16) as u16);
            j = j + 1;
        }
        let d: Paged<u16> = Paged::new(n * 33, 0u16);
        let r = Apm { n, d, seed, base: 0, node: 0, w: 0 };
        proof {
            assert forall|i: int| 0 <= i < n * 33 implies #[trigger] r@.t[i] == node_seed(i % 33) by {
                lemma_xor_back(0, r.seed@[i % 33]);
            }
            assert(r@.t =~= Nodes::identity(n as int).t);
        }
        r
    }

    /// Refine probability `pr` in context `cxt`.
    pub fn refine(&mut self, lg: &Logistic, pr: i32, cxt: usize) -> (p: i32)
        requires
            old(self).wf(),
            cxt < old(self)@.n,
        ensures
            final(self)@ == old(self)@.looked_up(pr as int, cxt as int),
            p == final(self)@.interpolated(),
            final(self).wf(),
            1 <= p <= 4095,
    {
        let s: i32 = lg.stretch(pr) + 2048;
        assert(s == Nodes::place(pr as int));
        let j: usize = (s / 128) as usize;
        let w: u32 = (s % 128) as u32;
        proof {
            self.d.lemma_len();
        }
        assert(cxt * 33 + 33 <= self.n * 33 == self.d@.len());
        let base: usize = cxt * 33 + j;
        proof {
            lemma_place_mod(cxt as int, j as int);
        }
        let ghost was = self@;
        self.base = base;
        self.node = j;
        self.w = w;
        assert(self@ =~= was.looked_up(pr as int, cxt as int));
        let lo: u32 = (self.d.get(base) ^ self.seed[j]) as u32;
        let hi: u32 = (self.d.get(base + 1) ^ self.seed[j + 1]) as u32;
        assert(lo == self@.t[base as int]);
        assert(hi == self@.t[base + 1]);
        assert(0 <= lo * (128 - w) <= 65535 * 128 && 0 <= hi * w <= 65535 * 128)
            by (nonlinear_arith)
            requires
                0 <= lo <= 65535,
                0 <= hi <= 65535,
                0 <= w < 128,
        ;
        let p16: u32 = (lo * (128 - w) + hi * w) / 128;
        let p: u32 = p16 / 16;
        if p < 1 {
            1
        } else if p > 4095 {
            4095
        } else {
            p as i32
        }
    }

    /// Move both interpolation nodes toward the observed bit, each in proportion
    /// to its weight.
    pub fn update(&mut self, bit: bool)
        requires
            old(self).wf(),
        ensures
            final(self)@ == old(self)@.after(bit),
            final(self).wf(),
    {
        let ghost was = self@;
        let b = self.base;
        proof {
            self.d.lemma_len();
        }
        assert(b + 1 < self.d@.len());
        let s0 = self.seed[self.node];
        let s1 = self.seed[self.node + 1];
        let lo: u16 = self.d.get(b) ^ s0;
        let hi: u16 = self.d.get(b + 1) ^ s1;
        assert(lo == was.t[b as int]);
        assert(hi == was.t[b + 1]);
        // A 128th of a node weighs as much as 8 of the 65536 steps of `drift_by`.
        let x = counters::drift_by(lo, bit, 8 * (128 - self.w as i64));
        let y = counters::drift_by(hi, bit, 8 * self.w as i64);
        proof {
            lemma_drift_scale(lo as int, bit, 128 - self.w);
            lemma_drift_scale(hi as int, bit, self.w as int);
        }
        self.d.set(b, x ^ s0);
        self.d.set(b + 1, y ^ s1);
        proof {
            lemma_xor_back(x, s0);
            lemma_xor_back(y, s1);
        }
        assert(self@ =~= was.after(bit));
    }
}

proof fn lemma_place_mod(c: int, j: int)
    requires
        0 <= j < 32,
    ensures
        (c * 33 + j) % 33 == j,
        (c * 33 + j + 1) % 33 == j + 1,
{
}

proof fn lemma_drift_scale(v: int, bit: bool, k: int)
    ensures
        counters::drift(v, bit, 8 * k, 65536) == counters::drift(v, bit, k, 8192),
{
    let d = counters::target(bit) - v;
    assert(d * (8 * k) / 65536 == d * k / 8192) by (nonlinear_arith);
}

} // verus!
