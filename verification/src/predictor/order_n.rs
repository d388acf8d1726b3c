//! Order-1, order-2 and order-4 models: how often each byte followed each context.
//!
//! A prediction is a Laplace-smoothed distribution: byte `i` has the probability
//! `num[i] / den`, with one added to every count.
use std::collections::HashMap;
use vstd::prelude::*;

verus! {

/// A distribution over the next byte, as fractions.
pub struct Laplace {
    /// Numerators.
    pub num: [u64; 256],
    /// Common denominator.
    pub den: u64,
}

/// Sum of the first `k` counts.
pub open spec fn total(row: Seq<u32>, k: int) -> int
    decreases k,
{
    if k <= 0 {
        0
    } else {
        total(row, k - 1) + row[k - 1]
    }
}

/// Counts of a context that was not seen.
pub open spec fn unseen() -> Seq<u32> {
    Seq::new(256, |i: int| 0u32)
}

/// Counts after `next` followed once more.
pub open spec fn bumped(row: Seq<u32>, next: u8) -> Seq<u32> {
    row.update(next as int, (row[next as int] + 1) as u32)
}

impl Laplace {
    /// The distribution of a row of counts.
    pub open spec fn of(self, row: Seq<u32>) -> bool {
        &&& self.den == total(row, 256) + 256
        &&& forall|i: int| 0 <= i < 256 ==> #[trigger] self.num@[i] == row[i] + 1
    }
}

proof fn lemma_total_bumped(row: Seq<u32>, next: u8, k: int)
    requires
        row.len() == 256,
        row[next as int] < u32::MAX,
        0 <= k <= 256,
    ensures
        total(bumped(row, next), k) == total(row, k) + (if next < k { 1int } else { 0int }),
    decreases k,
{
    if k > 0 {
        lemma_total_bumped(row, next, k - 1);
    }
}

proof fn lemma_total_covers(row: Seq<u32>, i: int, k: int)
    requires
        0 <= i < k,
    ensures
        0 <= row[i] <= total(row, k),
    decreases k,
{
    if i < k - 1 {
        lemma_total_covers(row, i, k - 1);
    } else if k > 1 {
        lemma_total_covers(row, k - 2, k - 1);
    } else {
        assert(total(row, 0) == 0);
    }
}

/// What followed a context becomes likelier there, and everything else less likely.
pub proof fn what_followed_becomes_likelier(p: Laplace, q: Laplace, row: Seq<u32>, next: u8, i: int)
    requires
        row.len() == 256,
        row[next as int] < u32::MAX,
        p.of(row),
        q.of(bumped(row, next)),
        0 <= i < 256,
    ensures
        q.num@[next as int] * p.den > p.num@[next as int] * q.den,
        i != next ==> q.num@[i] * p.den < p.num@[i] * q.den,
{
    lemma_total_bumped(row, next, 256);
    lemma_total_covers(row, next as int, 256);
    let (c, d) = (row[next as int] as int, p.den as int);
    assert(q.num@[next as int] == c + 2 && p.num@[next as int] == c + 1 && q.den == d + 1);
    assert((c + 2) * d > (c + 1) * (d + 1)) by (nonlinear_arith)
        requires
            d > c + 1,
    ;
    if i != next {
        let e = row[i] as int;
        assert(q.num@[i] == e + 1 && p.num@[i] == e + 1);
        assert((e + 1) * d < (e + 1) * (d + 1)) by (nonlinear_arith)
            requires
                e >= 0,
        ;
    }
}

/// Sum of the first `k` numerators.
pub open spec fn num_total(num: Seq<u64>, k: int) -> int
    decreases k,
{
    if k <= 0 {
        0
    } else {
        num_total(num, k - 1) + num[k - 1]
    }
}

proof fn lemma_num_total(num: Seq<u64>, row: Seq<u32>, k: int)
    requires
        0 <= k <= 256,
        forall|i: int| 0 <= i < 256 ==> #[trigger] num[i] == row[i] + 1,
    ensures
        num_total(num, k) == total(row, k) + k,
    decreases k,
{
    if k > 0 {
        lemma_num_total(num, row, k - 1);
    }
}

/// The probabilities of a prediction sum to 1.
pub proof fn prediction_sums_to_one(p: Laplace, row: Seq<u32>)
    requires
        p.of(row),
    ensures
        num_total(p.num@, 256) == p.den,
{
    lemma_num_total(p.num@, row, 256);
}

/// An unseen context predicts all bytes alike.
pub proof fn unseen_is_uniform(p: Laplace)
    requires
        p.of(unseen()),
    ensures
        p.den == 256,
        forall|i: int| 0 <= i < 256 ==> #[trigger] p.num@[i] == 1,
{
    lemma_zero_total(256);
}

proof fn lemma_zero_total(k: int)
    requires
        0 <= k <= 256,
    ensures
        total(unseen(), k) == 0,
    decreases k,
{
    if k > 0 {
        lemma_zero_total(k - 1);
    }
}

fn laplace(row: &[u32; 256]) -> (p: Laplace)
    ensures
        p.of(row@),
{
    let mut num = [0u64;256];
    let mut sum: u64 = 0;
    let mut i: usize = 0;
    while i < 256
        invariant
            i <= 256,
            sum == total(row@, i as int),
            sum <= i * 0xffff_ffff,
            forall|j: int| 0 <= j < i ==> #[trigger] num@[j] == row@[j] + 1,
        decreases 256 - i,
    {
        num[i] = row[i] as u64 + 1;
        sum = sum + row[i] as u64;
        i = i + 1;
    }
    Laplace { num, den: sum + 256 }
}

// ---------------------------------------------------------------------------
// Order 1
// ---------------------------------------------------------------------------

/// Counts by the previous byte.
pub struct Order1Model {
    counts: Vec<[u32; 256]>,
}

impl View for Order1Model {
    type V = Seq<Seq<u32>>;

    closed spec fn view(&self) -> Seq<Seq<u32>> {
        Seq::new(self.counts@.len(), |p: int| self.counts@[p]@)
    }
}

impl Order1Model {
    /// There is a row of counts for every byte.
    pub open spec fn wf(self) -> bool {
        self@.len() == 256
    }

    /// A model that has seen nothing.
    pub fn new() -> (r: Box<Order1Model>)
        ensures
            r.wf(),
            forall|p: int| 0 <= p < 256 ==> #[trigger] r@[p] == unseen(),
    {
        let row = [0u32;256];
        let r = Order1Model { counts: vec![row; 256] };
        assert forall|p: int| 0 <= p < 256 implies #[trigger] r@[p] == unseen() by {
            assert(r@[p] =~= unseen());
        }
        Box::new(r)
    }

    /// What follows `prev`.
    pub fn predict(&self, prev: u8) -> (p: Laplace)
        requires
            self.wf(),
        ensures
            p.of(self@[prev as int]),
    {
        assert(self@[prev as int] == self.counts@[prev as int]@);
        laplace(&self.counts[prev as usize])
    }

    /// Observe that `next` followed `prev`.
    pub fn update(&mut self, prev: u8, next: u8)
        requires
            old(self).wf(),
            old(self)@[prev as int][next as int] < u32::MAX,
        ensures
            final(self).wf(),
            final(self)@ == old(self)@.update(
                prev as int,
                bumped(old(self)@[prev as int], next),
            ),
    {
        let ghost was = self@;
        assert(was[prev as int] == self.counts@[prev as int]@);
        let c = self.counts[prev as usize][next as usize];
        self.counts[prev as usize][next as usize] = c + 1;
        assert(self@[prev as int] =~= bumped(was[prev as int], next));
        assert(self@ =~= was.update(prev as int, bumped(was[prev as int], next)));
    }
}

// ---------------------------------------------------------------------------
// Sparse tables
// ---------------------------------------------------------------------------

/// The counts of a context in a sparse table.
pub open spec fn row_of<K>(m: Map<K, Seq<u32>>, key: K) -> Seq<u32> {
    if m.dom().contains(key) {
        m[key]
    } else {
        unseen()
    }
}

/// Counts by the two previous bytes.
pub struct Order2Model {
    counts: HashMap<u16, Box<[u32; 256]>>,
}

impl View for Order2Model {
    type V = Map<u16, Seq<u32>>;

    closed spec fn view(&self) -> Map<u16, Seq<u32>> {
        self.counts@.map_values(|row: Box<[u32; 256]>| row@)
    }
}

/// The context of the two previous bytes.
pub open spec fn pair(prev2: u8, prev1: u8) -> u16 {
    (prev2 * 256 + prev1) as u16
}

impl Order2Model {
    /// A model that has seen nothing.
    pub fn new() -> (r: Order2Model)
        ensures
            r@ == Map::<u16, Seq<u32>>::empty(),
    {
        broadcast use vstd::std_specs::hash::group_hash_axioms;

        let r = Order2Model { counts: HashMap::new() };
        assert(r@ =~= Map::empty());
        r
    }

    /// What follows `prev2`, `prev1`.
    pub fn predict(&self, prev2: u8, prev1: u8) -> (p: Laplace)
        ensures
            p.of(row_of(self@, pair(prev2, prev1))),
    {
        broadcast use vstd::std_specs::hash::group_hash_axioms;

        let key: u16 = prev2 as u16 * 256 + prev1 as u16;
        match self.counts.get(&key) {
            Some(row) => laplace(row),
            None => {
                let row = [0u32;256];
                assert(row@ =~= unseen());
                laplace(&row)
            },
        }
    }

    /// Observe that `next` followed `prev2`, `prev1`.
    pub fn update(&mut self, prev2: u8, prev1: u8, next: u8)
        requires
            row_of(old(self)@, pair(prev2, prev1))[next as int] < u32::MAX,
        ensures
            final(self)@ == old(self)@.insert(
                pair(prev2, prev1),
                bumped(row_of(old(self)@, pair(prev2, prev1)), next),
            ),
    {
        broadcast use vstd::std_specs::hash::group_hash_axioms;

        let ghost was = self@;
        let key: u16 = prev2 as u16 * 256 + prev1 as u16;
        let mut row: [u32; 256] = match self.counts.get(&key) {
            Some(row) => **row,
            None => [0u32;256],
        };
        assert(row@ =~= row_of(was, key));
        let ghost before = row@;
        row[next as usize] = row[next as usize] + 1;
        assert(row@ =~= bumped(before, next));
        self.counts.insert(key, Box::new(row));
        assert(self@ =~= was.insert(key, row@));
    }
}

/// Most contexts an order-4 model keeps.
pub const ORDER4_CAP: usize = 0x10_0000;

/// Counts by the four previous bytes.
pub struct Order4Model {
    counts: HashMap<u32, Box<[u32; 256]>>,
}

impl View for Order4Model {
    type V = Map<u32, Seq<u32>>;

    closed spec fn view(&self) -> Map<u32, Seq<u32>> {
        self.counts@.map_values(|row: Box<[u32; 256]>| row@)
    }
}

impl Order4Model {
    /// A model that has seen nothing.
    pub fn new() -> (r: Order4Model)
        ensures
            r@ == Map::<u32, Seq<u32>>::empty(),
    {
        broadcast use vstd::std_specs::hash::group_hash_axioms;

        let r = Order4Model { counts: HashMap::new() };
        assert(r@ =~= Map::empty());
        r
    }

    /// What follows the four bytes of `ctx4`.
    pub fn predict(&self, ctx4: u32) -> (p: Laplace)
        ensures
            p.of(row_of(self@, ctx4)),
    {
        broadcast use vstd::std_specs::hash::group_hash_axioms;

        match self.counts.get(&ctx4) {
            Some(row) => laplace(row),
            None => {
                let row = [0u32;256];
                assert(row@ =~= unseen());
                laplace(&row)
            },
        }
    }

    /// Observe that `next` followed the four bytes of `ctx4`. A full model stops
    /// learning.
    pub fn update(&mut self, ctx4: u32, next: u8)
        requires
            row_of(old(self)@, ctx4)[next as int] < u32::MAX,
        ensures
            final(self)@ == (if old(self)@.dom().len() >= ORDER4_CAP {
                old(self)@
            } else {
                old(self)@.insert(ctx4, bumped(row_of(old(self)@, ctx4), next))
            }),
    {
        broadcast use vstd::std_specs::hash::group_hash_axioms;

        let ghost was = self@;
        assert(was.dom() =~= self.counts@.dom());
        if self.counts.len() >= ORDER4_CAP {
            return;
        }
        let mut row: [u32; 256] = match self.counts.get(&ctx4) {
            Some(row) => **row,
            None => [0u32;256],
        };
        assert(row@ =~= row_of(was, ctx4));
        let ghost before = row@;
        row[next as usize] = row[next as usize] + 1;
        assert(row@ =~= bumped(before, next));
        self.counts.insert(ctx4, Box::new(row));
        assert(self@ =~= was.insert(ctx4, row@));
    }
}

} // verus!
