//! The bank of bit-history models: per model a hashed table of states and a map
//! from states to learned probabilities.
//!
//! A byte is coded as two nibbles. At the start of each, every model finds the
//! bucket of its context; the bits of the nibble then walk the 15 states in it.
use vstd::prelude::*;
use crate::cm::hash::PR2;
use crate::cm::logistic;
use crate::cm::logistic::Logistic;
use crate::cm::matcher;
use crate::cm::mixer;
use crate::cm::sizing;
use crate::cm::sizing::{MEM_PLUS, NBH, NBH_TURBO};
use crate::cm::states;
use crate::cm::states::{BhTable, Buckets, SmEntry, SM_SIZE};

verus! {

/// First mixer input of the bit-history models.
pub const BH_IN: usize = 4;

/// Path within the nibble: a 1 followed by the bits of the nibble seen so far.
pub open spec fn nib_path(c0: int) -> int {
    if c0 < 16 {
        c0
    } else if c0 < 32 {
        1
    } else if c0 < 64 {
        2 + c0 % 2
    } else if c0 < 128 {
        4 + c0 % 4
    } else {
        8 + c0 % 8
    }
}

/// Start of the state-map plane for the depth within the nibble.
pub open spec fn plane(c0: int) -> int {
    matcher::depth(c0) % 4 * 256
}

/// Context hash of the low nibble that follows the high nibble `nib`.
pub open spec fn low_hash(base: u32, nib: int) -> u32 {
    let h = base ^ ((nib + 17) as u32).wrapping_mul(PR2);
    h ^ (h >> 15)
}

/// State of the bank.
#[verifier::ext_equal]
pub struct BankState {
    /// The state table of each model.
    pub tables: Seq<Buckets>,
    /// The state maps of all models, one after the other.
    pub maps: Seq<SmEntry>,
    /// The context of each model.
    pub base: Seq<u32>,
    /// Where the states of the current nibble stand in each table.
    pub off: Seq<int>,
}

impl BankState {
    /// An empty bank for a segment of `n` bytes.
    pub open spec fn start(n: int, turbo: bool, mem: int) -> BankState {
        let nbh = if turbo { 5nat } else { 30nat };
        let ways = if mem >= MEM_PLUS { 4u32 } else { 2u32 };
        BankState {
            tables: Seq::new(
                nbh,
                |k: int| Buckets::empty(sizing::model_bits_spec(k, n, mem) as u32, ways),
            ),
            maps: Seq::new(nbh * 1024, |i: int| SmEntry::seed(i % 256)),
            base: Seq::new(30, |k: int| 0u32),
            off: Seq::new(nbh, |k: int| 1int),
        }
    }

    /// The current states lie inside the tables.
    pub open spec fn wf(self) -> bool {
        &&& 5 <= self.tables.len() <= 30
        &&& self.maps.len() == self.tables.len() * 1024
        &&& self.base.len() == 30
        &&& self.off.len() == self.tables.len()
        &&& forall|k: int|
            0 <= k < self.tables.len() ==> {
                &&& (#[trigger] self.tables[k]).wf()
                &&& 1 <= self.off[k]
                &&& self.off[k] + 15 <= self.tables[k].t.len()
            }
    }

    /// Hash of the bucket that model `k` uses in the nibble that starts at `c0`.
    pub open spec fn bucket_hash(self, k: int, c0: int) -> u32 {
        if c0 == 1 {
            self.base[k]
        } else {
            low_hash(self.base[k], c0 - 16)
        }
    }

    /// At the start of a nibble, every model's bucket is looked up.
    pub open spec fn anchored(self, c0: int) -> BankState {
        if c0 == 1 || 16 <= c0 < 32 {
            BankState {
                tables: Seq::new(
                    self.tables.len(),
                    |k: int| self.tables[k].found(self.bucket_hash(k, c0)),
                ),
                off: Seq::new(
                    self.tables.len(),
                    |k: int| self.tables[k].offset(self.bucket_hash(k, c0)),
                ),
                ..self
            }
        } else {
            self
        }
    }

    /// Index of model `k`'s current state in its table.
    pub open spec fn node(self, k: int, c0: int) -> int {
        self.off[k] + nib_path(c0) - 1
    }

    /// Model `k`'s current state.
    pub open spec fn state(self, k: int, c0: int) -> u8 {
        self.tables[k].t[self.node(k, c0)]
    }

    /// Index of the entry for model `k`'s current state in the maps.
    pub open spec fn entry(self, k: int, c0: int) -> int {
        k * 1024 + plane(c0) + self.state(k, c0)
    }

    /// Mixer input `i` of the bank: for each model the learned and the closed-form
    /// estimate of its state, stretched.
    pub open spec fn input(self, i: int, c0: int) -> int {
        let k = i / 2;
        if i % 2 == 0 {
            logistic::stretch(self.maps[self.entry(k, c0)].p as int / 16)
        } else {
            states::direct(self.state(k, c0) as int)
        }
    }

    /// The bank after `bit` was seen.
    pub open spec fn after(self, c0: int, bit: bool) -> BankState {
        BankState {
            tables: Seq::new(
                self.tables.len(),
                |k: int|
                    self.tables[k].with_state(
                        self.node(k, c0),
                        states::state_after(self.state(k, c0), bit),
                    ),
            ),
            maps: Seq::new(
                self.maps.len(),
                |i: int|
                    if i == self.entry(i / 1024, c0) {
                        self.maps[i].after(bit)
                    } else {
                        self.maps[i]
                    },
            ),
            ..self
        }
    }

    proof fn lemma_node(self, k: int, c0: int)
        requires
            self.wf(),
            1 <= c0 <= 255,
            0 <= k < self.tables.len(),
        ensures
            1 <= nib_path(c0) <= 15,
            0 <= self.node(k, c0) < self.tables[k].t.len(),
            0 <= plane(c0) <= 768,
            k * 1024 <= self.entry(k, c0) < (k + 1) * 1024,
            self.entry(k, c0) < self.maps.len(),
            self.entry(k, c0) / 1024 == k,
    {
        assert(self.tables[k].wf());
    }
}

/// The bank remembers: a bit that a model has seen in a context is part of the history
/// it finds when the same context comes again, and counts in its vote.
pub proof fn the_bank_remembers(k: BankState, c0: int, m: int, bit: bool)
    requires
        k.wf(),
        c0 == 1 || 16 <= c0 < 32,
        0 <= m < k.tables.len(),
    ensures
        ({
            let a = k.anchored(c0);
            let z = a.after(c0, bit).anchored(c0);
            &&& z.state(m, c0) == states::state_after(a.state(m, c0), bit)
            &&& z.input(2 * m + 1, c0) == states::direct(
                states::state_after(a.state(m, c0), bit) as int,
            )
        }),
{
    let a = k.anchored(c0);
    let s = a.after(c0, bit);
    let z = s.anchored(c0);
    let h = k.bucket_hash(m, c0);
    assert(k.tables[m].wf());
    assert(nib_path(c0) == 1);
    assert(a.off[m] == k.tables[m].offset(h));
    assert(a.node(m, c0) == k.tables[m].offset(h));
    let new = states::state_after(a.state(m, c0), bit);
    k.tables[m].what_was_noted_is_found_again(h, 0, new);
    assert(s.tables[m] == k.tables[m].found(h).with_state(k.tables[m].offset(h), new));
    assert(s.bucket_hash(m, c0) == h);
    assert(z.tables[m] == s.tables[m].found(h));
    assert(z.off[m] == s.tables[m].offset(h));
    assert((2 * m + 1) / 2 == m && (2 * m + 1) % 2 == 1);
}

/// The bank of bit-history models.
pub struct Bank {
    tables: Vec<BhTable>,
    maps: Vec<SmEntry>,
    direct: Vec<i16>,
    base: [u32; 30],
    off: [usize; 30],
}

impl View for Bank {
    type V = BankState;

    closed spec fn view(&self) -> BankState {
        BankState {
            tables: Seq::new(self.tables@.len(), |k: int| self.tables@[k]@),
            maps: self.maps@,
            base: self.base@,
            off: Seq::new(self.tables@.len(), |k: int| self.off@[k] as int),
        }
    }
}

impl Bank {
    /// The bank's tables are well formed.
    pub closed spec fn wf(self) -> bool {
        &&& self@.wf()
        &&& self.direct@.len() == 256
        &&& forall|s: int| 0 <= s < 256 ==> #[trigger] self.direct@[s] == states::direct(s)
    }

    /// A well-formed bank has a well-formed view.
    pub proof fn lemma_wf(&self)
        requires
            self.wf(),
        ensures
            self@.wf(),
    {
    }

    /// An empty bank for a segment of `n` bytes.
    pub fn new(lg: &Logistic, n: usize, turbo: bool, mem: u8) -> (r: Bank)
        ensures
            r@ == BankState::start(n as int, turbo, mem as int),
            r.wf(),
    {
        let nbh: usize = if turbo {
            NBH_TURBO
        } else {
            NBH
        };
        let ways: u32 = if mem >= MEM_PLUS {
            4
        } else {
            2
        };
        let ghost goal = BankState::start(n as int, turbo, mem as int);
        let map = states::sm_init();
        let mut tables: Vec<BhTable> = Vec::new();
        let mut maps: Vec<SmEntry> = Vec::new();
        let mut k: usize = 0;
        while k < nbh
            invariant
                k <= nbh == goal.tables.len() <= 30,
                goal == BankState::start(n as int, turbo, mem as int),
                ways == (if mem >= MEM_PLUS {
                    4u32
                } else {
                    2u32
                }),
                map@ == states::fresh_map(),
                tables@.len() == k,
                maps@.len() == k * 1024,
                forall|j: int|
                    0 <= j < k ==> (#[trigger] tables@[j])@ == goal.tables[j] && tables@[j]@.wf(),
                forall|i: int| 0 <= i < k * 1024 ==> #[trigger] maps@[i] == SmEntry::seed(i % 256),
            decreases nbh - k,
        {
            let bits = sizing::model_bits(k, n, mem);
            tables.push(BhTable::new(bits, ways));
            let ghost before = maps@;
            maps.extend_from_slice(map.as_slice());
            assert forall|i: int| 0 <= i < (k + 1) * 1024 implies #[trigger] maps@[i]
                == SmEntry::seed(i % 256) by {
                if i < k * 1024 {
                    assert(maps@[i] == before[i]);
                } else {
                    assert(maps@[i] == map@[i - k * 1024]);
                    assert((i - k * 1024) % 256 == i % 256);
                }
            }
            k = k + 1;
        }
        let r = Bank {
            tables,
            maps,
            direct: states::direct_table(lg),
            base: [0u32;30],
            off: [1usize;30],
        };
        assert forall|j: int| 0 <= j < nbh implies #[trigger] r@.tables[j] == goal.tables[j] by {
            assert(r@.tables[j] == r.tables@[j]@);
        }
        assert(r@ =~= goal);
        r
    }

    /// Set the models' contexts for the next byte.
    pub fn set_contexts(&mut self, base: [u32; 30])
        requires
            old(self).wf(),
        ensures
            final(self)@ == (BankState { base: base@, ..old(self)@ }),
            final(self).wf(),
    {
        let ghost was = self@;
        self.base = base;
        assert(self@ =~= (BankState { base: base@, ..was }));
        assert(self@.tables == was.tables && self@.off == was.off);
    }

    /// Context of model `k`.
    pub fn context(&self, k: usize) -> (r: u32)
        requires
            k < 30,
        ensures
            r == self@.base[k as int],
    {
        self.base[k]
    }

    /// Look every model's bucket up, if a nibble starts at `c0`.
    pub fn anchor(&mut self, c0: u32)
        requires
            old(self).wf(),
            1 <= c0 <= 255,
        ensures
            final(self)@ == old(self)@.anchored(c0 as int),
            final(self).wf(),
    {
        if c0 != 1 && !(16 <= c0 && c0 < 32) {
            return;
        }
        let ghost was = self@;
        let salt: u32 = if c0 == 1 {
            0
        } else {
            (c0 + 1).wrapping_mul(PR2)
        };
        let mut k: usize = 0;
        while k < self.tables.len()
            invariant
                was.wf(),
                c0 == 1 || 16 <= c0 < 32,
                c0 != 1 ==> salt == ((c0 + 1) as u32).wrapping_mul(PR2),
                k <= self.tables@.len() == was.tables.len(),
                self.maps@ == was.maps,
                self.base@ == was.base,
                self.direct@ == old(self).direct@,
                forall|j: int|
                    0 <= j < was.tables.len() ==> (#[trigger] self.tables@[j])@ == (if j < k {
                        was.tables[j].found(was.bucket_hash(j, c0 as int))
                    } else {
                        was.tables[j]
                    }),
                forall|j: int|
                    0 <= j < was.tables.len() ==> #[trigger] self.off@[j] == (if j < k {
                        was.tables[j].offset(was.bucket_hash(j, c0 as int))
                    } else {
                        was.off[j]
                    }),
            decreases was.tables.len() - k,
        {
            assert(was.tables[k as int].wf());
            assert(self.tables@[k as int]@ == was.tables[k as int]);
            let h: u32 = if c0 == 1 {
                self.base[k]
            } else {
                let x = self.base[k] ^ salt;
                x ^ (x >> 15)
            };
            assert(h == was.bucket_hash(k as int, c0 as int));
            let o = self.tables[k].find(h);
            self.off[k] = o;
            k = k + 1;
        }
        proof {
            let goal = was.anchored(c0 as int);
            assert forall|j: int| 0 <= j < was.tables.len() implies {
                &&& #[trigger] self@.tables[j] == goal.tables[j]
                &&& self@.off[j] == goal.off[j]
                &&& self@.tables[j].wf()
                &&& 1 <= self@.off[j]
                &&& self@.off[j] + 15 <= self@.tables[j].t.len()
            } by {
                assert(self@.tables[j] == self.tables@[j]@);
                assert(self@.off[j] == self.off@[j]);
                was.tables[j].lemma_found(was.bucket_hash(j, c0 as int));
            }
            assert(self@ =~= goal);
        }
    }

    /// Write the bank's mixer inputs for the bit after `c0`.
    pub fn fill(&self, lg: &Logistic, c0: u32, x: &mut [i32; 72])
        requires
            self.wf(),
            1 <= c0 <= 255,
            mixer::within(old(x)@, 2047),
        ensures
            mixer::within(final(x)@, 2047),
            forall|i: int|
                0 <= i < 72 ==> #[trigger] final(x)@[i] == (if 4 <= i < 4 + 2
                    * self@.tables.len() {
                    self@.input(i - 4, c0 as int)
                } else {
                    old(x)@[i] as int
                }),
    {
        let (path, shelf) = position(c0);
        let ghost was = x@;
        let ghost s = self@;
        let mut k: usize = 0;
        while k < self.tables.len()
            invariant
                self.wf(),
                s == self@,
                was == old(x)@,
                1 <= c0 <= 255,
                path == nib_path(c0 as int),
                shelf == plane(c0 as int),
                k <= self.tables@.len(),
                mixer::within(was, 2047),
                forall|i: int|
                    0 <= i < 72 ==> #[trigger] x@[i] == (if 4 <= i < 4 + 2 * k {
                        s.input(i - 4, c0 as int)
                    } else {
                        was[i] as int
                    }),
                mixer::within(x@, 2047),
            decreases self.tables@.len() - k,
        {
            proof {
                s.lemma_node(k as int, c0 as int);
                assert(s.tables[k as int].wf());
                assert(s.tables[k as int] == self.tables@[k as int]@);
                assert(s.off[k as int] == self.off@[k as int]);
            }
            let st = self.tables[k].state(self.off[k] + path - 1);
            assert(st == s.state(k as int, c0 as int));
            assert(k * 1024 + shelf + st < self.maps.len());
            let e = self.maps[k * SM_SIZE + shelf + st as usize];
            let v0 = lg.stretch((e.p / 16) as i32);
            let v1 = self.direct[st as usize] as i32;
            proof {
                logistic::lemma_stretch_range(
                    logistic::clamp(states::estimate(st as int, 4096), 1, 4095),
                );
                assert((2 * k as int) / 2 == k && (2 * k as int) % 2 == 0);
                assert((2 * k as int + 1) / 2 == k && (2 * k as int + 1) % 2 == 1);
                assert(v0 == s.input(2 * k as int, c0 as int));
                assert(v1 == s.input(2 * k as int + 1, c0 as int));
            }
            x[BH_IN + 2 * k] = v0;
            x[BH_IN + 2 * k + 1] = v1;
            k = k + 1;
        }
        assert(self.tables@.len() == s.tables.len());
    }

    /// Learn the bit that followed `c0`.
    pub fn update(&mut self, c0: u32, bit: bool)
        requires
            old(self).wf(),
            1 <= c0 <= 255,
        ensures
            final(self)@ == old(self)@.after(c0 as int, bit),
            final(self).wf(),
    {
        let (path, shelf) = position(c0);
        let ghost s = self@;
        let ghost goal = s.after(c0 as int, bit);
        let mut k: usize = 0;
        while k < self.tables.len()
            invariant
                s.wf(),
                goal == s.after(c0 as int, bit),
                1 <= c0 <= 255,
                path == nib_path(c0 as int),
                shelf == plane(c0 as int),
                k <= self.tables@.len() == s.tables.len(),
                self.base@ == s.base,
                self.direct@ == old(self).direct@,
                self.maps@.len() == s.maps.len(),
                forall|j: int| 0 <= j < s.tables.len() ==> #[trigger] self.off@[j] == s.off[j],
                forall|j: int|
                    0 <= j < s.tables.len() ==> (#[trigger] self.tables@[j])@ == (if j < k {
                        goal.tables[j]
                    } else {
                        s.tables[j]
                    }),
                forall|i: int|
                    0 <= i < s.maps.len() ==> #[trigger] self.maps@[i] == (if i < k * 1024 {
                        goal.maps[i]
                    } else {
                        s.maps[i]
                    }),
            decreases s.tables.len() - k,
        {
            proof {
                s.lemma_node(k as int, c0 as int);
                assert(s.tables[k as int].wf());
                assert(s.tables[k as int] == self.tables@[k as int]@);
                assert(s.off[k as int] == self.off@[k as int]);
            }
            let ghost before = self.maps@;
            let node = self.off[k] + path - 1;
            let st = self.tables[k].state(node);
            let i = k * SM_SIZE + shelf + st as usize;
            assert(i == s.entry(k as int, c0 as int));
            self.maps[i].update(bit);
            self.tables[k].set_state(node, states::state_next(st, bit));
            proof {
                assert forall|j: int| 0 <= j < s.maps.len() implies #[trigger] self.maps@[j] == (
                if j < (k + 1) * 1024 {
                    goal.maps[j]
                } else {
                    s.maps[j]
                }) by {
                    assert(self.maps@[j] == if j == i {
                        before[j].after(bit)
                    } else {
                        before[j]
                    });
                    if k * 1024 <= j < (k + 1) * 1024 {
                        assert(j / 1024 == k);
                    }
                }
            }
            k = k + 1;
        }
        proof {
            assert forall|j: int| 0 <= j < s.tables.len() implies {
                &&& #[trigger] self@.tables[j] == goal.tables[j]
                &&& self@.off[j] == goal.off[j]
                &&& self@.tables[j].wf()
                &&& 1 <= self@.off[j]
                &&& self@.off[j] + 15 <= self@.tables[j].t.len()
            } by {
                assert(self@.tables[j] == self.tables@[j]@);
                assert(self@.off[j] == self.off@[j]);
                s.lemma_node(j, c0 as int);
                assert(s.tables[j].wf());
            }
            assert(self@ =~= goal);
        }
    }
}

/// The path within the nibble and the state-map plane at partial byte `c0`.
fn position(c0: u32) -> (r: (usize, usize))
    requires
        1 <= c0 <= 255,
    ensures
        r.0 == nib_path(c0 as int),
        r.1 == plane(c0 as int),
        1 <= r.0 <= 15,
        r.1 <= 768,
{
    let path: u32 = if c0 < 16 {
        c0
    } else if c0 < 32 {
        1
    } else if c0 < 64 {
        2 + c0 % 2
    } else if c0 < 128 {
        4 + c0 % 4
    } else {
        8 + c0 % 8
    };
    (path as usize, matcher::depth_of(c0) as usize % 4 * 256)
}

} // verus!
