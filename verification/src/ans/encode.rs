//! The encoder.
//!
//! The coder is last-in first-out: to decode symbols in order they are encoded in
//! reverse. The encoder therefore keeps the symbols until [`AnsEncoder::finish`].
//!
//! Layout of a stream: the bytes that the coder's state overflowed into, then the final
//! state, 4 bytes LE. The decoder reads the bytes from the back.
use vstd::prelude::*;
use crate::ans::table;
use crate::ans::table::{AnsTable, TABLE_SIZE};
use crate::bytes;

verus! {

/// A symbol with its range of slots: symbol, frequency, first slot.
pub type Item = (u8, u32, u32);

/// State of the coder: a number and the bytes it overflowed into.
#[verifier::ext_equal]
pub struct Coder {
    pub x: int,
    pub stack: Seq<u8>,
}

impl Coder {
    /// Before anything is encoded.
    pub open spec fn start() -> Coder {
        Coder { x: 4096, stack: Seq::empty() }
    }

    /// The number is in its normal range.
    pub open spec fn normal(self) -> bool {
        4096 <= self.x < 0x10_0000
    }

    /// Bytes move to the stack until a symbol of frequency `f` can be encoded.
    pub open spec fn flushed(self, f: int) -> Coder
        decreases self.x,
    {
        if f > 0 && self.x >= 256 * f {
            Coder { x: self.x / 256, stack: self.stack.push((self.x % 256) as u8) }.flushed(f)
        } else {
            self
        }
    }

    /// A symbol of frequency `f` with first slot `c` is encoded.
    pub open spec fn encoded(self, f: int, c: int) -> Coder {
        let s = self.flushed(f);
        Coder { x: s.x / f * 4096 + c + s.x % f, stack: s.stack }
    }

    /// Bytes move back from the stack until the number is in its normal range, or
    /// nothing can bring it there.
    pub open spec fn refilled(self) -> Coder
        decreases 0x10_0000 - self.x, self.stack.len(),
    {
        if self.x < 0 || self.x >= 4096 || self.x == 0 && self.stack.len() == 0 {
            self
        } else if self.stack.len() == 0 {
            Coder { x: self.x * 256, stack: self.stack }.refilled()
        } else {
            Coder {
                x: self.x * 256 + self.stack.last(),
                stack: self.stack.drop_last(),
            }.refilled()
        }
    }

    /// The slot that the number selects.
    pub open spec fn slot(self) -> int {
        self.x % 4096
    }

    /// A symbol of frequency `f` with first slot `c` is taken off, before refilling.
    pub open spec fn reduced(self, f: int, c: int) -> Coder {
        Coder { x: f * (self.x / 4096) + self.slot() - c, stack: self.stack }
    }
}

/// The coder after encoding `items`, the first one last.
pub open spec fn coded(items: Seq<Item>) -> Coder
    decreases items.len(),
{
    if items.len() == 0 {
        Coder::start()
    } else {
        coded(items.drop_first()).encoded(items[0].1 as int, items[0].2 as int)
    }
}

/// The stream of `items`.
pub open spec fn stream(items: Seq<Item>) -> Seq<u8> {
    coded(items).stack + bytes::le(coded(items).x as nat, 4)
}

/// A range of slots inside a table.
pub open spec fn valid_item(i: Item) -> bool {
    1 <= i.1 && i.1 + i.2 <= 4096
}

/// All items have valid ranges.
pub open spec fn all_valid(items: Seq<Item>) -> bool {
    forall|i: int| 0 <= i < items.len() ==> valid_item(#[trigger] items[i])
}

// ---------------------------------------------------------------------------
// Facts
// ---------------------------------------------------------------------------

/// Flushing leaves a number that can take a symbol, and refilling undoes it.
pub proof fn lemma_flushed(c: Coder, f: int)
    requires
        f >= 1,
        f <= c.x < 0x10_0000,
    ensures
        f <= c.flushed(f).x < 256 * f,
        c.flushed(f).x <= c.x,
        c.normal() ==> c.flushed(f).refilled() == c,
    decreases c.x,
{
    if c.x >= 256 * f {
        let d = Coder { x: c.x / 256, stack: c.stack.push((c.x % 256) as u8) };
        lemma_flushed_back(d, f);
        lemma_flushed(d, f);
        if c.normal() {
            lemma_refill_step(c, d);
        }
    }
}

/// Below the normal range, refilling a flushed number goes through the number itself.
proof fn lemma_flushed_back(d: Coder, f: int)
    requires
        f >= 1,
        f <= d.x < 4096,
    ensures
        d.flushed(f).refilled() == d.refilled(),
    decreases d.x,
{
    if d.x >= 256 * f {
        let e = Coder { x: d.x / 256, stack: d.stack.push((d.x % 256) as u8) };
        lemma_flushed_back(e, f);
        lemma_refill_step(d, e);
    }
}

/// One byte moved to the stack is the first to come back.
proof fn lemma_refill_step(c: Coder, d: Coder)
    requires
        256 <= c.x < 0x10_0000,
        d.x == c.x / 256,
        d.stack == c.stack.push((c.x % 256) as u8),
    ensures
        d.refilled() == c.refilled(),
{
    assert(d.stack.drop_last() =~= c.stack);
    assert(d.x * 256 + d.stack.last() == c.x);
}

/// Encoding a symbol keeps the number in its normal range, and taking the symbol off
/// again gives back the coder as it was.
pub proof fn lemma_encoded(c: Coder, f: int, start: int)
    requires
        c.normal(),
        1 <= f,
        0 <= start,
        f + start <= 4096,
    ensures
        c.encoded(f, start).normal(),
        start <= c.encoded(f, start).slot() < start + f,
        c.encoded(f, start).reduced(f, start).refilled() == c,
{
    lemma_flushed(c, f);
    let s = c.flushed(f);
    let (q, r) = (s.x / f, s.x % f);
    assert(s.x == q * f + r && 0 <= r < f && 1 <= q <= 255) by (nonlinear_arith)
        requires
            q == s.x / f,
            r == s.x % f,
            1 <= f <= s.x < 256 * f,
    ;
    let e = c.encoded(f, start);
    assert(e.x == q * 4096 + start + r);
    assert(e.x / 4096 == q && e.x % 4096 == start + r);
    assert(f * q == q * f) by (nonlinear_arith);
    assert(e.reduced(f, start) =~= s);
}

/// The coder stays in its normal range.
pub proof fn lemma_coded(items: Seq<Item>)
    requires
        all_valid(items),
    ensures
        coded(items).normal(),
    decreases items.len(),
{
    if items.len() > 0 {
        let more = items.drop_first();
        assert forall|i: int| 0 <= i < more.len() implies valid_item(#[trigger] more[i]) by {
            assert(more[i] == items[i + 1]);
        }
        lemma_coded(more);
        assert(valid_item(items[0]));
        lemma_encoded(coded(more), items[0].1 as int, items[0].2 as int);
    }
}

// ---------------------------------------------------------------------------
// The encoder
// ---------------------------------------------------------------------------

/// Encodes symbols under changing frequency tables.
pub struct AnsEncoder {
    items: Vec<Item>,
    current_table: Box<AnsTable>,
}

impl AnsEncoder {
    /// The symbols so far, each with its range at the time.
    pub closed spec fn items(self) -> Seq<Item> {
        self.items@
    }

    /// The current table.
    pub closed spec fn table(self) -> AnsTable {
        *self.current_table
    }

    /// The table is well formed and all ranges are valid.
    pub open spec fn wf(self) -> bool {
        self.table().wf() && all_valid(self.items())
    }

    /// An encoder under a probability distribution.
    pub fn new(prob: &[u64; 256]) -> (r: AnsEncoder)
        requires
            table::valid_prob(prob@),
        ensures
            r.wf(),
            r.items() == Seq::<Item>::empty(),
            r.table().freq@ == table::normalized(prob@, TABLE_SIZE),
    {
        AnsEncoder { items: Vec::new(), current_table: table::build_table(prob) }
    }

    /// Change the distribution for the symbols to come.
    pub fn update_table(&mut self, prob: &[u64; 256])
        requires
            old(self).wf(),
            table::valid_prob(prob@),
        ensures
            final(self).wf(),
            final(self).items() == old(self).items(),
            final(self).table().freq@ == table::normalized(prob@, TABLE_SIZE),
    {
        self.current_table = table::build_table(prob);
    }

    /// Add a symbol that can occur under the current distribution.
    pub fn encode(&mut self, symbol: u8)
        requires
            old(self).wf(),
            old(self).table().freq@[symbol as int] > 0,
        ensures
            final(self).wf(),
            final(self).table() == old(self).table(),
            final(self).items() == old(self).items().push(
                (
                    symbol,
                    old(self).table().freq@[symbol as int],
                    old(self).table().cumul@[symbol as int],
                ),
            ),
    {
        proof {
            table::lemma_range(*self.current_table, symbol as int);
        }
        let f = self.current_table.freq[symbol as usize];
        let c = self.current_table.cumul[symbol as usize];
        self.items.push((symbol, f, c));
    }

    /// The stream of all symbols.
    pub fn finish(self) -> (r: Vec<u8>)
        requires
            self.wf(),
        ensures
            r@ == stream(self.items()),
    {
        let ghost all = self.items@;
        let mut x: u32 = TABLE_SIZE;
        let mut out: Vec<u8> = Vec::new();
        let mut i: usize = self.items.len();
        assert(all.skip(i as int) =~= Seq::empty());
        while i > 0
            invariant
                i <= all.len(),
                all == self.items@,
                all_valid(all),
                (Coder { x: x as int, stack: out@ }) == coded(all.skip(i as int)),
                4096 <= x < 0x10_0000,
            decreases i,
        {
            i = i - 1;
            let (_, f, c) = self.items[i];
            let ghost before = Coder { x: x as int, stack: out@ };
            let ghost goal = before.flushed(f as int);
            proof {
                assert(valid_item(all[i as int]));
                lemma_encoded(before, f as int, c as int);
                lemma_flushed(before, f as int);
                assert(all.skip(i as int).drop_first() =~= all.skip(i + 1));
            }
            while x >= f * 256
                invariant
                    1 <= f <= 4096,
                    goal == (Coder { x: x as int, stack: out@ }).flushed(f as int),
                decreases x,
            {
                out.push((x % 256) as u8);
                x = x / 256;
            }
            proof {
                let s = goal;
                let (q, r) = (s.x / f as int, s.x % f as int);
                assert(0 <= r < f && 0 <= q <= 255) by (nonlinear_arith)
                    requires
                        q == s.x / f as int,
                        r == s.x % f as int,
                        1 <= f <= s.x < 256 * f,
                ;
            }
            x = x / f * TABLE_SIZE + c + x % f;
            assert((Coder { x: x as int, stack: out@ }) == before.encoded(f as int, c as int));
        }
        assert(all.skip(0) =~= all);
        bytes::push_le(&mut out, x as u64, 4);
        out
    }
}

} // verus!
