//! Match model: remembers which byte followed each four-byte context and predicts that
//! it follows again.
use vstd::prelude::*;

verus! {

/// Entries of the table.
pub const HASH_SIZE: usize = 0x1_0000;

/// Bytes of history kept.
pub const WINDOW: usize = 0x10_0000;

/// Table entry of a context not seen yet.
pub const EMPTY: u64 = 0xffff_ffff_ffff_ffff;

/// Hash of four bytes, oldest first.
pub open spec fn hash4(b0: u8, b1: u8, b2: u8, b3: u8) -> int {
    let x = b0 as u64 ^ ((b1 as u64) << 3) ^ ((b2 as u64) << 7) ^ ((b3 as u64) << 13);
    (x.wrapping_mul(2654435761) % 0x1_0000) as int
}

/// State of the model.
#[verifier::ext_equal]
pub struct Memory {
    /// Bytes dropped from the front of the history.
    pub base: int,
    /// The last bytes seen.
    pub history: Seq<u8>,
    /// For each context, which byte seen followed it last.
    pub table: Seq<u64>,
}

impl Memory {
    /// Nothing seen.
    pub open spec fn start() -> Memory {
        Memory { base: 0, history: Seq::empty(), table: Seq::new(0x1_0000, |i: int| EMPTY) }
    }

    /// Slot of the last four bytes.
    pub open spec fn slot(self) -> int {
        let n = self.history.len() as int;
        hash4(self.history[n - 4], self.history[n - 3], self.history[n - 2], self.history[n - 1])
    }

    /// The byte that followed the last four bytes the last time, if it is remembered.
    pub open spec fn prediction(self) -> Option<u8> {
        let at = self.table[self.slot()];
        if self.history.len() < 4 || at == EMPTY || at < self.base || at >= self.base
            + self.history.len() {
            None
        } else {
            Some(self.history[at - self.base])
        }
    }

    /// `b` follows the last four bytes.
    pub open spec fn noted(self) -> Memory {
        if self.history.len() < 4 {
            self
        } else {
            Memory {
                table: self.table.update(
                    self.slot(),
                    (self.base + self.history.len()) as u64,
                ),
                ..self
            }
        }
    }

    /// One more byte, and the oldest dropped if there is no room.
    pub open spec fn grown(self, b: u8) -> Memory {
        let h = self.history.push(b);
        if h.len() > WINDOW {
            Memory { base: self.base + 1, history: h.drop_first(), ..self }
        } else {
            Memory { history: h, ..self }
        }
    }

    /// The model after `b`.
    pub open spec fn after(self, b: u8) -> Memory {
        self.noted().grown(b)
    }
}

/// The model after several bytes.
pub open spec fn fed(m: Memory, xs: Seq<u8>) -> Memory
    decreases xs.len(),
{
    if xs.len() == 0 {
        m
    } else {
        fed(m, xs.drop_last()).after(xs.last())
    }
}

/// None of the states on the way had its last four bytes in slot `s`.
pub open spec fn unseen_since(m: Memory, xs: Seq<u8>, s: int) -> bool {
    forall|k: int|
        0 <= k < xs.len() && (#[trigger] fed(m, xs.take(k))).history.len() >= 4 ==> fed(
            m,
            xs.take(k),
        ).slot() != s
}

proof fn lemma_fed(m: Memory, b: u8, xs: Seq<u8>)
    requires
        m.table.len() == 0x1_0000,
        m.history.len() >= 4,
        m.base >= 0,
        m.history.len() + 1 + xs.len() <= WINDOW,
        m.base + m.history.len() + xs.len() < EMPTY,
        unseen_since(m.after(b), xs, m.slot()),
    ensures
        ({
            let z = fed(m.after(b), xs);
            &&& z.table.len() == 0x1_0000
            &&& z.table[m.slot()] == m.base + m.history.len()
            &&& z.base == m.base
            &&& z.history == m.history.push(b) + xs
        }),
    decreases xs.len(),
{
    let a = m.after(b);
    if xs.len() > 0 {
        let ys = xs.drop_last();
        assert(unseen_since(a, ys, m.slot())) by {
            assert forall|k: int|
                0 <= k < ys.len() && (#[trigger] fed(a, ys.take(k))).history.len() >= 4 implies fed(
                a,
                ys.take(k),
            ).slot() != m.slot() by {
                assert(ys.take(k) =~= xs.take(k));
                assert(fed(a, xs.take(k)).history.len() >= 4);
            }
        }
        lemma_fed(m, b, ys);
        assert(xs.take(xs.len() - 1) =~= ys);
        let y = fed(a, ys);
        assert(fed(a, xs.take(xs.len() - 1)) == y);
        assert(y.slot() != m.slot());
        let z = y.after(xs.last());
        assert(z.history =~= m.history.push(b) + xs);
    } else {
        assert(m.history.push(b) + xs =~= m.history.push(b));
    }
}

/// What followed the last four bytes the last time is predicted when they come again,
/// unless another context took their place in between.
pub proof fn what_followed_is_predicted(m: Memory, b: u8, xs: Seq<u8>)
    requires
        m.table.len() == 0x1_0000,
        m.history.len() >= 4,
        m.base >= 0,
        m.history.len() + 1 + xs.len() <= WINDOW,
        m.base + m.history.len() + xs.len() < EMPTY,
        unseen_since(m.after(b), xs, m.slot()),
        ({
            let h = m.history.push(b) + xs;
            let (n, k) = (m.history.len() as int, h.len() as int);
            &&& h[k - 4] == h[n - 4]
            &&& h[k - 3] == h[n - 3]
            &&& h[k - 2] == h[n - 2]
            &&& h[k - 1] == h[n - 1]
        }),
    ensures
        fed(m.after(b), xs).prediction() == Some(b),
{
    lemma_fed(m, b, xs);
    let z = fed(m.after(b), xs);
    assert(z.slot() == m.slot());
    assert(z.history[m.history.len() as int] == b);
}

/// The match model.
pub struct MatchModel {
    base: u64,
    buf: Vec<u8>,
    start: usize,
    table: Vec<u64>,
}

impl View for MatchModel {
    type V = Memory;

    closed spec fn view(&self) -> Memory {
        Memory { base: self.base as int, history: self.buf@.skip(self.start as int), table: self.table@ }
    }
}

impl MatchModel {
    /// The history is within its bounds.
    pub closed spec fn wf(self) -> bool {
        &&& self.start <= self.buf@.len()
        &&& self.buf@.len() - self.start <= WINDOW
        &&& self.start < WINDOW
        &&& self.table@.len() == HASH_SIZE
    }

    /// A model that has seen nothing.
    pub fn new() -> (r: MatchModel)
        ensures
            r@ == Memory::start(),
            r.wf(),
    {
        let r = MatchModel {
            base: 0,
            buf: Vec::new(),
            start: 0,
            table: vec![EMPTY; HASH_SIZE],
        };
        assert(r@ =~= Memory::start());
        r
    }

    /// Slot of the last four bytes.
    fn context_hash(&self) -> (r: usize)
        requires
            self.wf(),
            self@.history.len() >= 4,
        ensures
            r == self@.slot(),
            r < HASH_SIZE,
    {
        let n = self.buf.len();
        let b0 = self.buf[n - 4] as u64;
        let b1 = self.buf[n - 3] as u64;
        let b2 = self.buf[n - 2] as u64;
        let b3 = self.buf[n - 1] as u64;
        let x: u64 = b0 ^ (b1 << 3) ^ (b2 << 7) ^ (b3 << 13);
        (x.wrapping_mul(2654435761) % 0x1_0000) as usize
    }

    /// The byte that should follow, if the context was seen before.
    pub fn predict(&self) -> (r: Option<u8>)
        requires
            self.wf(),
        ensures
            r == self@.prediction(),
    {
        let len: usize = self.buf.len() - self.start;
        if len < 4 {
            return None;
        }
        let at = self.table[self.context_hash()];
        if at == EMPTY || at < self.base {
            return None;
        }
        let off: u64 = at - self.base;
        if off >= len as u64 {
            return None;
        }
        Some(self.buf[self.start + off as usize])
    }

    /// Observe the next byte.
    pub fn update(&mut self, byte: u8)
        requires
            old(self).wf(),
            old(self)@.base + old(self)@.history.len() < EMPTY,
        ensures
            final(self)@ == old(self)@.after(byte),
            final(self).wf(),
    {
        let ghost was = self@;
        let len: usize = self.buf.len() - self.start;
        if len >= 4 {
            let slot = self.context_hash();
            self.table[slot] = self.base + len as u64;
        }
        assert(self@ =~= was.noted());
        self.buf.push(byte);
        assert(self.buf@.skip(self.start as int) =~= was.history.push(byte));
        if len + 1 > WINDOW {
            self.start = self.start + 1;
            self.base = self.base + 1;
            assert(self.buf@.skip(self.start as int) =~= was.history.push(byte).drop_first());
        }
        assert(self@ =~= was.after(byte));
        if self.start >= WINDOW {
            self.compact();
        }
    }

    /// Give up the room of dropped bytes.
    fn compact(&mut self)
        requires
            old(self).start <= old(self).buf@.len(),
            old(self).buf@.len() - old(self).start <= WINDOW,
            old(self).table@.len() == HASH_SIZE,
        ensures
            final(self)@ == old(self)@,
            final(self).wf(),
    {
        let ghost was = self@;
        let mut buf: Vec<u8> = Vec::new();
        let n: usize = self.buf.len();
        buf.extend_from_slice(&self.buf[self.start..n]);
        assert(buf@ =~= was.history);
        self.buf = buf;
        self.start = 0;
        assert(self.buf@.skip(0) =~= was.history);
        assert(self@ =~= was);
    }
}

} // verus!
