//! Run-length model: tracks the current run of one byte.
use vstd::prelude::*;

verus! {

/// The current run.
pub struct RunModel {
    last_byte: u8,
    run_len: u32,
}

/// The byte at the end of `history` and how often it repeats there.
pub open spec fn run_at_end(history: Seq<u8>) -> (u8, nat)
    decreases history.len(),
{
    if history.len() == 0 {
        (0, 0)
    } else {
        let (b, n) = run_at_end(history.drop_last());
        if history.last() == b {
            (b, n + 1)
        } else {
            (history.last(), 1)
        }
    }
}

/// The run is what it says: the last `n` bytes are all `b`, and the byte before them is
/// not. Before the first other byte, zeros count as a run.
pub proof fn run_is_maximal(history: Seq<u8>)
    ensures
        ({
            let (b, n) = run_at_end(history);
            &&& n <= history.len()
            &&& forall|i: int| history.len() - n <= i < history.len() ==> #[trigger] history[i] == b
            &&& n < history.len() ==> history[history.len() - n - 1] != b
            &&& history.len() > 0 ==> b == history.last() && n > 0
        }),
    decreases history.len(),
{
    if history.len() > 0 {
        let h = history.drop_last();
        run_is_maximal(h);
        let (b, n) = run_at_end(h);
        if history.last() == b {
            assert forall|i: int| history.len() - (n + 1) <= i < history.len() implies #[trigger] history[i]
                == b by {
                if i < h.len() {
                    assert(h[i] == b);
                }
            }
            if n < h.len() {
                assert(history[h.len() - n - 1] == h[h.len() - n - 1]);
            }
        }
        if history.last() != b && h.len() > 0 {
            assert(h.last() == b);
        }
    }
}

impl RunModel {
    /// The byte of the run.
    pub closed spec fn byte(self) -> u8 {
        self.last_byte
    }

    /// The length of the run.
    pub closed spec fn len(self) -> nat {
        self.run_len as nat
    }

    /// The model has seen `history`.
    pub open spec fn models(self, history: Seq<u8>) -> bool {
        (self.byte(), self.len()) == run_at_end(history)
    }

    /// A model that has seen nothing.
    pub fn new() -> (r: RunModel)
        ensures
            r.models(Seq::empty()),
    {
        RunModel { last_byte: 0, run_len: 0 }
    }

    /// The byte of the run and its length; the longer the run, the likelier it goes on.
    pub fn predict(&self) -> (r: (u8, u32))
        ensures
            r.0 == self.byte(),
            r.1 == self.len(),
    {
        (self.last_byte, self.run_len)
    }

    /// Observe the next byte.
    pub fn update(&mut self, byte: u8)
        requires
            old(self).len() < u32::MAX,
        ensures
            final(self).byte() == byte,
            final(self).len() == (if byte == old(self).byte() {
                old(self).len() + 1
            } else {
                1
            }),
            forall|h: Seq<u8>| #[trigger] old(self).models(h) ==> final(self).models(h.push(byte)),
    {
        let ghost was = *self;
        if byte == self.last_byte {
            self.run_len = self.run_len + 1;
        } else {
            self.last_byte = byte;
            self.run_len = 1;
        }
        proof {
            assert forall|h: Seq<u8>| #[trigger] was.models(h) implies self.models(h.push(byte)) by {
                assert(h.push(byte).drop_last() =~= h);
            }
        }
    }
}

} // verus!
