//! The decoder.
use vstd::prelude::*;
use crate::ans::encode;
use crate::ans::encode::{Coder, Item};
use crate::ans::table;
use crate::ans::table::{AnsTable, TABLE_SIZE};
use crate::bytes;

verus! {

/// The symbol that the coder's number selects.
pub open spec fn symbol(c: Coder, t: AnsTable) -> u8 {
    t.slot_sym@[c.slot()]
}

/// The coder after a symbol was taken off.
pub open spec fn taken(c: Coder, t: AnsTable) -> Coder {
    let s = symbol(c, t) as int;
    c.reduced(t.freq@[s] as int, t.cumul@[s] as int).refilled()
}

/// The coder that a stream starts from: its number is in the last 4 bytes.
pub open spec fn opened(b: Seq<u8>) -> Coder {
    Coder {
        x: bytes::field(b, b.len() - 4, 4) as int,
        stack: b.take(b.len() - 4),
    }
}

/// The symbols taken off under tables, one after the other.
pub open spec fn symbols(c: Coder, ts: Seq<AnsTable>) -> Seq<u8>
    decreases ts.len(),
{
    if ts.len() == 0 {
        Seq::empty()
    } else {
        seq![symbol(c, ts[0])] + symbols(taken(c, ts[0]), ts.drop_first())
    }
}

/// Item `i` was encoded under table `i`.
pub open spec fn under(items: Seq<Item>, ts: Seq<AnsTable>) -> bool {
    &&& items.len() == ts.len()
    &&& forall|i: int|
        #![trigger items[i]]
        #![trigger ts[i]]
        0 <= i < items.len() ==> {
            &&& ts[i].wf()
            &&& items[i].1 == ts[i].freq@[items[i].0 as int] > 0
            &&& items[i].2 == ts[i].cumul@[items[i].0 as int]
        }
}

/// Taking a symbol off gives the symbol that was encoded last, and the coder as it was
/// before.
pub proof fn decode_undoes_encode(c: Coder, t: AnsTable, s: u8)
    requires
        c.normal(),
        t.wf(),
        t.freq@[s as int] > 0,
    ensures
        ({
            let e = c.encoded(t.freq@[s as int] as int, t.cumul@[s as int] as int);
            &&& e.normal()
            &&& symbol(e, t) == s
            &&& taken(e, t) == c
        }),
{
    table::lemma_range(t, s as int);
    let (f, start) = (t.freq@[s as int] as int, t.cumul@[s as int] as int);
    encode::lemma_encoded(c, f, start);
    table::lemma_slot(t, s as int, c.encoded(f, start).slot());
}

proof fn lemma_symbols(items: Seq<Item>, ts: Seq<AnsTable>)
    requires
        under(items, ts),
    ensures
        encode::all_valid(items),
        symbols(encode::coded(items), ts) == items.map_values(|i: Item| i.0),
    decreases items.len(),
{
    assert forall|i: int| 0 <= i < items.len() implies encode::valid_item(#[trigger] items[i]) by {
        table::lemma_range(ts[i], items[i].0 as int);
    }
    if items.len() > 0 {
        let (more, tm) = (items.drop_first(), ts.drop_first());
        assert forall|i: int|
            #![trigger more[i]]
            #![trigger tm[i]]
            0 <= i < more.len() implies {
            &&& tm[i].wf()
            &&& more[i].1 == tm[i].freq@[more[i].0 as int] > 0
            &&& more[i].2 == tm[i].cumul@[more[i].0 as int]
        } by {
            assert(more[i] == items[i + 1] && tm[i] == ts[i + 1]);
        }
        lemma_symbols(more, tm);
        encode::lemma_coded(more);
        let it = items[0];
        assert(ts[0].wf());
        decode_undoes_encode(encode::coded(more), ts[0], it.0);
        assert(items.map_values(|i: Item| i.0) =~= seq![it.0] + more.map_values(|i: Item| i.0));
    } else {
        assert(items.map_values(|i: Item| i.0) =~= Seq::empty());
    }
}

/// Decoding a stream under the same tables, in the same order, gives back the symbols.
pub proof fn ans_round_trip(items: Seq<Item>, ts: Seq<AnsTable>)
    requires
        under(items, ts),
    ensures
        encode::stream(items).len() >= 4,
        symbols(opened(encode::stream(items)), ts) == items.map_values(|i: Item| i.0),
{
    lemma_symbols(items, ts);
    encode::lemma_coded(items);
    let c = encode::coded(items);
    let b = encode::stream(items);
    bytes::lemma_widths();
    bytes::le_round_trip(c.x as nat, 4);
    let k = c.stack.len() as int;
    assert(b.subrange(k, k + 4) =~= bytes::le(c.x as nat, 4));
    assert(b.take(k) =~= c.stack);
    assert(opened(b) =~= c);
}

/// Decodes symbols under changing frequency tables.
pub struct AnsDecoder {
    state: u32,
    data: Vec<u8>,
    left: usize,
    table: Box<AnsTable>,
}

impl AnsDecoder {
    /// The coder.
    pub closed spec fn coder(self) -> Coder {
        Coder { x: self.state as int, stack: self.data@.take(self.left as int) }
    }

    /// The current table.
    pub closed spec fn table(self) -> AnsTable {
        *self.table
    }

    /// The decoder is well formed.
    pub closed spec fn wf(self) -> bool {
        self.table.wf() && self.left <= self.data@.len()
    }

    /// A well-formed decoder has a well-formed table.
    pub proof fn lemma_wf(self)
        requires
            self.wf(),
        ensures
            self.table().wf(),
    {
    }

    /// A decoder at the start of a stream, which must have at least 4 bytes.
    pub fn new(compressed: &[u8], prob: &[u64; 256]) -> (r: Option<AnsDecoder>)
        requires
            table::valid_prob(prob@),
        ensures
            match r {
                Some(d) => {
                    &&& compressed@.len() >= 4
                    &&& d.wf()
                    &&& d.coder() == opened(compressed@)
                    &&& d.table().freq@ == table::normalized(prob@, TABLE_SIZE)
                },
                None => compressed@.len() < 4,
            },
    {
        let n: usize = compressed.len();
        if n < 4 {
            return None;
        }
        proof {
            bytes::lemma_widths();
        }
        let state: u32 = bytes::read_le(compressed, n - 4, 4) as u32;
        let mut data: Vec<u8> = Vec::new();
        data.extend_from_slice(compressed);
        assert(data@ =~= compressed@);
        Some(AnsDecoder { state, data, left: n - 4, table: table::build_table(prob) })
    }

    /// Change the distribution for the symbols to come.
    pub fn update_table(&mut self, prob: &[u64; 256])
        requires
            old(self).wf(),
            table::valid_prob(prob@),
        ensures
            final(self).wf(),
            final(self).coder() == old(self).coder(),
            final(self).table().freq@ == table::normalized(prob@, TABLE_SIZE),
    {
        self.table = table::build_table(prob);
    }

    /// The last byte not read yet, or 0 if there is none.
    fn read_payload_byte(&mut self) -> (b: u8)
        requires
            old(self).wf(),
        ensures
            final(self).wf(),
            final(self).state == old(self).state,
            final(self).table == old(self).table,
            ({
                let s = old(self).coder().stack;
                if s.len() == 0 {
                    b == 0 && final(self).coder().stack == s
                } else {
                    b == s.last() && final(self).coder().stack == s.drop_last()
                }
            }),
    {
        if self.left == 0 {
            return 0;
        }
        let ghost s = self.data@.take(self.left as int);
        self.left = self.left - 1;
        assert(self.data@.take(self.left as int) =~= s.drop_last());
        self.data[self.left]
    }

    /// Decode one symbol; `None`, with the coder used up, if the stream cannot be
    /// continued: the number is 0 and only zeros are left.
    pub fn decode(&mut self) -> (r: Option<u8>)
        requires
            old(self).wf(),
        ensures
            final(self).wf(),
            final(self).table() == old(self).table(),
            final(self).coder() == taken(old(self).coder(), old(self).table()),
            match r {
                Some(s) => {
                    &&& s == symbol(old(self).coder(), old(self).table())
                    &&& final(self).coder().x >= 4096
                },
                None => final(self).coder().x == 0,
            },
    {
        let ghost c = self.coder();
        let ghost t = *self.table;
        let slot: u32 = self.state % TABLE_SIZE;
        let sym = self.table.slot_sym[slot as usize];
        let f = self.table.freq[sym as usize];
        let start = self.table.cumul[sym as usize];
        proof {
            assert(t.slot_sym@[slot as int] == sym);
            table::lemma_range(t, sym as int);
            assert(f * (self.state / 4096) <= 4096 * (self.state / 4096)) by (nonlinear_arith)
                requires
                    f <= 4096,
                    self.state >= 0,
            ;
            assert(0 <= f * (self.state / 4096)) by (nonlinear_arith)
                requires
                    f >= 0,
                    self.state >= 0,
            ;
        }
        let whole: u32 = f * (self.state / TABLE_SIZE);
        self.state = whole + (slot - start);
        let ghost goal = taken(c, t);
        assert(self.coder() =~= c.reduced(f as int, start as int));
        while self.state < TABLE_SIZE
            invariant
                self.wf(),
                *self.table == t,
                goal == self.coder().refilled(),
                goal == taken(c, t),
                c == old(self).coder(),
                t == old(self).table(),
            decreases 0x10_0000 - self.state, self.coder().stack.len(),
        {
            if self.state == 0 && self.left == 0 {
                assert(self.coder().stack.len() == 0);
                return None;
            }
            let ghost before = self.coder();
            let x = self.state;
            let b = self.read_payload_byte();
            self.state = x * 256 + b as u32;
            proof {
                if before.stack.len() == 0 {
                    assert(self.coder() =~= (Coder { x: before.x * 256, stack: before.stack }));
                } else {
                    assert(self.coder() =~= (Coder {
                        x: before.x * 256 + before.stack.last(),
                        stack: before.stack.drop_last(),
                    }));
                }
            }
        }
        Some(sym)
    }
}

} // verus!
