//! The match model: finds the longest earlier occurrence of the bytes just seen
//! and predicts that history repeats itself.
//!
//! Two tables remember where each 4-byte and each 8-byte suffix last ended. A
//! candidate found there is verified against the input itself, so a hash
//! collision can never be mistaken for a match.
use vstd::prelude::*;
use crate::cm::hash;
use crate::cm::hash::{PR1, PR2};
use crate::cm::sizing;

verus! {

/// Shortest suffix that can seed a match.
pub const MATCH_MIN: usize = 4;

/// Suffix length of the long anchors.
pub const MATCH_MIN_LONG: usize = 8;

/// Table entry of a suffix not seen yet.
pub const MATCH_EMPTY: u32 = 0xffff_ffff;

/// Longest match a new seed can claim.
pub const MATCH_TOP: usize = 0xffff;

/// A match at least this long switches the byte to the fast path.
pub const FAST_LEN: u32 = 128;

// ---------------------------------------------------------------------------
// Partial bytes
// ---------------------------------------------------------------------------

/// The power of two that leads the partial byte `c0`: a 1 followed by the bits
/// seen so far, so `2^(bits seen)`.
pub open spec fn lead(c0: int) -> int {
    if c0 < 2 {
        1
    } else if c0 < 4 {
        2
    } else if c0 < 8 {
        4
    } else if c0 < 16 {
        8
    } else if c0 < 32 {
        16
    } else if c0 < 64 {
        32
    } else if c0 < 128 {
        64
    } else {
        128
    }
}

/// Bits of the byte seen so far.
pub open spec fn depth(c0: int) -> int {
    if c0 < 2 {
        0
    } else if c0 < 4 {
        1
    } else if c0 < 8 {
        2
    } else if c0 < 16 {
        3
    } else if c0 < 32 {
        4
    } else if c0 < 64 {
        5
    } else if c0 < 128 {
        6
    } else {
        7
    }
}

/// The bits seen so far are the first bits of `b`.
pub open spec fn follows(c0: int, b: u8) -> bool {
    c0 == (256 + b as int) / (256int / lead(c0))
}

/// The bit of `b` that comes after the bits seen so far.
pub open spec fn upcoming(c0: int, b: u8) -> bool {
    (256 + b as int) / (128int / lead(c0)) % 2 == 1
}

/// Bits of the byte seen so far.
pub fn depth_of(c0: u32) -> (d: u32)
    requires
        1 <= c0 <= 255,
    ensures
        d == depth(c0 as int),
        d <= 7,
{
    if c0 < 16 {
        if c0 < 4 {
            if c0 < 2 {
                0
            } else {
                1
            }
        } else if c0 < 8 {
            2
        } else {
            3
        }
    } else if c0 < 64 {
        if c0 < 32 {
            4
        } else {
            5
        }
    } else if c0 < 128 {
        6
    } else {
        7
    }
}

/// The next bit that `b` predicts, or nothing where `b` is already contradicted.
pub fn foretold(c0: u32, b: u8) -> (r: Option<bool>)
    requires
        1 <= c0 <= 255,
    ensures
        r == (if follows(c0 as int, b) {
            Some(upcoming(c0 as int, b))
        } else {
            None
        }),
{
    let lead: u32 = if c0 < 16 {
        if c0 < 4 {
            if c0 < 2 {
                1
            } else {
                2
            }
        } else if c0 < 8 {
            4
        } else {
            8
        }
    } else if c0 < 64 {
        if c0 < 32 {
            16
        } else {
            32
        }
    } else if c0 < 128 {
        64
    } else {
        128
    };
    let path: u32 = 256 + b as u32;
    if c0 == path / (256 / lead) {
        Some(path / (128 / lead) % 2 == 1)
    } else {
        None
    }
}

// ---------------------------------------------------------------------------
// Suffixes
// ---------------------------------------------------------------------------

/// Bytes folded into a suffix hash.
pub open spec fn suffix_fold(h: u32, bytes: Seq<u8>) -> u32
    decreases bytes.len(),
{
    if bytes.len() == 0 {
        h
    } else {
        (suffix_fold(h, bytes.drop_last()) ^ (bytes.last() as u32)).wrapping_mul(PR1)
    }
}

/// Hash of the last `len` bytes of `buf`, salted by `len`.
pub open spec fn suffix_hash(buf: Seq<u8>, len: int) -> u32 {
    let h = suffix_fold(
        0x811C_9DC5u32 ^ (len as u32).wrapping_mul(PR2),
        buf.subrange(buf.len() - len, buf.len() as int),
    );
    h ^ (h >> 15)
}

/// Length of the longest common suffix of `a` and `b`, up to `most`.
pub open spec fn shared(a: Seq<u8>, b: Seq<u8>, most: nat) -> nat
    decreases most,
{
    if most == 0 || a.len() == 0 || b.len() == 0 || a.last() != b.last() {
        0
    } else {
        1 + shared(a.drop_last(), b.drop_last(), (most - 1) as nat)
    }
}

/// A common suffix is no longer than what it is a suffix of.
proof fn lemma_shared_bound(a: Seq<u8>, b: Seq<u8>, most: nat)
    ensures
        shared(a, b, most) <= a.len(),
        shared(a, b, most) <= most,
    decreases most,
{
    if most == 0 || a.len() == 0 || b.len() == 0 || a.last() != b.last() {
    } else {
        lemma_shared_bound(a.drop_last(), b.drop_last(), (most - 1) as nat);
    }
}

/// Common suffixes really are common.
pub proof fn lemma_shared_equal(a: Seq<u8>, b: Seq<u8>, most: nat)
    ensures
        shared(a, b, most) <= a.len(),
        shared(a, b, most) <= b.len(),
        a.skip(a.len() - shared(a, b, most)) == b.skip(b.len() - shared(a, b, most)),
    decreases most,
{
    if most == 0 || a.len() == 0 || b.len() == 0 || a.last() != b.last() {
        assert(a.skip(a.len() as int) =~= b.skip(b.len() as int));
    } else {
        let k = shared(a.drop_last(), b.drop_last(), (most - 1) as nat);
        lemma_shared_equal(a.drop_last(), b.drop_last(), (most - 1) as nat);
        let x = a.drop_last().skip(a.len() - 1 - k);
        let y = b.drop_last().skip(b.len() - 1 - k);
        assert(a.skip(a.len() - 1 - k) =~= x.push(a.last()));
        assert(b.skip(b.len() - 1 - k) =~= y.push(b.last()));
    }
}

// ---------------------------------------------------------------------------
// The model
// ---------------------------------------------------------------------------

/// State of the match model.
#[verifier::ext_equal]
pub struct MatchState {
    /// Bytes committed so far.
    pub buf: Seq<u8>,
    /// Where each 4-byte suffix last ended.
    pub short: Seq<u32>,
    /// Where each 8-byte suffix last ended.
    pub long: Seq<u32>,
    pub mask: u32,
    /// Index of the byte the match predicts.
    pub ptr: int,
    /// Length of the match, 0 if there is none.
    pub len: int,
}

impl MatchState {
    /// Nothing seen, tables of `2^bits` entries.
    pub open spec fn start(bits: u32) -> MatchState {
        MatchState {
            buf: Seq::empty(),
            short: Seq::new((1u32 << bits) as nat, |i: int| MATCH_EMPTY),
            long: Seq::new((1u32 << bits) as nat, |i: int| MATCH_EMPTY),
            mask: ((1u32 << bits) - 1) as u32,
            ptr: 0,
            len: 0,
        }
    }

    /// A match ends inside the bytes seen and is no longer than what precedes it.
    pub open spec fn wf(self) -> bool {
        &&& self.short.len() == self.mask + 1
        &&& self.long.len() == self.mask + 1
        &&& 0 <= self.len <= self.ptr <= self.buf.len()
        &&& self.len > 0 ==> self.ptr < self.buf.len()
    }

    /// The byte the match predicts.
    pub open spec fn byte(self) -> Option<u8> {
        if self.len > 0 && self.ptr < self.buf.len() {
            Some(self.buf[self.ptr])
        } else {
            None
        }
    }

    /// The next byte is coded on the fast path.
    pub open spec fn fast(self) -> bool {
        self.len >= FAST_LEN && self.byte() is Some
    }

    /// Stretched confidence in the predicted bit.
    pub open spec fn confidence(self) -> int {
        sizing::min(400 + sizing::min(self.len, 28) * 58, 2000)
    }

    /// Stretched prediction for the next bit; 0, no opinion, without a live match.
    pub open spec fn opinion(self, c0: int) -> int {
        match self.byte() {
            None => 0,
            Some(b) => if !follows(c0, b) {
                0
            } else if upcoming(c0, b) {
                self.confidence()
            } else {
                -self.confidence()
            },
        }
    }

    /// Slot of the last `len` bytes in the tables.
    pub open spec fn slot(self, len: int) -> int {
        (suffix_hash(self.buf, len) & self.mask) as int
    }

    /// Match length bookkeeping: the match goes on if it foretold `b`.
    pub open spec fn extended(self, b: u8) -> MatchState {
        if self.len > 0 && self.byte() == Some(b) {
            MatchState { len: self.len + 1, ptr: self.ptr + 1, buf: self.buf.push(b), ..self }
        } else {
            MatchState { len: 0, buf: self.buf.push(b), ..self }
        }
    }

    /// The better of the match `best`, an end position and a length, and the one
    /// that ends at `cand`.
    pub open spec fn better(self, best: (int, int), cand: u32) -> (int, int) {
        if cand == MATCH_EMPTY || cand >= self.buf.len() || cand as int == best.0 {
            best
        } else {
            let l = shared(self.buf.take(cand as int), self.buf, MATCH_TOP as nat) as int;
            if l > best.1 {
                (cand as int, l)
            } else {
                best
            }
        }
    }

    /// Table entry that anchors the long suffix.
    pub open spec fn long_anchor(self) -> u32 {
        if self.buf.len() >= MATCH_MIN_LONG {
            self.long[self.slot(8)]
        } else {
            MATCH_EMPTY
        }
    }

    /// The longest verified match among the anchors of the current suffixes.
    pub open spec fn best(self) -> (int, int) {
        self.better(self.better((0, 0), self.long_anchor()), self.short[self.slot(4)])
    }

    /// A new match is seeded where none goes on.
    pub open spec fn seeded(self) -> MatchState {
        if self.buf.len() >= MATCH_MIN && self.len == 0 && self.best().1 >= MATCH_MIN {
            MatchState { ptr: self.best().0, len: self.best().1, ..self }
        } else {
            self
        }
    }

    /// The tables remember the current suffixes.
    pub open spec fn noted(self) -> MatchState {
        let pos = self.buf.len() as u32;
        MatchState {
            short: if self.buf.len() >= MATCH_MIN {
                self.short.update(self.slot(4), pos)
            } else {
                self.short
            },
            long: if self.buf.len() >= MATCH_MIN_LONG {
                self.long.update(self.slot(8), pos)
            } else {
                self.long
            },
            ..self
        }
    }

    /// The model after committing byte `b`.
    pub open spec fn after(self, b: u8) -> MatchState {
        self.extended(b).seeded().noted()
    }

    /// What a committed byte leaves behind is well formed.
    pub proof fn lemma_after(self, b: u8)
        requires
            self.wf(),
        ensures
            self.extended(b).wf(),
            self.extended(b).seeded().wf(),
            self.after(b).wf(),
            self.after(b).buf == self.buf.push(b),
    {
        let e = self.extended(b);
        let x = e.better((0, 0), e.long_anchor());
        if e.long_anchor() < e.buf.len() {
            lemma_shared_bound(e.buf.take(e.long_anchor() as int), e.buf, MATCH_TOP as nat);
        }
        let s = e.short[e.slot(4)];
        if s < e.buf.len() {
            lemma_shared_bound(e.buf.take(s as int), e.buf, MATCH_TOP as nat);
        }
        assert(e.best().1 <= e.best().0);
        hash::lemma_mask(suffix_hash(e.buf, 4), e.mask);
        hash::lemma_mask(suffix_hash(e.buf, 8), e.mask);
    }
}

/// The match is real: the bytes before the predicted one are those just seen.
pub open spec fn genuine(s: MatchState) -> bool {
    s.len > 0 ==> s.buf.subrange(s.ptr - s.len, s.ptr) == s.buf.skip(s.buf.len() - s.len)
}

/// A match that comes true grows; one that fails is dropped, or replaced by one that is
/// real. So whatever bytes come, a live match is real.
pub proof fn matches_stay_real(s: MatchState, b: u8)
    requires
        s.wf(),
        genuine(s),
    ensures
        genuine(s.after(b)),
        s.len > 0 && s.byte() == Some(b) ==> s.after(b).len == s.len + 1 && s.after(b).ptr == s.ptr
            + 1,
        s.after(b).buf == s.buf.push(b),
{
    s.lemma_after(b);
    let e = s.extended(b);
    let z = s.after(b);
    if s.len > 0 && s.byte() == Some(b) {
        assert(z.buf.subrange(z.ptr - z.len, z.ptr) =~= s.buf.subrange(s.ptr - s.len, s.ptr).push(
            b,
        ));
        assert(z.buf.skip(z.buf.len() - z.len) =~= s.buf.skip(s.buf.len() - s.len).push(b));
    } else if e.seeded().len > 0 {
        seed_is_a_repeat(e);
    }
}

proof fn lemma_shared_least(a: Seq<u8>, b: Seq<u8>, most: nat, k: nat)
    requires
        k <= most,
        k <= a.len(),
        k <= b.len(),
        forall|i: int| 1 <= i <= k ==> a[a.len() - i] == #[trigger] b[b.len() - i],
    ensures
        shared(a, b, most) >= k,
    decreases k,
{
    if k > 0 {
        assert(a[a.len() - 1] == b[b.len() - 1]);
        let (x, y) = (a.drop_last(), b.drop_last());
        assert forall|i: int| 1 <= i <= k - 1 implies x[x.len() - i] == #[trigger] y[y.len()
            - i] by {
            assert(a[a.len() - (i + 1)] == b[b.len() - (i + 1)]);
        }
        lemma_shared_least(x, y, (most - 1) as nat, (k - 1) as nat);
    }
}

/// A repeat is noticed: where no match is live and the table knows where the last four
/// bytes stood before, a match begins there.
pub proof fn repeats_are_noticed(s: MatchState)
    requires
        s.wf(),
        s.len == 0,
        s.buf.len() >= 4,
        4 <= s.short[s.slot(4)] < s.buf.len(),
        s.short[s.slot(4)] != MATCH_EMPTY,
        ({
            let c = s.short[s.slot(4)] as int;
            forall|i: int| 1 <= i <= 4 ==> s.buf[c - i] == #[trigger] s.buf[s.buf.len() - i]
        }),
    ensures
        s.seeded().len >= 4,
        s.seeded().byte() is Some,
{
    let c = s.short[s.slot(4)] as int;
    let a = s.buf.take(c);
    assert forall|i: int| 1 <= i <= 4 implies a[a.len() - i] == #[trigger] s.buf[s.buf.len()
        - i] by {}
    lemma_shared_least(a, s.buf, MATCH_TOP as nat, 4);
    let first = s.better((0, 0), s.long_anchor());
    if s.long_anchor() < s.buf.len() {
        lemma_shared_bound(s.buf.take(s.long_anchor() as int), s.buf, MATCH_TOP as nat);
    }
    lemma_shared_bound(a, s.buf, MATCH_TOP as nat);
    assert(s.best().1 >= 4);
    assert(0 <= s.best().0 < s.buf.len());
}

/// A live match votes for the bit it foretells, the more firmly the longer it is, and
/// holds its tongue once it is contradicted.
pub proof fn matches_vote_for_what_they_foretell(s: MatchState, t: MatchState, c0: int, b: u8)
    requires
        s.byte() == Some(b),
        t.byte() == Some(b),
        0 < s.len <= t.len,
    ensures
        !follows(c0, b) ==> s.opinion(c0) == 0,
        follows(c0, b) && upcoming(c0, b) ==> 400 <= s.opinion(c0) <= t.opinion(c0) <= 2000,
        follows(c0, b) && !upcoming(c0, b) ==> -400 >= s.opinion(c0) >= t.opinion(c0) >= -2000,
        s.len < t.len && t.len <= 27 && follows(c0, b) ==> s.opinion(c0) != t.opinion(c0),
{
}

/// A seeded match is real: the bytes before the predicted one are those just seen.
pub proof fn seed_is_a_repeat(s: MatchState)
    requires
        s.wf(),
        s.len == 0,
        s.seeded().len > 0,
    ensures
        s.seeded().len >= MATCH_MIN,
        s.seeded().ptr < s.buf.len(),
        s.buf.subrange(s.seeded().ptr - s.seeded().len, s.seeded().ptr) == s.buf.skip(
            s.buf.len() - s.seeded().len,
        ),
{
    let (p, l) = s.best();
    let a = s.buf.take(p);
    lemma_shared_equal(a, s.buf, MATCH_TOP as nat);
    assert(a.skip(p - l) =~= s.buf.subrange(p - l, p));
}

/// The match model.
pub struct Matcher {
    buf: Vec<u8>,
    short: Vec<u32>,
    long: Vec<u32>,
    mask: u32,
    ptr: usize,
    len: u32,
}

impl View for Matcher {
    type V = MatchState;

    closed spec fn view(&self) -> MatchState {
        MatchState {
            buf: self.buf@,
            short: self.short@,
            long: self.long@,
            mask: self.mask,
            ptr: self.ptr as int,
            len: self.len as int,
        }
    }
}

impl Matcher {
    /// A model that has seen nothing, with tables of `2^bits` entries.
    pub fn new(bits: u32) -> (r: Matcher)
        requires
            bits <= 26,
        ensures
            r@ == MatchState::start(bits),
            r@.wf(),
    {
        assert(bits <= 26u32 ==> 1u32 <= (1u32 << bits) && (1u32 << bits) <= 0x400_0000u32)
            by (bit_vector);
        let size: u32 = 1u32 << bits;
        let r = Matcher {
            buf: Vec::new(),
            short: vec![MATCH_EMPTY; size as usize],
            long: vec![MATCH_EMPTY; size as usize],
            mask: size - 1,
            ptr: 0,
            len: 0,
        };
        assert(r@ =~= MatchState::start(bits));
        r
    }

    /// Length of the live match, 0 if there is none.
    pub fn len(&self) -> (r: u32)
        ensures
            r == self@.len,
    {
        self.len
    }

    /// The byte the match predicts.
    pub fn byte(&self) -> (r: Option<u8>)
        ensures
            r == self@.byte(),
    {
        if self.len > 0 && self.ptr < self.buf.len() {
            Some(self.buf[self.ptr])
        } else {
            None
        }
    }

    /// Whether the next byte is coded on the fast path.
    pub fn fast(&self) -> (r: bool)
        ensures
            r == self@.fast(),
    {
        self.len >= FAST_LEN && self.byte().is_some()
    }

    /// Stretched prediction for the bit after the partial byte `c0`.
    pub fn match_prediction(&self, c0: u32) -> (r: i32)
        requires
            1 <= c0 <= 255,
        ensures
            r == self@.opinion(c0 as int),
            -2000 <= r <= 2000,
    {
        match self.byte() {
            None => 0,
            Some(b) => {
                let l: i32 = if self.len < 28 {
                    self.len as i32
                } else {
                    28
                };
                let conf: i32 = if 400 + l * 58 < 2000 {
                    400 + l * 58
                } else {
                    2000
                };
                match foretold(c0, b) {
                    None => 0,
                    Some(bit) => if bit {
                        conf
                    } else {
                        -conf
                    },
                }
            },
        }
    }

    /// The byte `back` positions before the upcoming one, or 0 before the start.
    pub fn lookback(&self, back: usize) -> (r: u8)
        requires
            back >= 1,
        ensures
            r == (if self@.buf.len() >= back {
                self@.buf[self@.buf.len() - back]
            } else {
                0
            }),
    {
        let n = self.buf.len();
        if n >= back {
            self.buf[n - back]
        } else {
            0
        }
    }

    /// Bytes committed so far.
    pub fn seen(&self) -> (r: usize)
        ensures
            r == self@.buf.len(),
    {
        self.buf.len()
    }

    /// Slot of the last `len` committed bytes in the tables.
    fn suffix_slot(&self, len: usize) -> (r: usize)
        requires
            len <= self@.buf.len(),
            self@.wf(),
        ensures
            r == self@.slot(len as int),
            r < self@.short.len(),
    {
        let n = self.buf.len();
        let mut h: u32 = 0x811C_9DC5u32 ^ (len as u32).wrapping_mul(PR2);
        let ghost h0 = h;
        let ghost tail = self.buf@.subrange(n - len, n as int);
        let mut i: usize = 0;
        assert(tail.take(0) =~= Seq::empty());
        while i < len
            invariant
                i <= len <= n == self.buf@.len(),
                tail == self.buf@.subrange(n - len, n as int),
                h == suffix_fold(h0, tail.take(i as int)),
            decreases len - i,
        {
            h = (h ^ (self.buf[n - len + i] as u32)).wrapping_mul(PR1);
            assert(tail.take(i + 1).drop_last() =~= tail.take(i as int));
            i = i + 1;
        }
        assert(tail.take(len as int) =~= tail);
        h = h ^ (h >> 15);
        proof {
            hash::lemma_mask(h, self.mask);
        }
        (h & self.mask) as usize
    }

    /// Length of the match that ends at `c`.
    fn verified(&self, c: usize) -> (r: usize)
        requires
            c < self@.buf.len(),
        ensures
            r == shared(self@.buf.take(c as int), self@.buf, MATCH_TOP as nat),
            r <= c,
            r <= MATCH_TOP,
    {
        let pos = self.buf.len();
        let ghost b = self.buf@;
        let mut l: usize = 0;
        assert(b.take(pos as int) =~= b);
        while l < c && l < MATCH_TOP && self.buf[c - 1 - l] == self.buf[pos - 1 - l]
            invariant
                l <= c < pos == b.len(),
                l <= MATCH_TOP,
                b == self.buf@,
                shared(b.take(c as int), b, MATCH_TOP as nat) == l + shared(
                    b.take(c - l),
                    b.take(pos - l),
                    (MATCH_TOP - l) as nat,
                ),
            ensures
                l <= c,
                l <= MATCH_TOP,
                shared(b.take(c as int), b, MATCH_TOP as nat) == l,
            decreases c - l,
        {
            assert(b.take(c - l).drop_last() =~= b.take(c - (l + 1)));
            assert(b.take(pos - l).drop_last() =~= b.take(pos - (l + 1)));
            l = l + 1;
        }
        l
    }

    /// The better of a match and the one that ends at `cand`.
    fn better(&self, best: (usize, usize), cand: u32) -> (r: (usize, usize))
        requires
            best.1 <= MATCH_TOP,
        ensures
            (r.0 as int, r.1 as int) == self@.better((best.0 as int, best.1 as int), cand),
            r.1 <= MATCH_TOP,
    {
        if cand == MATCH_EMPTY || cand as usize >= self.buf.len() || cand as usize == best.0 {
            best
        } else {
            let l = self.verified(cand as usize);
            if l > best.1 {
                (cand as usize, l)
            } else {
                best
            }
        }
    }

    /// Commit a byte: extend or drop the match, look for a new one and remember
    /// the suffixes that end here.
    pub fn commit(&mut self, b: u8)
        requires
            old(self)@.wf(),
            old(self)@.buf.len() < u32::MAX,
        ensures
            final(self)@ == old(self)@.after(b),
            final(self)@.wf(),
    {
        let ghost was = self@;
        proof {
            was.lemma_after(b);
        }
        if self.len > 0 && self.byte() == Some(b) {
            self.len = self.len + 1;
            self.ptr = self.ptr + 1;
        } else {
            self.len = 0;
        }
        self.buf.push(b);
        let ghost ext = was.extended(b);
        assert(self@ =~= ext);
        let pos = self.buf.len();
        let mut cand_long: u32 = MATCH_EMPTY;
        let mut slot_long: usize = 0;
        if pos >= MATCH_MIN_LONG {
            slot_long = self.suffix_slot(MATCH_MIN_LONG);
            cand_long = self.long[slot_long];
        }
        if pos >= MATCH_MIN {
            let slot = self.suffix_slot(MATCH_MIN);
            let cand_short = self.short[slot];
            if self.len == 0 {
                let first = self.better((0, 0), cand_long);
                let best = self.better(first, cand_short);
                if best.1 >= MATCH_MIN {
                    self.ptr = best.0;
                    self.len = best.1 as u32;
                }
            }
            assert(self@ =~= ext.seeded());
            self.short[slot] = pos as u32;
            if pos >= MATCH_MIN_LONG {
                self.long[slot_long] = pos as u32;
            }
        }
        assert(self@ =~= was.after(b));
    }
}

} // verus!
