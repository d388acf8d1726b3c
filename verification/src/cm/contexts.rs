//! The contexts under which the bit-history models learn: byte history, words,
//! what followed a context last time, and the roster of hashes built from them.
use vstd::prelude::*;
use crate::cm::hash;
use crate::cm::hash::{PR1, PR2};
use crate::cm::markup;
use crate::cm::markup::{Markup, MarkupState};
use crate::cm::matcher::Matcher;
use crate::cm::paged::Paged;
use crate::cm::sizing;

verus! {

// ---------------------------------------------------------------------------
// Words
// ---------------------------------------------------------------------------

/// Hashes of the word being written and of the two finished before it.
#[derive(Clone, Copy)]
pub struct Words {
    pub word: u32,
    pub last: u32,
    pub prev: u32,
}

impl Words {
    /// Before any word.
    pub open spec fn start() -> Words {
        Words { word: 0, last: 0, prev: 0 }
    }

    /// After byte `b`: a letter continues the word, ignoring case; anything else
    /// finishes it.
    pub open spec fn after(self, b: u8) -> Words {
        if markup::letter(b) {
            Words {
                word: self.word.wrapping_add(((b | 0x20) + 1) as u32).wrapping_mul(PR1),
                ..self
            }
        } else if self.word != 0 {
            Words { word: 0, last: self.word, prev: self.last }
        } else {
            self
        }
    }

    /// Before any word.
    pub fn new() -> (r: Words)
        ensures
            r == Words::start(),
    {
        Words { word: 0, last: 0, prev: 0 }
    }

    /// Advance by one committed byte.
    pub fn update(&mut self, b: u8)
        ensures
            *final(self) == old(self).after(b),
    {
        if b >= 65 && b <= 90 || b >= 97 && b <= 122 {
            let lower: u8 = b | 0x20;
            self.word = self.word.wrapping_add(lower as u32 + 1).wrapping_mul(PR1);
        } else {
            if self.word != 0 {
                self.prev = self.last;
                self.last = self.word;
            }
            self.word = 0;
        }
    }
}

// ---------------------------------------------------------------------------
// History
// ---------------------------------------------------------------------------

/// Bytes of history kept.
pub const HIST: usize = 16;

/// History before any byte.
pub open spec fn no_history() -> Seq<u8> {
    Seq::new(16, |i: int| 0u8)
}

/// History, most recent byte first, after one more byte.
pub open spec fn remembered(hist: Seq<u8>, b: u8) -> Seq<u8> {
    seq![b] + hist.drop_last()
}

/// Shift one byte into the history.
pub fn remember(hist: &mut [u8; 16], b: u8)
    ensures
        final(hist)@ == remembered(old(hist)@, b),
{
    let ghost was = hist@;
    let mut i: usize = HIST - 1;
    while i > 0
        invariant
            i <= 15,
            was.len() == 16,
            forall|j: int|
                0 <= j < 16 ==> #[trigger] hist@[j] == (if j > i {
                    was[j - 1]
                } else {
                    was[j]
                }),
        decreases i,
    {
        hist[i] = hist[i - 1];
        i = i - 1;
    }
    hist[0] = b;
    assert(hist@ =~= remembered(was, b));
}

/// Coarse character class of a byte: letter, blank, digit, anything else.
pub open spec fn class_spec(b: u8) -> int {
    if markup::letter(b) {
        0
    } else if b == 32 || b == 10 || b == 9 || b == 13 {
        1
    } else if 48 <= b <= 57 {
        2
    } else {
        3
    }
}

/// Coarse character class of a byte.
pub fn char_class(b: u8) -> (r: usize)
    ensures
        r == class_spec(b),
        r <= 3,
{
    if b >= 65 && b <= 90 || b >= 97 && b <= 122 {
        0
    } else if b == 32 || b == 10 || b == 9 || b == 13 {
        1
    } else if b >= 48 && b <= 57 {
        2
    } else {
        3
    }
}

// ---------------------------------------------------------------------------
// Indirect contexts
// ---------------------------------------------------------------------------

/// The bytes that last followed the current order-2, order-3, order-4 and element
/// contexts.
#[derive(Clone, Copy)]
pub struct Followers {
    pub b2: u8,
    pub b3: u8,
    pub b4: u8,
    pub bt: u8,
}

/// For each context, the byte that followed it last time, and the slots of the
/// current contexts.
#[verifier::ext_equal]
pub struct FollowState {
    pub t2: Seq<u8>,
    pub t3: Seq<u8>,
    pub t4: Seq<u8>,
    pub tt: Seq<u8>,
    pub mask: u32,
    pub i2: int,
    pub i3: int,
    pub i4: int,
    pub it: int,
}

impl FollowState {
    /// Nothing seen, hashed tables of `2^bits` entries.
    pub open spec fn start(bits: u32) -> FollowState {
        FollowState {
            t2: Seq::new(0x1_0000, |i: int| 0u8),
            t3: Seq::new((1u32 << bits) as nat, |i: int| 0u8),
            t4: Seq::new((1u32 << bits) as nat, |i: int| 0u8),
            tt: Seq::new((1u32 << bits) as nat, |i: int| 0u8),
            mask: ((1u32 << bits) - 1) as u32,
            i2: 0,
            i3: 0,
            i4: 0,
            it: 0,
        }
    }

    /// The slots lie inside the tables.
    pub open spec fn wf(self) -> bool {
        &&& self.t2.len() == 0x1_0000
        &&& self.t3.len() == self.mask + 1
        &&& self.t4.len() == self.mask + 1
        &&& self.tt.len() == self.mask + 1
        &&& 0 <= self.i2 < self.t2.len()
        &&& 0 <= self.i3 < self.t3.len()
        &&& 0 <= self.i4 < self.t4.len()
        &&& 0 <= self.it < self.tt.len()
    }

    /// Byte `b` followed the current contexts.
    pub open spec fn recorded(self, b: u8) -> FollowState {
        FollowState {
            t2: self.t2.update(self.i2, b),
            t3: self.t3.update(self.i3, b),
            t4: self.t4.update(self.i4, b),
            tt: self.tt.update(self.it, b),
            ..self
        }
    }

    /// The slots of the contexts given by the history and the enclosing element.
    pub open spec fn resolved(self, hist: Seq<u8>, element: u32) -> FollowState {
        FollowState {
            i2: hist[1] * 256 + hist[0],
            i3: (hash::hash_of(hist.subrange(0, 3), 53) & self.mask) as int,
            i4: (hash::hash_of(hist.subrange(0, 4), 83) & self.mask) as int,
            it: (element.wrapping_mul(PR2).wrapping_add(hist[0] as u32) & self.mask) as int,
            ..self
        }
    }

    /// What followed the current contexts last time.
    pub open spec fn followers(self) -> Followers {
        Followers {
            b2: self.t2[self.i2],
            b3: self.t3[self.i3],
            b4: self.t4[self.i4],
            bt: self.tt[self.it],
        }
    }
}

/// The indirect context tables.
pub struct Indirect {
    t2: Paged<u8>,
    t3: Paged<u8>,
    t4: Paged<u8>,
    tt: Paged<u8>,
    mask: u32,
    i2: usize,
    i3: usize,
    i4: usize,
    it: usize,
}

impl View for Indirect {
    type V = FollowState;

    closed spec fn view(&self) -> FollowState {
        FollowState {
            t2: self.t2@,
            t3: self.t3@,
            t4: self.t4@,
            tt: self.tt@,
            mask: self.mask,
            i2: self.i2 as int,
            i3: self.i3 as int,
            i4: self.i4 as int,
            it: self.it as int,
        }
    }
}

impl Indirect {
    /// The tables are well formed.
    pub closed spec fn wf(self) -> bool {
        &&& self@.wf()
        &&& self.t2.wf()
        &&& self.t3.wf()
        &&& self.t4.wf()
        &&& self.tt.wf()
    }

    /// Well-formed tables have a well-formed view.
    pub proof fn lemma_wf(&self)
        requires
            self.wf(),
        ensures
            self@.wf(),
    {
    }

    /// Tables that have seen nothing.
    pub fn new(bits: u32) -> (r: Indirect)
        requires
            bits <= 22,
        ensures
            r@ == FollowState::start(bits),
            r.wf(),
    {
        assert(bits <= 22u32 ==> 1u32 <= (1u32 << bits) && (1u32 << bits) <= 0x40_0000u32)
            by (bit_vector);
        let size: u32 = 1u32 << bits;
        let r = Indirect {
            t2: Paged::new(0x1_0000, 0u8),
            t3: Paged::new(size as usize, 0u8),
            t4: Paged::new(size as usize, 0u8),
            tt: Paged::new(size as usize, 0u8),
            mask: size - 1,
            i2: 0,
            i3: 0,
            i4: 0,
            it: 0,
        };
        assert(r@ =~= FollowState::start(bits));
        r
    }

    /// Record the byte that followed the current contexts.
    pub fn record(&mut self, b: u8)
        requires
            old(self).wf(),
        ensures
            final(self)@ == old(self)@.recorded(b),
            final(self).wf(),
    {
        let ghost was = self@;
        self.t2.set(self.i2, b);
        self.t3.set(self.i3, b);
        self.t4.set(self.i4, b);
        self.tt.set(self.it, b);
        assert(self@ =~= was.recorded(b));
    }

    /// Move to the contexts given by the history and the enclosing element, and
    /// read what followed them last time.
    pub fn resolve(&mut self, hist: &[u8; 16], element: u32) -> (r: Followers)
        requires
            old(self).wf(),
        ensures
            final(self)@ == old(self)@.resolved(hist@, element),
            final(self).wf(),
            r == final(self)@.followers(),
    {
        let ghost was = self@;
        self.i2 = hist[1] as usize * 256 + hist[0] as usize;
        let h3 = hash::hash_ctx(&hist[0..3], 53);
        let h4 = hash::hash_ctx(&hist[0..4], 83);
        let ht = element.wrapping_mul(PR2).wrapping_add(hist[0] as u32);
        proof {
            hash::lemma_mask(h3, self.mask);
            hash::lemma_mask(h4, self.mask);
            hash::lemma_mask(ht, self.mask);
        }
        self.i3 = (h3 & self.mask) as usize;
        self.i4 = (h4 & self.mask) as usize;
        self.it = (ht & self.mask) as usize;
        assert(self@ =~= was.resolved(hist@, element));
        Followers {
            b2: self.t2.get(self.i2),
            b3: self.t3.get(self.i3),
            b4: self.t4.get(self.i4),
            bt: self.tt.get(self.it),
        }
    }
}

// ---------------------------------------------------------------------------
// The roster
// ---------------------------------------------------------------------------

/// The byte `back` positions before the upcoming one, or 0 before the start.
pub open spec fn behind(buf: Seq<u8>, back: int) -> u8 {
    if buf.len() >= back {
        buf[buf.len() - back]
    } else {
        0
    }
}

/// Context of the two previous samples in a lane `s` bytes wide.
pub open spec fn lane(buf: Seq<u8>, s: int) -> u32 {
    let h0 = (s as u32).wrapping_mul(PR1).wrapping_add(0x55AA_33CC);
    let h1 = (h0 ^ ((behind(buf, s) + 1) as u32)).wrapping_mul(PR1);
    let h2 = (h1 ^ ((behind(buf, 2 * s) + 1) as u32)).wrapping_mul(PR1);
    h2 ^ (h2 >> 15)
}

/// Context of the current word.
pub open spec fn word_context(w: Words) -> u32 {
    w.word.wrapping_mul(PR1) ^ 0xABCD_1234u32
}

/// Context of the last finished word and the current one.
pub open spec fn bigram_context(w: Words) -> u32 {
    w.last.wrapping_mul(PR2).wrapping_add(w.word).wrapping_mul(PR1) ^ 0x5A5A_C3C3u32
}

/// Context of the two last finished words and the current one.
pub open spec fn trigram_context(w: Words) -> u32 {
    w.prev.wrapping_mul(PR2).wrapping_add(w.last).wrapping_mul(PR1).wrapping_add(
        w.word,
    ).wrapping_mul(PR2) ^ 0x3C3C_A5A5u32
}

/// Context of the `n` most recent bytes.
pub open spec fn order(hist: Seq<u8>, n: int) -> u32 {
    hash::hash_of(hist.subrange(0, n), n as u32)
}

/// Contexts of whole bytes and words; the first five are all that turbo uses.
pub open spec fn near(h: Seq<u8>, w: Words) -> Seq<u32> {
    seq![
        order(h, 2),
        order(h, 3),
        order(h, 4),
        order(h, 5),
        word_context(w),
        order(h, 6),
        order(h, 7),
        bigram_context(w),
    ]
}

/// Skip-grams and high-nibble views, for structured binary data.
pub open spec fn sparse(h: Seq<u8>) -> Seq<u32> {
    seq![
        hash::hash_of(h.subrange(1, 2), 23),
        hash::hash_of(seq![h[0] & 0xF0, h[1] & 0xF0], 29),
        hash::hash_of(seq![h[0], h[2]], 31),
        hash::hash_of(seq![h[1], h[2]], 37),
        hash::hash_of(seq![h[0], h[3]], 41),
        hash::hash_of(h.subrange(2, 4), 43),
    ]
}

/// Fixed-width samples.
pub open spec fn lanes(buf: Seq<u8>) -> Seq<u32> {
    seq![lane(buf, 2), lane(buf, 3), lane(buf, 4), lane(buf, 8)]
}

/// What followed last time.
pub open spec fn indirect(h: Seq<u8>, f: Followers) -> Seq<u32> {
    seq![
        hash::hash_of(seq![f.b2, h[0]], 47),
        hash::hash_of(seq![f.b3, h[0], h[1]], 59),
        hash::hash_of(seq![f.b4, h[0], h[1]], 73),
    ]
}

/// High orders, and order 3 without case.
pub open spec fn far(h: Seq<u8>) -> Seq<u32> {
    seq![
        order(h, 8),
        order(h, 10),
        order(h, 12),
        order(h, 16),
        hash::hash_of(seq![h[0] | 0x20, h[1] | 0x20, h[2] | 0x20], 67),
    ]
}

/// Enclosing element, nesting, line shape and word trigram.
pub open spec fn marked(h: Seq<u8>, w: Words, f: Followers, m: MarkupState) -> Seq<u32> {
    let tag = m.element();
    let nest = sizing::min(m.nest.len() as int, 7) as u8;
    let col = sizing::min(m.col, 63) as u8;
    seq![
        hash::hash_of(seq![f.bt, h[0], (tag % 256) as u8], 89) ^ tag.wrapping_mul(PR1),
        hash::hash_of(seq![m.bracket(), nest, h[0]], 97),
        hash::hash_of(seq![col, h[0]], 101) ^ m.head,
        trigram_context(w),
    ]
}

/// The context of each bit-history model. The turbo profile runs the first five;
/// the others stay at 0 there.
pub open spec fn roster(
    turbo: bool,
    h: Seq<u8>,
    w: Words,
    buf: Seq<u8>,
    f: Followers,
    m: MarkupState,
) -> Seq<u32> {
    if turbo {
        near(h, w).take(5) + Seq::new(25, |i: int| 0u32)
    } else {
        near(h, w) + sparse(h) + lanes(buf) + indirect(h, f) + far(h) + marked(h, w, f, m)
    }
}

proof fn lemma_groups(n: Seq<u32>, a: Seq<u32>, b: Seq<u32>, c: Seq<u32>, d: Seq<u32>, e: Seq<u32>)
    requires
        n.len() > 1,
    ensures
        (n + a + b + c + d + e)[1] == n[1],
        (n.take(2) + a)[1] == n[1],
{
}

proof fn lemma_near(h: Seq<u8>, w: Words)
    ensures
        near(h, w).len() == 8,
        near(h, w)[1] == order(h, 3),
{
}

/// The number of bytes that model `m` looks back, for the models of whole bytes.
pub open spec fn reach(m: int) -> int {
    if 0 <= m <= 3 {
        m + 2
    } else if m == 5 || m == 6 {
        m + 1
    } else if m == 21 {
        8
    } else if m == 22 {
        10
    } else if m == 23 {
        12
    } else if m == 24 {
        16
    } else {
        0
    }
}

proof fn lemma_near_all(h: Seq<u8>, w: Words)
    ensures
        near(h, w).len() == 8,
        near(h, w)[0] == order(h, 2),
        near(h, w)[1] == order(h, 3),
        near(h, w)[2] == order(h, 4),
        near(h, w)[3] == order(h, 5),
        near(h, w)[5] == order(h, 6),
        near(h, w)[6] == order(h, 7),
{
}

proof fn lemma_far_all(h: Seq<u8>)
    ensures
        far(h).len() == 5,
        far(h)[0] == order(h, 8),
        far(h)[1] == order(h, 10),
        far(h)[2] == order(h, 12),
        far(h)[3] == order(h, 16),
{
}

proof fn lemma_lens(h: Seq<u8>, buf: Seq<u8>, f: Followers)
    ensures
        sparse(h).len() == 6,
        lanes(buf).len() == 4,
        indirect(h, f).len() == 3,
{
}

proof fn lemma_at(
    n: Seq<u32>,
    a: Seq<u32>,
    b: Seq<u32>,
    c: Seq<u32>,
    d: Seq<u32>,
    e: Seq<u32>,
    i: int,
)
    requires
        n.len() == 8,
        a.len() == 6,
        b.len() == 4,
        c.len() == 3,
        d.len() == 5,
    ensures
        0 <= i < 8 ==> (n + a + b + c + d + e)[i] == n[i],
        21 <= i < 26 ==> (n + a + b + c + d + e)[i] == d[i - 21],
{
}

proof fn lemma_reach(h: Seq<u8>, w: Words, buf: Seq<u8>, f: Followers, k: MarkupState, m: int)
    requires
        reach(m) > 0,
    ensures
        roster(false, h, w, buf, f, k)[m] == order(h, reach(m)),
{
    lemma_near_all(h, w);
    lemma_far_all(h);
    lemma_lens(h, buf, f);
    lemma_at(near(h, w), sparse(h), lanes(buf), indirect(h, f), far(h), marked(h, w, f, k), m);
}

/// The models of whole bytes see the last 2, 3, 4, 5, 6, 7, 8, 10, 12 and 16 bytes: each
/// tells two histories apart that differ in one of the bytes it looks back to, and takes
/// histories for the same that agree on all of these, whatever came before.
pub proof fn models_see_as_far_as_they_reach(
    g: Seq<u8>,
    h: Seq<u8>,
    w1: Words,
    w2: Words,
    b1: Seq<u8>,
    b2: Seq<u8>,
    f1: Followers,
    f2: Followers,
    k1: MarkupState,
    k2: MarkupState,
    m: int,
    i: int,
)
    requires
        g.len() == 16,
        h.len() == 16,
        reach(m) > 0,
        0 <= i < 16,
        forall|j: int| 0 <= j < reach(m) && j != i ==> #[trigger] g[j] == h[j],
        g[i] != h[i],
    ensures
        i < reach(m) ==> roster(false, g, w1, b1, f1, k1)[m] != roster(
            false,
            h,
            w2,
            b2,
            f2,
            k2,
        )[m],
        i >= reach(m) ==> roster(false, g, w1, b1, f1, k1)[m] == roster(
            false,
            h,
            w2,
            b2,
            f2,
            k2,
        )[m],
{
    let n = reach(m);
    lemma_reach(g, w1, b1, f1, k1, m);
    lemma_reach(h, w2, b2, f2, k2, m);
    let (s, t) = (g.subrange(0, n), h.subrange(0, n));
    if i < n {
        assert forall|j: int| 0 <= j < s.len() && j != i implies #[trigger] s[j] == t[j] by {
            assert(g[j] == h[j]);
        }
        hash::one_byte_makes_a_difference(s, t, n as u32, i);
    } else {
        assert(s =~= t) by {
            assert forall|j: int| 0 <= j < n implies s[j] == t[j] by {
                assert(g[j] == h[j]);
            }
        }
    }
}

/// A word is the same in either case, and anything but a letter ends it.
pub proof fn words_ignore_case(w: Words, upper: u8, lower: u8, other: u8)
    requires
        65 <= upper <= 90,
        lower == upper + 32,
        !markup::letter(other),
    ensures
        w.after(upper) == w.after(lower),
        w.after(upper).last == w.last && w.after(upper).prev == w.prev,
        w.after(other).word == 0,
        w.word != 0 ==> w.after(other).last == w.word && w.after(other).prev == w.last,
        w.word == 0 ==> w.after(other) == w,
{
    assert(65u8 <= upper && upper <= 90u8 ==> upper | 0x20 == (upper + 32) as u8 && (upper + 32) as u8
        | 0x20 == (upper + 32) as u8) by (bit_vector);
}

/// The second model has the last three bytes as its context.
pub proof fn lemma_order3(
    turbo: bool,
    h: Seq<u8>,
    w: Words,
    buf: Seq<u8>,
    f: Followers,
    m: MarkupState,
)
    ensures
        roster(turbo, h, w, buf, f, m)[1] == hash::hash_of(h.subrange(0, 3), 3),
{
    let n = near(h, w);
    lemma_near(h, w);
    if turbo {
        assert(n.take(5)[1] == n[1]);
    } else {
        lemma_groups(n, sparse(h), lanes(buf), indirect(h, f), far(h), marked(h, w, f, m));
    }
}

fn hash2(a: u8, b: u8, salt: u32) -> (r: u32)
    ensures
        r == hash::hash_of(seq![a, b], salt),
{
    let x = [a, b];
    assert(x@ =~= seq![a, b]);
    hash::hash_ctx(&x, salt)
}

fn hash3(a: u8, b: u8, c: u8, salt: u32) -> (r: u32)
    ensures
        r == hash::hash_of(seq![a, b, c], salt),
{
    let x = [a, b, c];
    assert(x@ =~= seq![a, b, c]);
    hash::hash_ctx(&x, salt)
}

fn recent(h: &[u8; 16], n: usize) -> (r: u32)
    requires
        n <= 16,
    ensures
        r == order(h@, n as int),
{
    hash::hash_ctx(&h[0..n], n as u32)
}

fn lane_of(mm: &Matcher, s: usize) -> (r: u32)
    requires
        1 <= s <= 8,
    ensures
        r == lane(mm@.buf, s as int),
{
    let b1 = mm.lookback(s);
    let b2 = mm.lookback(2 * s);
    let h0 = (s as u32).wrapping_mul(PR1).wrapping_add(0x55AA_33CC);
    let h1 = (h0 ^ (b1 as u32 + 1)).wrapping_mul(PR1);
    let h2 = (h1 ^ (b2 as u32 + 1)).wrapping_mul(PR1);
    h2 ^ (h2 >> 15)
}

fn near_of(h: &[u8; 16], w: Words) -> (r: [u32; 8])
    ensures
        r@ == near(h@, w),
{
    let r = [
        recent(h, 2),
        recent(h, 3),
        recent(h, 4),
        recent(h, 5),
        w.word.wrapping_mul(PR1) ^ 0xABCD_1234u32,
        recent(h, 6),
        recent(h, 7),
        w.last.wrapping_mul(PR2).wrapping_add(w.word).wrapping_mul(PR1) ^ 0x5A5A_C3C3u32,
    ];
    assert(r@ =~= near(h@, w));
    r
}

fn sparse_of(h: &[u8; 16]) -> (r: [u32; 6])
    ensures
        r@ == sparse(h@),
{
    let r = [
        hash::hash_ctx(&h[1..2], 23),
        hash2(h[0] & 0xF0, h[1] & 0xF0, 29),
        hash2(h[0], h[2], 31),
        hash2(h[1], h[2], 37),
        hash2(h[0], h[3], 41),
        hash::hash_ctx(&h[2..4], 43),
    ];
    assert(r@ =~= sparse(h@));
    r
}

fn lanes_of(mm: &Matcher) -> (r: [u32; 4])
    ensures
        r@ == lanes(mm@.buf),
{
    let r = [lane_of(mm, 2), lane_of(mm, 3), lane_of(mm, 4), lane_of(mm, 8)];
    assert(r@ =~= lanes(mm@.buf));
    r
}

fn indirect_of(h: &[u8; 16], f: Followers) -> (r: [u32; 3])
    ensures
        r@ == indirect(h@, f),
{
    let r = [hash2(f.b2, h[0], 47), hash3(f.b3, h[0], h[1], 59), hash3(f.b4, h[0], h[1], 73)];
    assert(r@ =~= indirect(h@, f));
    r
}

fn far_of(h: &[u8; 16]) -> (r: [u32; 5])
    ensures
        r@ == far(h@),
{
    let r = [
        recent(h, 8),
        recent(h, 10),
        recent(h, 12),
        recent(h, 16),
        hash3(h[0] | 0x20, h[1] | 0x20, h[2] | 0x20, 67),
    ];
    assert(r@ =~= far(h@));
    r
}

fn marked_of(h: &[u8; 16], w: Words, f: Followers, m: &Markup) -> (r: [u32; 4])
    requires
        m@.col >= 0,
    ensures
        r@ == marked(h@, w, f, m@),
{
    let tag = m.element();
    let depth: u8 = if m.depth() < 7 {
        m.depth() as u8
    } else {
        7
    };
    let col: u8 = if m.column() < 63 {
        m.column() as u8
    } else {
        63
    };
    let r = [
        hash3(f.bt, h[0], (tag % 256) as u8, 89) ^ tag.wrapping_mul(PR1),
        hash3(m.bracket(), depth, h[0], 97),
        hash2(col, h[0], 101) ^ m.head(),
        w.prev.wrapping_mul(PR2).wrapping_add(w.last).wrapping_mul(PR1).wrapping_add(
            w.word,
        ).wrapping_mul(PR2) ^ 0x3C3C_A5A5u32,
    ];
    assert(r@ =~= marked(h@, w, f, m@));
    r
}

/// Copy `src` into `dst` from index `at` on.
fn place(dst: &mut [u32; 30], at: usize, src: &[u32])
    requires
        at + src@.len() <= 30,
    ensures
        final(dst)@ == old(dst)@.take(at as int) + src@ + old(dst)@.skip(at + src@.len()),
{
    let ghost was = dst@;
    let mut i: usize = 0;
    while i < src.len()
        invariant
            i <= src@.len(),
            at + src@.len() <= 30,
            was.len() == 30,
            forall|j: int|
                0 <= j < 30 ==> #[trigger] dst@[j] == (if at <= j < at + i {
                    src@[j - at]
                } else {
                    was[j]
                }),
        decreases src@.len() - i,
    {
        dst[at + i] = src[i];
        i = i + 1;
    }
    assert(dst@ =~= was.take(at as int) + src@ + was.skip(at + src@.len()));
}

/// The contexts of the turbo profile.
pub fn turbo_roster(h: &[u8; 16], w: Words) -> (r: [u32; 30])
    ensures
        forall|buf: Seq<u8>, f: Followers, m: MarkupState|
            r@ == #[trigger] roster(true, h@, w, buf, f, m),
{
    let mut r = [0u32;30];
    r[0] = recent(h, 2);
    r[1] = recent(h, 3);
    r[2] = recent(h, 4);
    r[3] = recent(h, 5);
    r[4] = w.word.wrapping_mul(PR1) ^ 0xABCD_1234;
    assert(r@ =~= near(h@, w).take(5) + Seq::new(25, |i: int| 0u32));
    r
}

/// The contexts of the full profile.
pub fn full_roster(h: &[u8; 16], w: Words, mm: &Matcher, f: Followers, m: &Markup) -> (r: [u32; 30])
    requires
        m@.col >= 0,
    ensures
        r@ == roster(false, h@, w, mm@.buf, f, m@),
{
    let mut r = [0u32;30];
    place(&mut r, 0, &near_of(h, w));
    place(&mut r, 8, &sparse_of(h));
    place(&mut r, 14, &lanes_of(mm));
    place(&mut r, 18, &indirect_of(h, f));
    place(&mut r, 21, &far_of(h));
    place(&mut r, 26, &marked_of(h, w, f, m));
    assert(r@ =~= roster(false, h@, w, mm@.buf, f, m@));
    r
}

} // verus!
