//! Frequency tables of the coder.
//!
//! A table gives every symbol a range of slots out of 4096, as long as its frequency.
//! Probabilities are given in units of `2^-48`.
use vstd::prelude::*;

verus! {

/// Slots of a table.
pub const TABLE_SIZE: u32 = 4096;

/// Probability 1.
pub const ONE: u64 = 0x1_0000_0000_0000;

// ---------------------------------------------------------------------------
// Normalization
// ---------------------------------------------------------------------------

/// Sum of the first `k` frequencies.
pub open spec fn total(f: Seq<u32>, k: int) -> int
    decreases k,
{
    if k <= 0 {
        0
    } else {
        total(f, k - 1) + f[k - 1]
    }
}

/// Slots of a symbol of probability `p` out of `m`: rounded down, but at least one if
/// it can occur at all.
pub open spec fn share(p: u64, m: u32) -> u32 {
    let whole = p * m / (ONE as int);
    (if whole == 0 && p > 0 { 1 } else { whole }) as u32
}

/// What rounding down takes away.
pub open spec fn remainder(p: u64, m: u32) -> int {
    p * m % (ONE as int)
}

/// The shares of all symbols.
pub open spec fn shares(prob: Seq<u64>, m: u32) -> Seq<u32> {
    Seq::new(prob.len(), |i: int| share(prob[i], m))
}

/// How many of the symbols below `k` go before symbol `i`.
pub open spec fn place(first: spec_fn(int, int) -> bool, i: int, k: int) -> int
    decreases k,
{
    if k <= 0 {
        0
    } else {
        place(first, i, k - 1) + if first(k - 1, i) { 1int } else { 0int }
    }
}

/// Symbols in the order of their remainders, the greatest first.
pub open spec fn by_remainder(prob: Seq<u64>, m: u32) -> spec_fn(int, int) -> bool {
    |j: int, i: int|
        {
            let (a, b) = (remainder(prob[j], m), remainder(prob[i], m));
            a > b || a == b && j < i
        }
}

/// Symbols that have more than one slot, in the order of their slots, the fewest first.
pub open spec fn by_slots(f: Seq<u32>) -> spec_fn(int, int) -> bool {
    |j: int, i: int| f[j] > 1 && (f[j] < f[i] || f[j] == f[i] && j < i)
}

/// One slot more for each of the `left` greatest remainders.
pub open spec fn topped_up(prob: Seq<u64>, m: u32, f: Seq<u32>, left: int) -> Seq<u32> {
    Seq::new(
        f.len(),
        |i: int|
            (f[i] + if place(by_remainder(prob, m), i, 256) < left { 1int } else { 0int }) as u32,
    )
}

/// `over` slots taken back, one each, from the symbols with the fewest.
pub open spec fn trimmed(f: Seq<u32>, over: int) -> Seq<u32> {
    Seq::new(
        f.len(),
        |i: int|
            (f[i] - if f[i] > 1 && place(by_slots(f), i, 256) < over { 1int } else { 0int }) as u32,
    )
}

/// Some symbol has a slot to spare.
pub open spec fn can_spare(f: Seq<u32>) -> bool {
    exists|i: int| 0 <= i < 256 && #[trigger] f[i] > 1
}

/// Slots handed out, round after round, until there are `m`.
pub open spec fn filled(prob: Seq<u64>, m: u32, f: Seq<u32>) -> Seq<u32>
    decreases m - total(f, 256),
{
    if f.len() == 256 && total(f, 256) < m {
        proof {
            lemma_topped_up(prob, m, f);
        }
        filled(prob, m, topped_up(prob, m, f, m - total(f, 256)))
    } else {
        f
    }
}

/// Slots taken back, round after round, until there are no more than `m`.
pub open spec fn pared(m: u32, f: Seq<u32>) -> Seq<u32>
    decreases total(f, 256) - m,
{
    if f.len() == 256 && total(f, 256) > m && can_spare(f) {
        proof {
            lemma_trimmed(m, f);
        }
        pared(m, trimmed(f, total(f, 256) - m))
    } else {
        f
    }
}

/// Probabilities turned into frequencies that sum to `m`.
pub open spec fn normalized(prob: Seq<u64>, m: u32) -> Seq<u32> {
    pared(m, filled(prob, m, shares(prob, m)))
}

// How many symbols a round reaches.

spec fn picked(sel: spec_fn(int) -> bool, k: int) -> int
    decreases k,
{
    if k <= 0 {
        0
    } else {
        picked(sel, k - 1) + if sel(k - 1) { 1int } else { 0int }
    }
}

/// `first` is a strict order of the symbols, total on `member`.
spec fn is_order(first: spec_fn(int, int) -> bool, member: spec_fn(int) -> bool) -> bool {
    &&& forall|a: int, b: int, c: int|
        #[trigger] first(a, b) && #[trigger] first(b, c) ==> first(a, c)
    &&& forall|a: int| !#[trigger] first(a, a)
    &&& forall|a: int, b: int| #[trigger] first(a, b) ==> member(a)
    &&& forall|a: int, b: int|
        a != b && #[trigger] member(a) && #[trigger] member(b) ==> first(a, b) || first(b, a)
}

proof fn lemma_place_bound(first: spec_fn(int, int) -> bool, i: int, k: int)
    requires
        k >= 0,
    ensures
        0 <= place(first, i, k) <= k,
    decreases k,
{
    if k > 0 {
        lemma_place_bound(first, i, k - 1);
    }
}

proof fn lemma_place_grows(
    first: spec_fn(int, int) -> bool,
    member: spec_fn(int) -> bool,
    i: int,
    j: int,
    k: int,
)
    requires
        is_order(first, member),
        first(i, j),
        0 <= i,
    ensures
        place(first, i, k) + (if i < k { 1int } else { 0int }) <= place(first, j, k),
    decreases k,
{
    if k > 0 {
        lemma_place_grows(first, member, i, j, k - 1);
        assert(first(k - 1, i) ==> first(k - 1, j));
        assert(!first(i, i));
    }
}

proof fn lemma_picked_none(sel: spec_fn(int) -> bool, k: int)
    requires
        forall|i: int| 0 <= i < k ==> !#[trigger] sel(i),
    ensures
        picked(sel, k) == 0,
    decreases k,
{
    if k > 0 {
        lemma_picked_none(sel, k - 1);
    }
}

proof fn lemma_picked_some(sel: spec_fn(int) -> bool, i: int, k: int)
    requires
        0 <= i < k,
        sel(i),
    ensures
        picked(sel, k) >= 1,
    decreases k,
{
    lemma_picked_bound(sel, k - 1);
    if i < k - 1 {
        lemma_picked_some(sel, i, k - 1);
    }
}

proof fn lemma_picked_bound(sel: spec_fn(int) -> bool, k: int)
    requires
        k >= 0,
    ensures
        0 <= picked(sel, k) <= k,
    decreases k,
{
    if k > 0 {
        lemma_picked_bound(sel, k - 1);
    }
}

/// No two symbols have the same place.
proof fn lemma_one_per_place(
    first: spec_fn(int, int) -> bool,
    member: spec_fn(int) -> bool,
    at: int,
    k: int,
)
    requires
        is_order(first, member),
        0 <= k <= 256,
    ensures
        picked(|i: int| member(i) && place(first, i, 256) == at, k) <= 1,
    decreases k,
{
    let sel = |i: int| member(i) && place(first, i, 256) == at;
    if k > 0 {
        lemma_one_per_place(first, member, at, k - 1);
        if sel(k - 1) {
            assert forall|i: int| 0 <= i < k - 1 implies !#[trigger] sel(i) by {
                if sel(i) {
                    if first(i, k - 1) {
                        lemma_place_grows(first, member, i, k - 1, 256);
                    } else {
                        assert(member(i) && member(k - 1));
                        lemma_place_grows(first, member, k - 1, i, 256);
                    }
                }
            }
            lemma_picked_none(sel, k - 1);
        }
    }
}

proof fn lemma_picked_split(
    first: spec_fn(int, int) -> bool,
    member: spec_fn(int) -> bool,
    limit: int,
    k: int,
)
    ensures
        picked(|i: int| member(i) && place(first, i, 256) < limit + 1, k) == picked(
            |i: int| member(i) && place(first, i, 256) < limit,
            k,
        ) + picked(|i: int| member(i) && place(first, i, 256) == limit, k),
    decreases k,
{
    if k > 0 {
        lemma_picked_split(first, member, limit, k - 1);
    }
}

/// A round with `limit` slots reaches at most `limit` symbols.
proof fn lemma_round_limit(
    first: spec_fn(int, int) -> bool,
    member: spec_fn(int) -> bool,
    limit: int,
)
    requires
        is_order(first, member),
        limit >= 0,
    ensures
        picked(|i: int| member(i) && place(first, i, 256) < limit, 256) <= limit,
    decreases limit,
{
    if limit == 0 {
        let sel = |i: int| member(i) && place(first, i, 256) < limit;
        assert forall|i: int| 0 <= i < 256 implies !#[trigger] sel(i) by {
            lemma_place_bound(first, i, 256);
        }
        lemma_picked_none(sel, 256);
    } else {
        lemma_round_limit(first, member, limit - 1);
        lemma_picked_split(first, member, limit - 1, 256);
        lemma_one_per_place(first, member, limit - 1, 256);
        assert(limit - 1 + 1 == limit);
    }
}

/// Some member goes before all others.
proof fn lemma_front(
    first: spec_fn(int, int) -> bool,
    member: spec_fn(int) -> bool,
    x: int,
    k: int,
) -> (i: int)
    requires
        is_order(first, member),
        0 <= x < k,
        member(x),
    ensures
        0 <= i < k,
        member(i),
        forall|j: int| 0 <= j < k ==> !#[trigger] first(j, i),
    decreases k,
{
    if k == 1 {
        x
    } else if x < k - 1 {
        let i = lemma_front(first, member, x, k - 1);
        if first(k - 1, i) {
            k - 1
        } else {
            i
        }
    } else if exists|y: int| 0 <= y < k - 1 && #[trigger] member(y) {
        let y = choose|y: int| 0 <= y < k - 1 && #[trigger] member(y);
        let i = lemma_front(first, member, y, k - 1);
        if first(k - 1, i) {
            k - 1
        } else {
            i
        }
    } else {
        x
    }
}

proof fn lemma_place_front(first: spec_fn(int, int) -> bool, i: int, k: int)
    requires
        forall|j: int| 0 <= j < k ==> !#[trigger] first(j, i),
    ensures
        place(first, i, k) == 0,
    decreases k,
{
    if k > 0 {
        lemma_place_front(first, i, k - 1);
    }
}

/// A round reaches someone, if there is anyone to reach.
proof fn lemma_round_progress(
    first: spec_fn(int, int) -> bool,
    member: spec_fn(int) -> bool,
    limit: int,
    x: int,
)
    requires
        is_order(first, member),
        limit >= 1,
        0 <= x < 256,
        member(x),
    ensures
        picked(|i: int| member(i) && place(first, i, 256) < limit, 256) >= 1,
{
    let i = lemma_front(first, member, x, 256);
    lemma_place_front(first, i, 256);
    lemma_picked_some(|i: int| member(i) && place(first, i, 256) < limit, i, 256);
}

proof fn lemma_total_more(f: Seq<u32>, g: Seq<u32>, sel: spec_fn(int) -> bool, k: int)
    requires
        forall|i: int|
            0 <= i < k ==> #[trigger] g[i] == f[i] + (if sel(i) { 1int } else { 0int }),
    ensures
        total(g, k) == total(f, k) + picked(sel, k),
    decreases k,
{
    if k > 0 {
        lemma_total_more(f, g, sel, k - 1);
    }
}

proof fn lemma_total_bounds(f: Seq<u32>, i: int, k: int)
    requires
        0 <= i < k,
    ensures
        0 <= f[i] <= total(f, k),
    decreases k,
{
    if i < k - 1 {
        lemma_total_bounds(f, i, k - 1);
    } else if k > 1 {
        lemma_total_bounds(f, k - 2, k - 1);
    } else {
        assert(total(f, 0) == 0);
    }
}

/// A round of handing out gives some slots, and no more than are left.
pub proof fn lemma_topped_up(prob: Seq<u64>, m: u32, f: Seq<u32>)
    requires
        f.len() == 256,
        total(f, 256) < m,
    ensures
        total(f, 256) < total(topped_up(prob, m, f, m - total(f, 256)), 256) <= m,
        forall|i: int|
            0 <= i < 256 ==> #[trigger] topped_up(prob, m, f, m - total(f, 256))[i] == f[i] + (
            if place(by_remainder(prob, m), i, 256) < m - total(f, 256) {
                1int
            } else {
                0int
            }),
{
    let left = m - total(f, 256);
    let first = by_remainder(prob, m);
    let member = |i: int| true;
    let sel = |i: int| member(i) && place(first, i, 256) < left;
    let g = topped_up(prob, m, f, left);
    assert(member(0));
    lemma_round_limit(first, member, left);
    lemma_round_progress(first, member, left, 0);
    assert forall|i: int| 0 <= i < 256 implies #[trigger] g[i] == f[i] + (if sel(i) {
        1int
    } else {
        0int
    }) by {
        lemma_total_bounds(f, i, 256);
    }
    lemma_total_more(f, g, sel, 256);
}

/// A round of taking back takes some slots, and no more than there are too many.
pub proof fn lemma_trimmed(m: u32, f: Seq<u32>)
    requires
        f.len() == 256,
        total(f, 256) > m,
        can_spare(f),
    ensures
        m <= total(trimmed(f, total(f, 256) - m), 256) < total(f, 256),
        forall|i: int|
            0 <= i < 256 ==> #[trigger] trimmed(f, total(f, 256) - m)[i] == f[i] - (if f[i] > 1
                && place(by_slots(f), i, 256) < total(f, 256) - m {
                1int
            } else {
                0int
            }),
{
    let over = total(f, 256) - m;
    let first = by_slots(f);
    let member = |i: int| f[i] > 1;
    let sel = |i: int| member(i) && place(first, i, 256) < over;
    let g = trimmed(f, over);
    let x = choose|i: int| 0 <= i < 256 && #[trigger] f[i] > 1;
    assert(member(x));
    lemma_round_limit(first, member, over);
    lemma_round_progress(first, member, over, x);
    assert forall|i: int| 0 <= i < 256 implies #[trigger] f[i] == g[i] + (if sel(i) {
        1int
    } else {
        0int
    }) by {}
    lemma_total_more(g, f, sel, 256);
}

/// Probabilities of 256 symbols, none above 1.
pub open spec fn valid_prob(prob: Seq<u64>) -> bool {
    prob.len() == 256 && forall|i: int| 0 <= i < 256 ==> #[trigger] prob[i] <= ONE
}

proof fn lemma_share(p: u64, m: u32)
    requires
        p <= ONE,
    ensures
        0 <= p * m <= 0x1_0000_0000_0000 * 0xffff_ffff,
        0 <= p * m / (ONE as int) <= m,
        share(p, m) <= m + 1,
{
    assert(0 <= p * m <= 0x1_0000_0000_0000 * m) by (nonlinear_arith)
        requires
            0 <= p <= 0x1_0000_0000_0000,
            0 <= m,
    ;
}

fn sum(f: &[u32; 256]) -> (r: u64)
    ensures
        r == total(f@, 256),
        r <= 0x100_0000_0000,
{
    let mut s: u64 = 0;
    let mut i: usize = 0;
    while i < 256
        invariant
            i <= 256,
            s == total(f@, i as int),
            s <= i * 0x1_0000_0000,
        decreases 256 - i,
    {
        s = s + f[i] as u64;
        i = i + 1;
    }
    s
}

fn remainder_place(
    rem: &[u64; 256],
    i: usize,
    Ghost(prob): Ghost<Seq<u64>>,
    Ghost(m): Ghost<u32>,
) -> (r: u64)
    requires
        i < 256,
        forall|j: int| 0 <= j < 256 ==> #[trigger] rem@[j] == remainder(prob[j], m),
    ensures
        r == place(by_remainder(prob, m), i as int, 256),
{
    let x = rem[i];
    let mut r: u64 = 0;
    let mut j: usize = 0;
    while j < 256
        invariant
            j <= 256,
            i < 256,
            x == rem@[i as int],
            r <= j,
            forall|k: int| 0 <= k < 256 ==> #[trigger] rem@[k] == remainder(prob[k], m),
            r == place(by_remainder(prob, m), i as int, j as int),
        decreases 256 - j,
    {
        assert(rem@[j as int] == remainder(prob[j as int], m));
        if rem[j] > x || rem[j] == x && j < i {
            r = r + 1;
        }
        j = j + 1;
    }
    r
}

fn slots_place(f: &[u32; 256], i: usize) -> (r: u64)
    requires
        i < 256,
    ensures
        r == place(by_slots(f@), i as int, 256),
{
    let x = f[i];
    let mut r: u64 = 0;
    let mut j: usize = 0;
    while j < 256
        invariant
            j <= 256,
            i < 256,
            x == f@[i as int],
            r <= j,
            r == place(by_slots(f@), i as int, j as int),
        decreases 256 - j,
    {
        if f[j] > 1 && (f[j] < x || f[j] == x && j < i) {
            r = r + 1;
        }
        j = j + 1;
    }
    r
}

fn spare(f: &[u32; 256]) -> (r: bool)
    ensures
        r == can_spare(f@),
{
    let mut i: usize = 0;
    while i < 256
        invariant
            i <= 256,
            forall|j: int| 0 <= j < i ==> #[trigger] f@[j] <= 1,
        decreases 256 - i,
    {
        if f[i] > 1 {
            assert(f@[i as int] > 1);
            return true;
        }
        i = i + 1;
    }
    false
}

/// Hand out one round of slots.
fn top_up(
    f: &[u32; 256],
    rem: &[u64; 256],
    left: u64,
    Ghost(prob): Ghost<Seq<u64>>,
    Ghost(m): Ghost<u32>,
) -> (r: [u32; 256])
    requires
        left == m - total(f@, 256),
        left > 0,
        forall|j: int| 0 <= j < 256 ==> #[trigger] rem@[j] == remainder(prob[j], m),
    ensures
        r@ == topped_up(prob, m, f@, left as int),
{
    let mut r = *f;
    let ghost g = topped_up(prob, m, f@, left as int);
    proof {
        lemma_topped_up(prob, m, f@);
    }
    let mut i: usize = 0;
    while i < 256
        invariant
            i <= 256,
            forall|j: int| 0 <= j < 256 ==> #[trigger] rem@[j] == remainder(prob[j], m),
            forall|j: int|
                0 <= j < 256 ==> #[trigger] g[j] == f@[j] + (if place(
                    by_remainder(prob, m),
                    j,
                    256,
                ) < left {
                    1int
                } else {
                    0int
                }),
            forall|j: int| 0 <= j < i ==> #[trigger] r@[j] == g[j],
            forall|j: int| i <= j < 256 ==> #[trigger] r@[j] == f@[j],
        decreases 256 - i,
    {
        assert(r@[i as int] == f@[i as int]);
        assert(g[i as int] <= u32::MAX);
        if remainder_place(rem, i, Ghost(prob), Ghost(m)) < left {
            r[i] = r[i] + 1;
        }
        i = i + 1;
    }
    assert(r@ =~= g);
    r
}

/// Take back one round of slots.
fn trim(f: &[u32; 256], over: u64, Ghost(m): Ghost<u32>) -> (r: [u32; 256])
    requires
        over == total(f@, 256) - m,
        over > 0,
        can_spare(f@),
    ensures
        r@ == trimmed(f@, over as int),
{
    let mut r = *f;
    let ghost g = trimmed(f@, over as int);
    proof {
        lemma_trimmed(m, f@);
    }
    let mut i: usize = 0;
    while i < 256
        invariant
            i <= 256,
            forall|j: int|
                0 <= j < 256 ==> #[trigger] g[j] == f@[j] - (if f@[j] > 1 && place(
                    by_slots(f@),
                    j,
                    256,
                ) < over {
                    1int
                } else {
                    0int
                }),
            forall|j: int| 0 <= j < i ==> #[trigger] r@[j] == g[j],
            forall|j: int| i <= j < 256 ==> #[trigger] r@[j] == f@[j],
        decreases 256 - i,
    {
        assert(r@[i as int] == f@[i as int]);
        assert(g[i as int] >= 0);
        if f[i] > 1 && slots_place(f, i) < over {
            r[i] = r[i] - 1;
        }
        i = i + 1;
    }
    assert(r@ =~= g);
    r
}

/// Turn probabilities into integer frequencies that sum to `m`: shares rounded down,
/// the slots that are left given to the greatest remainders, and slots that were given
/// too many taken back from the smallest shares.
pub fn normalize_freqs(prob: &[u64; 256], m: u32) -> (r: [u32; 256])
    requires
        valid_prob(prob@),
    ensures
        r@ == normalized(prob@, m),
        forall|i: int| 0 <= i < 256 && prob@[i] > 0 ==> #[trigger] r@[i] >= 1,
        possible(prob@, 256) <= m ==> total(r@, 256) == m,
{
    let ghost p = prob@;
    let mut freq = [0u32;256];
    let mut rem = [0u64;256];
    let mut i: usize = 0;
    while i < 256
        invariant
            i <= 256,
            p == prob@,
            valid_prob(p),
            forall|j: int| 0 <= j < i ==> #[trigger] freq@[j] == share(p[j], m),
            forall|j: int| 0 <= j < i ==> #[trigger] rem@[j] == remainder(p[j], m),
        decreases 256 - i,
    {
        proof {
            assert(p[i as int] <= ONE);
            lemma_share(p[i as int], m);
        }
        let exact: u128 = prob[i] as u128 * m as u128;
        let whole: u32 = (exact / ONE as u128) as u32;
        freq[i] = if whole == 0 && prob[i] > 0 {
            1
        } else {
            whole
        };
        rem[i] = (exact % ONE as u128) as u64;
        i = i + 1;
    }
    assert(freq@ =~= shares(p, m));
    let ghost full = filled(p, m, shares(p, m));
    let mut now = sum(&freq);
    while now < m as u64
        invariant
            now == total(freq@, 256),
            forall|j: int| 0 <= j < 256 ==> #[trigger] rem@[j] == remainder(p[j], m),
            full == filled(p, m, freq@),
        decreases m as int + 1 - now,
    {
        proof {
            lemma_topped_up(p, m, freq@);
        }
        freq = top_up(&freq, &rem, m as u64 - now, Ghost(p), Ghost(m));
        now = sum(&freq);
    }
    assert(full == freq@);
    while now > m as u64 && spare(&freq)
        invariant
            now == total(freq@, 256),
            pared(m, full) == pared(m, freq@),
        decreases now,
    {
        proof {
            lemma_trimmed(m, freq@);
        }
        freq = trim(&freq, now - m as u64, Ghost(m));
        now = sum(&freq);
    }
    proof {
        what_can_occur_has_slots(p, m);
        if possible(p, 256) <= m {
            frequencies_sum_exactly(p, m);
        }
    }
    freq
}

/// How many of the symbols below `k` can occur.
pub open spec fn possible(prob: Seq<u64>, k: int) -> int
    decreases k,
{
    if k <= 0 {
        0
    } else {
        possible(prob, k - 1) + if prob[k - 1] > 0 { 1int } else { 0int }
    }
}

/// No more symbols can occur than there are.
pub proof fn lemma_possible(prob: Seq<u64>, k: int)
    requires
        k >= 0,
    ensures
        0 <= possible(prob, k) <= k,
    decreases k,
{
    if k > 0 {
        lemma_possible(prob, k - 1);
    }
}

/// Only symbols that can occur have slots.
spec fn spared(prob: Seq<u64>, f: Seq<u32>) -> bool {
    f.len() == 256 && forall|i: int| 0 <= i < 256 && #[trigger] f[i] > 0 ==> prob[i] > 0
}

proof fn lemma_all_ones(prob: Seq<u64>, f: Seq<u32>, k: int)
    requires
        spared(prob, f),
        !can_spare(f),
        0 <= k <= 256,
    ensures
        total(f, k) <= possible(prob, k),
    decreases k,
{
    if k > 0 {
        lemma_all_ones(prob, f, k - 1);
        assert(!(f[k - 1] > 1));
    }
}

proof fn lemma_pared(prob: Seq<u64>, m: u32, f: Seq<u32>)
    requires
        f.len() == 256,
        total(f, 256) >= m,
        total(f, 256) > m ==> spared(prob, f),
        possible(prob, 256) <= m,
    ensures
        total(pared(m, f), 256) == m,
        pared(m, f).len() == 256,
    decreases total(f, 256),
{
    if total(f, 256) > m {
        if can_spare(f) {
            lemma_trimmed(m, f);
            let g = trimmed(f, total(f, 256) - m);
            assert forall|i: int| 0 <= i < 256 && #[trigger] g[i] > 0 implies prob[i] > 0 by {
                assert(f[i] > 0);
            }
            lemma_pared(prob, m, g);
        } else {
            lemma_all_ones(prob, f, 256);
        }
    }
}

proof fn lemma_filled(prob: Seq<u64>, m: u32, f: Seq<u32>)
    requires
        f.len() == 256,
    ensures
        filled(prob, m, f).len() == 256,
        total(filled(prob, m, f), 256) == (if total(f, 256) < m {
            m as int
        } else {
            total(f, 256)
        }),
    decreases m - total(f, 256),
{
    if total(f, 256) < m {
        lemma_topped_up(prob, m, f);
        lemma_filled(prob, m, topped_up(prob, m, f, m - total(f, 256)));
    }
}

/// Probabilities that are whole numbers of slots are kept exactly.
pub proof fn exact_probabilities_are_kept(prob: Seq<u64>, m: u32, f: Seq<u32>)
    requires
        prob.len() == 256,
        f.len() == 256,
        m > 0,
        total(f, 256) == m,
        forall|i: int| 0 <= i < 256 ==> #[trigger] prob[i] * m == f[i] * 0x1_0000_0000_0000,
    ensures
        normalized(prob, m) == f,
{
    let s = shares(prob, m);
    assert forall|i: int| 0 <= i < 256 implies #[trigger] s[i] == f[i] by {
        assert(prob[i] * m == f[i] * 0x1_0000_0000_0000);
        assert((f[i] * 0x1_0000_0000_0000) / (ONE as int) == f[i]);
        if f[i] == 0 {
            assert(prob[i] == 0) by (nonlinear_arith)
                requires
                    prob[i] * m == 0,
                    m > 0,
                    prob[i] >= 0,
            ;
        }
    }
    assert(s =~= f);
}

/// Every symbol that can occur has a slot.
spec fn served(prob: Seq<u64>, f: Seq<u32>) -> bool {
    f.len() == 256 && forall|i: int| 0 <= i < 256 && prob[i] > 0 ==> #[trigger] f[i] >= 1
}

proof fn lemma_filled_served(prob: Seq<u64>, m: u32, f: Seq<u32>)
    requires
        served(prob, f),
    ensures
        served(prob, filled(prob, m, f)),
    decreases m - total(f, 256),
{
    if total(f, 256) < m {
        lemma_topped_up(prob, m, f);
        let g = topped_up(prob, m, f, m - total(f, 256));
        assert forall|i: int| 0 <= i < 256 && prob[i] > 0 implies #[trigger] g[i] >= 1 by {
            assert(f[i] >= 1);
        }
        lemma_filled_served(prob, m, g);
    }
}

proof fn lemma_pared_served(prob: Seq<u64>, m: u32, f: Seq<u32>)
    requires
        served(prob, f),
    ensures
        served(prob, pared(m, f)),
    decreases total(f, 256) - m,
{
    if total(f, 256) > m && can_spare(f) {
        lemma_trimmed(m, f);
        let g = trimmed(f, total(f, 256) - m);
        assert forall|i: int| 0 <= i < 256 && prob[i] > 0 implies #[trigger] g[i] >= 1 by {
            assert(f[i] >= 1);
        }
        lemma_pared_served(prob, m, g);
    }
}

/// Every symbol that can occur gets at least one slot, so it can be coded.
pub proof fn what_can_occur_has_slots(prob: Seq<u64>, m: u32)
    requires
        valid_prob(prob),
    ensures
        forall|i: int| 0 <= i < 256 && prob[i] > 0 ==> #[trigger] normalized(prob, m)[i] >= 1,
{
    let f = shares(prob, m);
    assert forall|i: int| 0 <= i < 256 && prob[i] > 0 implies #[trigger] f[i] >= 1 by {
        lemma_share(prob[i], m);
        assert(f[i] == share(prob[i], m));
    }
    lemma_filled_served(prob, m, f);
    lemma_pared_served(prob, m, filled(prob, m, f));
}

/// The frequencies sum exactly to `m`, as long as there is a slot for every symbol that
/// can occur.
pub proof fn frequencies_sum_exactly(prob: Seq<u64>, m: u32)
    requires
        valid_prob(prob),
        possible(prob, 256) <= m,
    ensures
        total(normalized(prob, m), 256) == m,
        normalized(prob, m).len() == 256,
{
    let f = shares(prob, m);
    lemma_filled(prob, m, f);
    if total(f, 256) > m {
        assert forall|i: int| 0 <= i < 256 && #[trigger] f[i] > 0 implies prob[i] > 0 by {
            assert(f[i] == share(prob[i], m));
            if prob[i] == 0 {
                assert(0 * m / (ONE as int) == 0);
            }
        }
    }
    lemma_pared(prob, m, filled(prob, m, f));
}

// ---------------------------------------------------------------------------
// Tables
// ---------------------------------------------------------------------------

/// A frequency table.
pub struct AnsTable {
    pub freq: [u32; 256],
    /// First slot of each symbol.
    pub cumul: [u32; 256],
    /// Symbol of each slot.
    pub slot_sym: Box<[u8; 4096]>,
}

impl AnsTable {
    /// Every slot belongs to the symbol in whose range it lies.
    pub open spec fn wf(self) -> bool {
        &&& total(self.freq@, 256) == 4096
        &&& forall|s: int| 0 <= s < 256 ==> #[trigger] self.cumul@[s] == total(self.freq@, s)
        &&& forall|i: int|
            0 <= i < 4096 ==> {
                let s = #[trigger] self.slot_sym@[i] as int;
                self.cumul@[s] <= i < self.cumul@[s] + self.freq@[s]
            }
    }
}

proof fn lemma_total_monotone(f: Seq<u32>, a: int, b: int)
    requires
        0 <= a <= b <= f.len(),
    ensures
        0 <= total(f, a) <= total(f, b),
    decreases b,
{
    if a < b {
        lemma_total_monotone(f, a, b - 1);
    } else if a > 0 {
        lemma_total_monotone(f, a - 1, a - 1);
    }
}

/// A symbol's range lies inside the table.
pub proof fn lemma_range(t: AnsTable, s: int)
    requires
        t.wf(),
        0 <= s < 256,
    ensures
        t.cumul@[s] + t.freq@[s] <= 4096,
        t.freq@[s] <= 4096,
{
    lemma_total_monotone(t.freq@, s + 1, 256);
    lemma_total_monotone(t.freq@, 0, s);
}

/// A slot in a symbol's range belongs to that symbol.
pub proof fn lemma_slot(t: AnsTable, s: int, i: int)
    requires
        t.wf(),
        0 <= s < 256,
        t.cumul@[s] <= i < t.cumul@[s] + t.freq@[s],
    ensures
        0 <= i < 4096,
        t.slot_sym@[i] == s,
{
    lemma_range(t, s);
    let r = t.slot_sym@[i] as int;
    assert(t.cumul@[r] <= i < t.cumul@[r] + t.freq@[r]);
    if r < s {
        lemma_total_monotone(t.freq@, r + 1, s);
    } else if s < r {
        lemma_total_monotone(t.freq@, s + 1, r);
    }
}

/// The table of frequencies that sum to 4096.
pub fn table_from(freq: &[u32; 256]) -> (t: Box<AnsTable>)
    requires
        total(freq@, 256) == 4096,
    ensures
        t.wf(),
        t.freq@ == freq@,
{
    let ghost f = freq@;
    let mut cumul = [0u32;256];
    let mut slots = [0u8;4096];
    let mut cum: u32 = 0;
    let mut s: usize = 0;
    while s < 256
        invariant
            s <= 256,
            f == freq@,
            total(f, 256) == 4096,
            cum == total(f, s as int) <= 4096,
            forall|j: int| 0 <= j < s ==> #[trigger] cumul@[j] == total(f, j),
            forall|i: int|
                0 <= i < cum ==> {
                    let r = #[trigger] slots@[i] as int;
                    r < s && total(f, r) <= i < total(f, r) + f[r]
                },
        decreases 256 - s,
    {
        let n = freq[s];
        proof {
            lemma_total_monotone(f, s + 1, 256);
        }
        cumul[s] = cum;
        let mut i: u32 = 0;
        while i < n
            invariant
                i <= n,
                s < 256,
                f == freq@,
                n == f[s as int],
                cum == total(f, s as int),
                cum + n <= 4096,
                forall|k: int|
                    0 <= k < cum + i ==> {
                        let r = #[trigger] slots@[k] as int;
                        r <= s && total(f, r) <= k < total(f, r) + f[r]
                    },
            decreases n - i,
        {
            slots[(cum + i) as usize] = s as u8;
            i = i + 1;
        }
        cum = cum + n;
        s = s + 1;
    }
    Box::new(AnsTable { freq: *freq, cumul, slot_sym: Box::new(slots) })
}

/// The table of a probability distribution.
pub fn build_table(prob: &[u64; 256]) -> (t: Box<AnsTable>)
    requires
        valid_prob(prob@),
    ensures
        t.wf(),
        t.freq@ == normalized(prob@, TABLE_SIZE),
{
    proof {
        lemma_possible(prob@, 256);
    }
    let f = normalize_freqs(prob, TABLE_SIZE);
    table_from(&f)
}

} // verus!
