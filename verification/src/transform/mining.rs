//! Finding the words that are worth a place in the dictionary.
use vstd::multiset::*;
use vstd::prelude::*;
use vstd::seq_lib::*;
use crate::bytes;
use crate::cm::sizing;
use crate::transform::order;
use crate::transform::order::{Entry, Key};
use crate::transform::textdict;
use crate::transform::textdict::{MAX_WORD, MIN_COUNT, MIN_WORD};

verus! {

fn is_word_byte(b: u8) -> (r: bool)
    ensures
        r == textdict::word_byte(b),
{
    b >= 48 && b <= 57 || b >= 65 && b <= 90 || b >= 97 && b <= 122
}

/// Whether the input looks like text; what does not is left alone.
pub fn looks_texty(data: &[u8]) -> (r: bool)
    ensures
        r == textdict::texty(data@),
{
    let n: usize = data.len();
    if n < 0x1_0000 {
        return false;
    }
    let step: usize = if n / 0x10_0000 < 1 {
        1
    } else {
        n / 0x10_0000
    };
    let mut textish: u64 = 0;
    let mut total: u64 = 0;
    let mut i: usize = 0;
    let mut over: bool = false;
    while i < n && !over
        invariant
            n == data@.len(),
            step == textdict::sample_step(n as int),
            step >= 1,
            textish <= total <= i,
            over ==> i >= n,
            textish + textdict::textual_from(data@, i as int, step as int) == textdict::textual_from(
                data@,
                0,
                step as int,
            ),
            total + textdict::samples_from(n as int, i as int, step as int) == textdict::samples_from(
                n as int,
                0,
                step as int,
            ),
        decreases n - i,
    {
        let b = data[i];
        if b == 10 || b >= 32 && b <= 126 {
            textish = textish + 1;
        }
        total = total + 1;
        if step >= n - i {
            assert(textdict::samples_from(n as int, i + step, step as int) == 0);
            assert(textdict::textual_from(data@, i + step, step as int) == 0);
            i = n;
            over = true;
        } else {
            i = i + step;
        }
    }
    textish as u128 * 100 >= total as u128 * 70
}

/// End of the candidate at `i`.
pub fn run_end(data: &[u8], i: usize) -> (r: usize)
    requires
        i < data@.len(),
    ensures
        r == textdict::run_stop(data@, i as int),
        i <= r <= data@.len(),
{
    proof {
        textdict::lemma_run_stop(data@, i as int);
    }
    let mut j: usize = i;
    if data[j] == 32 {
        j = j + 1;
        if j >= data.len() || !is_word_byte(data[j]) {
            return i;
        }
    }
    while j < data.len() && is_word_byte(data[j])
        invariant
            i <= j <= data@.len(),
            textdict::word_stop(data@, j as int) == textdict::run_stop(data@, i as int),
        decreases data@.len() - j,
    {
        j = j + 1;
    }
    j
}

/// Byte values that do not occur in the input, in ascending order.
pub fn unused_bytes(data: &[u8]) -> (r: Vec<u8>)
    ensures
        r@ == textdict::unused(data@),
{
    let mut used = [false;256];
    let mut i: usize = 0;
    while i < data.len()
        invariant
            i <= data@.len(),
            forall|b: int|
                0 <= b < 256 ==> #[trigger] used@[b] == data@.take(i as int).contains(b as u8),
        decreases data@.len() - i,
    {
        let ghost was = used@;
        used[data[i] as usize] = true;
        proof {
            let now = data@.take(i + 1);
            let before = data@.take(i as int);
            assert(now =~= before.push(data@[i as int]));
            assert forall|b: int| 0 <= b < 256 implies #[trigger] used@[b] == now.contains(
                b as u8,
            ) by {
                assert(was[b] == before.contains(b as u8));
                if b == data@[i as int] {
                    assert(now[i as int] == b as u8);
                } else if now.contains(b as u8) {
                    let k = choose|k: int| 0 <= k < now.len() && now[k] == b as u8;
                    assert(before[k] == b as u8);
                } else if before.contains(b as u8) {
                    let k = choose|k: int| 0 <= k < before.len() && before[k] == b as u8;
                    assert(now[k] == b as u8);
                }
            }
        }
        i = i + 1;
    }
    assert(data@.take(data@.len() as int) =~= data@);
    let mut r: Vec<u8> = Vec::new();
    let mut b: usize = 0;
    while b < 256
        invariant
            b <= 256,
            forall|c: int| 0 <= c < 256 ==> #[trigger] used@[c] == data@.contains(c as u8),
            r@ + textdict::unused_from(data@, b as int) == textdict::unused(data@),
        decreases 256 - b,
    {
        let ghost was = r@;
        if !used[b] {
            r.push(b as u8);
            assert(was + textdict::unused_from(data@, b as int) =~= r@ + textdict::unused_from(data@, b + 1));
        }
        b = b + 1;
    }
    assert(r@ + Seq::<u8>::empty() =~= r@);
    r
}

/// The candidates that can become dictionary words, one entry per occurrence.
pub fn collect(data: &[u8]) -> (r: Vec<Entry>)
    ensures
        order::all_valid(data@, r@),
        forall|w: Seq<u8>|
            3 <= w.len() <= 40 ==> #[trigger] order::words_of(data@, r@).to_multiset().count(w)
                == textdict::occurrences(data@, w),
{
    let n: usize = data.len();
    let ghost d = data@;
    let mut r: Vec<Entry> = Vec::new();
    let mut i: usize = 0;
    proof {
        broadcast use group_to_multiset_ensures;
        broadcast use vstd::multiset::group_multiset_axioms;

        let none = order::words_of(d, r@);
        assert(none =~= Seq::empty());
        assert forall|w: Seq<u8>| #[trigger] none.to_multiset().count(w) == 0 by {
            to_multiset_contains(none, w);
        }
    }
    while i < n
        invariant
            n == data@.len(),
            d == data@,
            i <= n,
            order::all_valid(d, r@),
            forall|w: Seq<u8>|
                3 <= w.len() <= 40 ==> #[trigger] order::words_of(d, r@).to_multiset().count(w)
                    + textdict::runs(d, i as int).to_multiset().count(w) == textdict::occurrences(d, w),
        decreases n - i,
    {
        proof {
            textdict::lemma_run_stop(d, i as int);
        }
        let j = run_end(data, i);
        let ghost was = r@;
        if j > i {
            let ghost run = d.subrange(i as int, j as int);
            let ghost more = textdict::runs(d, j as int);
            if j - i >= MIN_WORD && j - i <= MAX_WORD {
                r.push(Entry { start: i, len: j - i, num: 0 });
            }
            proof {
                assert forall|w: Seq<u8>| 3 <= w.len() <= 40 implies #[trigger] order::words_of(
                    d,
                    r@,
                ).to_multiset().count(w) + more.to_multiset().count(w) == textdict::occurrences(d, w) by {
                    broadcast use vstd::multiset::group_multiset_axioms;

                    let a = order::words_of(d, was);
                    assert(a.to_multiset().count(w) + textdict::runs(d, i as int).to_multiset().count(w)
                        == textdict::occurrences(d, w));
                    lemma_multiset_commutative(seq![run], more);
                    let none = Seq::<Seq<u8>>::empty();
                    assert(none.push(run) =~= seq![run]);
                    to_multiset_build(none, run);
                    to_multiset_len(none);
                    to_multiset_contains(none, w);
                    if 3 <= run.len() <= 40 {
                        assert(order::words_of(d, r@) =~= a.push(run));
                        to_multiset_build(a, run);
                    }
                }
            }
            i = j;
        } else {
            i = i + 1;
        }
    }
    proof {
        let none = textdict::runs(d, n as int);
        assert forall|w: Seq<u8>| 3 <= w.len() <= 40 implies #[trigger] order::words_of(
            d,
            r@,
        ).to_multiset().count(w) == textdict::occurrences(d, w) by {
            to_multiset_contains(none, w);
        }
    }
    r
}

/// In an ordered list, a maximal group of equal words holds all its occurrences.
proof fn lemma_group(ws: Seq<Seq<u8>>, i: int, j: int)
    requires
        0 <= i < j <= ws.len(),
        textdict::alphabetical(ws),
        forall|k: int| i <= k < j ==> #[trigger] ws[k] == ws[i],
        i > 0 ==> ws[i - 1] != ws[i],
        j < ws.len() ==> ws[j] != ws[i],
    ensures
        ws.to_multiset().count(ws[i]) == j - i,
        forall|k: int| 0 <= k < ws.len() && !(i <= k < j) ==> #[trigger] ws[k] != ws[i],
{
    broadcast use vstd::multiset::group_multiset_axioms;

    let w = ws[i];
    let (a, b, c) = (ws.take(i), ws.subrange(i, j), ws.skip(j));
    assert forall|k: int| 0 <= k < ws.len() && !(i <= k < j) implies #[trigger] ws[k] != w by {
        if ws[k] == w {
            if k < i {
                if k < i - 1 {
                    assert(order::lex_le(ws[k], ws[i - 1]));
                }
                assert(order::lex_le(ws[i - 1], ws[i]));
                order::lemma_lex_antisymmetric(ws[i - 1], ws[i]);
            } else {
                assert(order::lex_le(ws[i], ws[j]));
                if k > j {
                    assert(order::lex_le(ws[j], ws[k]));
                }
                order::lemma_lex_antisymmetric(ws[i], ws[j]);
            }
        }
    }
    assert(ws =~= a + b + c);
    lemma_multiset_commutative(a + b, c);
    lemma_multiset_commutative(a, b);
    to_multiset_contains(a, w);
    to_multiset_contains(c, w);
    assert(!a.contains(w));
    assert(!c.contains(w)) by {
        if c.contains(w) {
            let k = choose|k: int| 0 <= k < c.len() && c[k] == w;
            assert(ws[j + k] == w);
        }
    }
    lemma_constant(b, w);
}

proof fn lemma_constant(s: Seq<Seq<u8>>, w: Seq<u8>)
    requires
        forall|k: int| 0 <= k < s.len() ==> #[trigger] s[k] == w,
    ensures
        s.to_multiset().count(w) == s.len(),
    decreases s.len(),
{
    broadcast use vstd::multiset::group_multiset_axioms;

    if s.len() > 0 {
        lemma_constant(s.drop_last(), w);
        assert(s.drop_last().push(s.last()) =~= s);
        to_multiset_build(s.drop_last(), s.last());
    } else {
        to_multiset_contains(s, w);
    }
}

/// Ordered entries have ordered words.
proof fn lemma_alphabetical(data: Seq<u8>, es: Seq<Entry>)
    requires
        order::sorted(data, Key::Word, es),
    ensures
        textdict::alphabetical(order::words_of(data, es)),
{
    let ws = order::words_of(data, es);
    assert forall|i: int, j: int| 0 <= i < j < ws.len() implies order::lex_le(
        #[trigger] ws[i],
        #[trigger] ws[j],
    ) by {
        assert(order::ordered(data, Key::Word, es[i], es[j]));
    }
}

/// The eligible words, each with how often it occurs, from the ordered list of all
/// occurrences.
pub fn tally(data: &[u8], es: &Vec<Entry>) -> (r: Vec<Entry>)
    requires
        order::all_valid(data@, es@),
        order::sorted(data@, Key::Word, es@),
        forall|w: Seq<u8>|
            3 <= w.len() <= 40 ==> #[trigger] order::words_of(data@, es@).to_multiset().count(w)
                == textdict::occurrences(data@, w),
    ensures
        order::all_valid(data@, r@),
        order::words_of(data@, r@).no_duplicates(),
        forall|w: Seq<u8>|
            #[trigger] order::words_of(data@, r@).contains(w) <==> textdict::eligible(data@, w),
        forall|k: int|
            0 <= k < r@.len() ==> #[trigger] r@[k].num == textdict::occurrences(
                data@,
                order::word(data@, r@[k]),
            ),
{
    let len: usize = data.len();
    let n: usize = es.len();
    let ghost d = data@;
    let ghost ws = order::words_of(d, es@);
    let mut r: Vec<Entry> = Vec::new();
    let mut i: usize = 0;
    proof {
        lemma_alphabetical(d, es@);
        assert(ws.take(0) =~= Seq::empty());
    }
    while i < n
        invariant
            len == data@.len(),
            d == data@,
            n == es@.len(),
            i <= n,
            ws == order::words_of(d, es@),
            textdict::alphabetical(ws),
            order::all_valid(d, es@),
            forall|w: Seq<u8>|
                3 <= w.len() <= 40 ==> #[trigger] ws.to_multiset().count(w) == textdict::occurrences(d, w),
            0 < i < n ==> ws[i - 1] != ws[i as int],
            order::all_valid(d, r@),
            order::words_of(d, r@).no_duplicates(),
            forall|w: Seq<u8>|
                #[trigger] order::words_of(d, r@).contains(w) <==> textdict::eligible(d, w) && ws.take(
                    i as int,
                ).contains(w),
            forall|k: int|
                0 <= k < r@.len() ==> #[trigger] r@[k].num == textdict::occurrences(
                    d,
                    order::word(d, r@[k]),
                ),
        decreases n - i,
    {
        let e = es[i];
        assert(order::valid(d, es@[i as int]));
        let ghost w = order::word(d, e);
        assert(ws[i as int] == w);
        let mut j: usize = i + 1;
        let mut same: bool = true;
        while j < n && same
            invariant
                len == data@.len(),
                d == data@,
                n == es@.len(),
                i < j <= n,
                e == es@[i as int],
                w == order::word(d, e),
                ws == order::words_of(d, es@),
                order::valid(d, e),
                order::all_valid(d, es@),
                forall|k: int| i <= k < j ==> #[trigger] ws[k] == w,
                !same ==> j < n && ws[j as int] != w,
            decreases n - j + if same { 1int } else { 0int },
        {
            let f = es[j];
            assert(order::valid(d, es@[j as int]));
            assert(ws[j as int] == order::word(d, f));
            if bytes::same_bytes(&data[e.start..e.start + e.len], &data[f.start..f.start + f.len]) {
                j = j + 1;
            } else {
                same = false;
            }
        }
        proof {
            lemma_group(ws, i as int, j as int);
        }
        let count: usize = j - i;
        assert(count == textdict::occurrences(d, w));
        let ghost was = r@;
        let ghost seen = ws.take(i as int);
        let f = Entry { start: e.start, len: e.len, num: count };
        if count >= MIN_COUNT && order::saved(&f, 2) > 64 {
            r.push(f);
        }
        proof {
            let a = order::words_of(d, was);
            let b = order::words_of(d, r@);
            let now = ws.take(j as int);
            assert(!seen.contains(w)) by {
                if seen.contains(w) {
                    let k = choose|k: int| 0 <= k < seen.len() && seen[k] == w;
                    assert(ws[k] == w);
                }
            }
            assert(!a.contains(w));
            assert(textdict::eligible(d, w) == (r@.len() > was.len()));
            if r@.len() > was.len() {
                assert(b =~= a.push(w));
            } else {
                assert(b =~= a);
            }
            assert forall|x: Seq<u8>| #[trigger] b.contains(x) <==> textdict::eligible(d, x)
                && now.contains(x) by {
                assert(a.contains(x) <==> textdict::eligible(d, x) && seen.contains(x));
                lemma_push_contains(a, w, x);
                if seen.contains(x) {
                    let k = choose|k: int| 0 <= k < seen.len() && seen[k] == x;
                    assert(now[k] == x);
                }
                if x == w {
                    assert(now[i as int] == w);
                } else if now.contains(x) {
                    let k = choose|k: int| 0 <= k < now.len() && now[k] == x;
                    assert(ws[k] == x);
                    assert(k < i);
                    assert(seen[k] == x);
                }
            }
            assert(b.no_duplicates()) by {
                if r@.len() > was.len() {
                    assert forall|p: int, q: int|
                        0 <= p < b.len() && 0 <= q < b.len() && p != q implies b[p] != b[q] by {
                        if p == a.len() {
                            assert(a.contains(a[q]));
                        } else if q == a.len() {
                            assert(a.contains(a[p]));
                        }
                    }
                }
            }
            assert forall|k: int| 0 <= k < r@.len() implies #[trigger] r@[k].num == textdict::occurrences(
                d,
                order::word(d, r@[k]),
            ) by {
                if k < was.len() {
                    assert(r@[k] == was[k]);
                }
            }
        }
        i = j;
    }
    proof {
        assert(ws.take(n as int) =~= ws);
        assert forall|w: Seq<u8>| #[trigger] order::words_of(d, r@).contains(w) <==> textdict::eligible(
            d,
            w,
        ) by {
            if textdict::eligible(d, w) {
                to_multiset_contains(ws, w);
                assert(ws.to_multiset().count(w) == textdict::occurrences(d, w));
            }
        }
    }
    r
}

proof fn lemma_push_contains(a: Seq<Seq<u8>>, w: Seq<u8>, x: Seq<u8>)
    ensures
        a.push(w).contains(x) <==> a.contains(x) || x == w,
{
    if a.contains(x) {
        let k = choose|k: int| 0 <= k < a.len() && a[k] == x;
        assert(a.push(w)[k] == x);
    }
    if x == w {
        assert(a.push(w)[a.len() as int] == x);
    }
    if a.push(w).contains(x) && x != w {
        let k = choose|k: int| 0 <= k < a.push(w).len() && a.push(w)[k] == x;
        assert(a[k] == x);
    }
}

/// Ranked entries have ranked words.
proof fn lemma_by_saving(data: Seq<u8>, es: Seq<Entry>, key: Key, k: int)
    requires
        key == Key::Pair && k == 2 || key == Key::Single && k == 1,
        order::sorted(data, key, es),
        order::all_valid(data, es),
        forall|i: int|
            0 <= i < es.len() ==> #[trigger] es[i].num == textdict::occurrences(
                data,
                order::word(data, es[i]),
            ),
    ensures
        textdict::by_saving(data, order::words_of(data, es), k),
{
    let ws = order::words_of(data, es);
    assert forall|i: int, j: int| 0 <= i < j < ws.len() implies textdict::outranks(
        data,
        k,
        #[trigger] ws[i],
        #[trigger] ws[j],
    ) by {
        assert(order::ordered(data, key, es[i], es[j]));
        assert(order::valid(data, es[i]) && order::valid(data, es[j]));
        assert(es[i].num == textdict::occurrences(data, ws[i]) && es[j].num == textdict::occurrences(data, ws[j]));
        assert(ws[i].len() == es[i].len && ws[j].len() == es[j].len);
    }
}

/// All entries carry the number of occurrences of their word.
pub open spec fn counted(data: Seq<u8>, es: Seq<Entry>) -> bool {
    forall|i: int|
        0 <= i < es.len() ==> #[trigger] es[i].num == textdict::occurrences(data, order::word(data, es[i]))
}

proof fn lemma_counted_permuted(data: Seq<u8>, s: Seq<Entry>, t: Seq<Entry>)
    requires
        s.to_multiset() == t.to_multiset(),
        counted(data, s),
    ensures
        counted(data, t),
{
    order::lemma_permuted(s, t);
    assert forall|i: int| 0 <= i < t.len() implies #[trigger] t[i].num == textdict::occurrences(
        data,
        order::word(data, t[i]),
    ) by {
        assert(t.contains(t[i]));
        assert(s.contains(t[i]));
    }
}

/// Append entries `lo .. hi` of `v`.
fn append(r: &mut Vec<Entry>, v: &Vec<Entry>, lo: usize, hi: usize)
    requires
        lo <= hi <= v@.len(),
    ensures
        final(r)@ == old(r)@ + v@.subrange(lo as int, hi as int),
{
    let ghost was = r@;
    let mut i: usize = lo;
    while i < hi
        invariant
            lo <= i <= hi <= v@.len(),
            r@ == was + v@.subrange(lo as int, i as int),
        decreases hi - i,
    {
        r.push(v[i]);
        i = i + 1;
        assert(r@ =~= was + v@.subrange(lo as int, i as int));
    }
}

/// Make the dictionary from the eligible words; `ns` words get one-byte tokens and
/// `cap` words can be spelled.
pub fn choose_words(data: &[u8], cands: &Vec<Entry>, ns: usize, cap: usize) -> (r: Vec<Entry>)
    requires
        order::all_valid(data@, cands@),
        counted(data@, cands@),
        order::words_of(data@, cands@).no_duplicates(),
        forall|w: Seq<u8>|
            #[trigger] order::words_of(data@, cands@).contains(w) <==> textdict::eligible(data@, w),
        ns == textdict::alphabet(data@).singles.len(),
        cap == textdict::alphabet(data@).capacity(),
        ns <= 24,
    ensures
        order::all_valid(data@, r@),
        r@.len() == sizing::min(cands@.len() as int, cap as int),
        order::words_of(data@, r@).no_duplicates(),
        exists|ranked: Seq<Seq<u8>>, front: Seq<Seq<u8>>|
            ranked.len() == cands@.len() && #[trigger] textdict::dictionary(
                data@,
                ranked,
                front,
                order::words_of(data@, r@),
            ),
{
    let ghost d = data@;
    let ranked = order::sort_range(data, Key::Pair, cands, 0, cands.len());
    proof {
        assert(cands@.subrange(0, cands@.len() as int) =~= cands@);
        order::lemma_permuted(cands@, ranked@);
        lemma_counted_permuted(d, cands@, ranked@);
        lemma_by_saving(d, ranked@, Key::Pair, 2);
        order::lemma_words_permute(d, cands@, ranked@);
        order::lemma_permuted(order::words_of(d, cands@), order::words_of(d, ranked@));
    }
    let ghost rw = order::words_of(d, ranked@);
    assert forall|w: Seq<u8>| #[trigger] rw.contains(w) <==> textdict::eligible(d, w) by {
        assert(order::words_of(d, cands@).contains(w) <==> textdict::eligible(d, w));
    }
    let n: usize = if ranked.len() < cap {
        ranked.len()
    } else {
        cap
    };
    let head: usize = if n < 4 * ns {
        n
    } else {
        4 * ns
    };
    let cut: usize = if n < ns {
        n
    } else {
        ns
    };
    let ghost kept = rw.take(n as int);
    // Rank the front runners anew.
    let mut front = order::sort_range(data, Key::Single, &ranked, 0, head);
    let ghost lead = front@;
    proof {
        let part = ranked@.subrange(0, head as int);
        assert(counted(d, part));
        order::lemma_permuted(part, lead);
        lemma_counted_permuted(d, part, lead);
        lemma_by_saving(d, lead, Key::Single, 1);
        order::lemma_words_permute(d, part, lead);
        assert(order::words_of(d, part) =~= kept.take(head as int));
    }
    append(&mut front, &ranked, head, n);
    let ghost fw = order::words_of(d, front@);
    proof {
        assert(fw.take(head as int) =~= order::words_of(d, lead));
        assert(fw.skip(head as int) =~= kept.skip(head as int));
        assert(order::all_valid(d, front@)) by {
            assert forall|i: int| 0 <= i < front@.len() implies order::valid(
                d,
                #[trigger] front@[i],
            ) by {
                if i < head {
                    assert(front@[i] == lead[i]);
                } else {
                    assert(front@[i] == ranked@[i]);
                }
            }
        }
        lemma_glue(fw, kept, head as int);
    }
    // The words that are left with pairs go in alphabetical order.
    let tail = order::sort_range(data, Key::Word, &front, cut, n);
    let mut words: Vec<Entry> = Vec::new();
    append(&mut words, &front, 0, cut);
    let tail_len: usize = tail.len();
    append(&mut words, &tail, 0, tail_len);
    let ghost ww = order::words_of(d, words@);
    proof {
        let part = front@.subrange(cut as int, n as int);
        order::lemma_words_permute(d, part, tail@);
        assert(tail@.subrange(0, tail@.len() as int) =~= tail@);
        lemma_alphabetical(d, tail@);
        assert(ww.take(cut as int) =~= fw.take(cut as int));
        assert(ww.skip(cut as int) =~= order::words_of(d, tail@));
        assert(fw.skip(cut as int) =~= order::words_of(d, part));
        assert(order::all_valid(d, words@)) by {
            assert forall|i: int| 0 <= i < words@.len() implies order::valid(
                d,
                #[trigger] words@[i],
            ) by {
                if i < cut {
                    assert(words@[i] == front@[i]);
                } else {
                    assert(words@[i] == tail@[i - cut]);
                }
            }
        }
        lemma_glue_front(ww, fw, cut as int);
        assert(kept.no_duplicates());
        order::lemma_permuted(kept, fw);
        order::lemma_permuted(fw, ww);
        assert(textdict::dictionary(d, rw, fw, ww));
    }
    words
}

/// Permuting the first part permutes the whole.
pub proof fn lemma_glue(a: Seq<Seq<u8>>, b: Seq<Seq<u8>>, k: int)
    requires
        0 <= k <= a.len() == b.len(),
        a.take(k).to_multiset() == b.take(k).to_multiset(),
        a.skip(k) == b.skip(k),
    ensures
        a.to_multiset() == b.to_multiset(),
{
    assert(a =~= a.take(k) + a.skip(k));
    assert(b =~= b.take(k) + b.skip(k));
    lemma_multiset_commutative(a.take(k), a.skip(k));
    lemma_multiset_commutative(b.take(k), b.skip(k));
}

/// Permuting the last part permutes the whole.
pub proof fn lemma_glue_front(a: Seq<Seq<u8>>, b: Seq<Seq<u8>>, k: int)
    requires
        0 <= k <= a.len() == b.len(),
        a.take(k) == b.take(k),
        a.skip(k).to_multiset() == b.skip(k).to_multiset(),
    ensures
        a.to_multiset() == b.to_multiset(),
{
    assert(a =~= a.take(k) + a.skip(k));
    assert(b =~= b.take(k) + b.skip(k));
    lemma_multiset_commutative(a.take(k), a.skip(k));
    lemma_multiset_commutative(b.take(k), b.skip(k));
}

} // verus!
