//! Word entries, the orders they are ranked by, and sorting them.
use vstd::multiset::*;
use vstd::prelude::*;
use vstd::seq_lib::*;

verus! {

// ---------------------------------------------------------------------------
// Lexicographic order
// ---------------------------------------------------------------------------

/// `a` comes before `b` in a dictionary, or is equal to it.
pub open spec fn lex_le(a: Seq<u8>, b: Seq<u8>) -> bool
    decreases a.len(),
{
    if a.len() == 0 {
        true
    } else if b.len() == 0 {
        false
    } else if a[0] != b[0] {
        a[0] < b[0]
    } else {
        lex_le(a.drop_first(), b.drop_first())
    }
}

/// Any two words can be compared.
pub proof fn lemma_lex_total(a: Seq<u8>, b: Seq<u8>)
    ensures
        lex_le(a, b) || lex_le(b, a),
    decreases a.len(),
{
    if a.len() > 0 && b.len() > 0 {
        lemma_lex_total(a.drop_first(), b.drop_first());
    }
}

/// Only equal words come before each other.
pub proof fn lemma_lex_antisymmetric(a: Seq<u8>, b: Seq<u8>)
    requires
        lex_le(a, b),
        lex_le(b, a),
    ensures
        a == b,
    decreases a.len(),
{
    if a.len() > 0 && b.len() > 0 {
        lemma_lex_antisymmetric(a.drop_first(), b.drop_first());
        assert(seq![a[0]] + a.drop_first() =~= a);
        assert(seq![b[0]] + b.drop_first() =~= b);
    } else {
        assert(a =~= b);
    }
}

/// The order is transitive.
pub proof fn lemma_lex_transitive(a: Seq<u8>, b: Seq<u8>, c: Seq<u8>)
    requires
        lex_le(a, b),
        lex_le(b, c),
    ensures
        lex_le(a, c),
    decreases a.len(),
{
    if a.len() > 0 && b.len() > 0 && c.len() > 0 && a[0] == b[0] && b[0] == c[0] {
        lemma_lex_transitive(a.drop_first(), b.drop_first(), c.drop_first());
    }
}

/// A word comes before itself.
pub proof fn lemma_lex_reflexive(a: Seq<u8>)
    ensures
        lex_le(a, a),
{
    lemma_lex_total(a, a);
}

/// Whether slice `a` comes before slice `b` or is equal to it.
pub fn lex_at_most(a: &[u8], b: &[u8]) -> (r: bool)
    ensures
        r == lex_le(a@, b@),
{
    let mut i: usize = 0;
    assert(a@.skip(0) =~= a@);
    assert(b@.skip(0) =~= b@);
    while i < a.len() && i < b.len()
        invariant
            i <= a@.len(),
            i <= b@.len(),
            lex_le(a@, b@) == lex_le(a@.skip(i as int), b@.skip(i as int)),
        decreases a@.len() - i,
    {
        assert(a@.skip(i as int)[0] == a@[i as int]);
        assert(b@.skip(i as int)[0] == b@[i as int]);
        if a[i] != b[i] {
            return a[i] < b[i];
        }
        assert(a@.skip(i as int).drop_first() =~= a@.skip(i + 1));
        assert(b@.skip(i as int).drop_first() =~= b@.skip(i + 1));
        i = i + 1;
    }
    i >= a.len()
}

// ---------------------------------------------------------------------------
// Entries
// ---------------------------------------------------------------------------

/// A word, given by where it stands in the text, with a number attached.
#[derive(Clone, Copy)]
pub struct Entry {
    pub start: usize,
    pub len: usize,
    pub num: usize,
}

/// The word of an entry.
pub open spec fn word(data: Seq<u8>, e: Entry) -> Seq<u8> {
    data.subrange(e.start as int, e.start + e.len)
}

/// The entry stands inside the text and its word has 3 to 40 bytes.
pub open spec fn valid(data: Seq<u8>, e: Entry) -> bool {
    e.start + e.len <= data.len() && 3 <= e.len <= 40
}

/// All entries are valid.
pub open spec fn all_valid(data: Seq<u8>, es: Seq<Entry>) -> bool {
    forall|i: int| 0 <= i < es.len() ==> valid(data, #[trigger] es[i])
}

/// The words of entries.
pub open spec fn words_of(data: Seq<u8>, es: Seq<Entry>) -> Seq<Seq<u8>> {
    es.map_values(|e: Entry| word(data, e))
}

/// What entries are ordered by.
#[derive(Clone, Copy, PartialEq, Eq, Structural)]
pub enum Key {
    /// The word, alphabetically.
    Word,
    /// Bytes saved if every occurrence is replaced by two bytes, most first, then the
    /// word.
    Pair,
    /// Bytes saved if every occurrence is replaced by one byte, most first, then the
    /// word.
    Single,
}

/// Bytes saved by replacing an entry's word, seen `num` times, with `k` bytes.
pub open spec fn saves(e: Entry, k: int) -> int {
    (e.len - k) * e.num
}

/// `a` may stand before `b`: it saves more, or as much and is not behind in the
/// alphabet.
pub open spec fn outranks(data: Seq<u8>, k: int, a: Entry, b: Entry) -> bool {
    saves(a, k) > saves(b, k) || saves(a, k) == saves(b, k) && lex_le(word(data, a), word(data, b))
}

/// `a` may stand before `b`.
pub open spec fn ordered(data: Seq<u8>, key: Key, a: Entry, b: Entry) -> bool {
    match key {
        Key::Word => lex_le(word(data, a), word(data, b)),
        Key::Pair => outranks(data, 2, a, b),
        Key::Single => outranks(data, 1, a, b),
    }
}

/// Entries stand in order.
pub open spec fn sorted(data: Seq<u8>, key: Key, es: Seq<Entry>) -> bool {
    forall|i: int, j: int|
        0 <= i < j < es.len() ==> ordered(data, key, #[trigger] es[i], #[trigger] es[j])
}

proof fn lemma_ordered_transitive(data: Seq<u8>, key: Key, a: Entry, b: Entry, c: Entry)
    requires
        ordered(data, key, a, b),
        ordered(data, key, b, c),
    ensures
        ordered(data, key, a, c),
{
    let (x, y, z) = (word(data, a), word(data, b), word(data, c));
    if lex_le(x, y) && lex_le(y, z) {
        lemma_lex_transitive(x, y, z);
    }
}

proof fn lemma_ordered_total(data: Seq<u8>, key: Key, a: Entry, b: Entry)
    ensures
        ordered(data, key, a, b) || ordered(data, key, b, a),
{
    lemma_lex_total(word(data, a), word(data, b));
}

/// A permutation of entries permutes their words.
pub proof fn lemma_words_permute(data: Seq<u8>, s: Seq<Entry>, t: Seq<Entry>)
    requires
        s.to_multiset() == t.to_multiset(),
    ensures
        words_of(data, s).to_multiset() == words_of(data, t).to_multiset(),
        s.len() == t.len(),
    decreases s.len(),
{
    broadcast use group_to_multiset_ensures;
    broadcast use vstd::multiset::group_multiset_axioms;

    assert(s.len() == s.to_multiset().len());
    assert(t.len() == t.to_multiset().len());
    if s.len() > 0 {
        let x = s.last();
        assert(s.to_multiset().count(x) > 0);
        let i = choose|i: int| 0 <= i < t.len() && t[i] == x;
        assert(t.contains(x));
        let s2 = s.drop_last();
        let t2 = t.remove(i);
        assert(s2.push(x) =~= s);
        assert(s2.to_multiset() =~= s.to_multiset().remove(x));
        lemma_words_permute(data, s2, t2);
        assert(words_of(data, s) =~= words_of(data, s2).push(word(data, x)));
        assert(words_of(data, t).remove(i) =~= words_of(data, t2));
        assert(words_of(data, t)[i] == word(data, x));
        assert(words_of(data, t).to_multiset().count(word(data, x)) > 0) by {
            assert(words_of(data, t).contains(word(data, x)));
        }
        assert(words_of(data, s).to_multiset() =~= words_of(data, t).to_multiset());
    } else {
        assert(words_of(data, s) =~= words_of(data, t));
    }
}

/// A permutation has the same members.
pub proof fn lemma_permuted<A>(s: Seq<A>, t: Seq<A>)
    requires
        s.to_multiset() == t.to_multiset(),
    ensures
        s.len() == t.len(),
        forall|x: A| s.contains(x) <==> #[trigger] t.contains(x),
        s.no_duplicates() ==> t.no_duplicates(),
{
    broadcast use group_to_multiset_ensures;

    assert(s.len() == s.to_multiset().len());
    assert(t.len() == t.to_multiset().len());
    assert forall|x: A| s.contains(x) <==> #[trigger] t.contains(x) by {
        to_multiset_contains(s, x);
        to_multiset_contains(t, x);
    }
    if s.no_duplicates() {
        s.lemma_multiset_has_no_duplicates();
        t.lemma_multiset_has_no_duplicates_conv();
    }
}

/// Validity does not depend on the order.
pub proof fn lemma_valid_permuted(data: Seq<u8>, s: Seq<Entry>, t: Seq<Entry>)
    requires
        s.to_multiset() == t.to_multiset(),
        all_valid(data, s),
    ensures
        all_valid(data, t),
{
    lemma_permuted(s, t);
    assert forall|i: int| 0 <= i < t.len() implies valid(data, #[trigger] t[i]) by {
        assert(t.contains(t[i]));
        assert(s.contains(t[i]));
    }
}

// ---------------------------------------------------------------------------
// Sorting
// ---------------------------------------------------------------------------

/// Bytes saved by replacing an entry's word, seen `num` times, with `k` bytes.
pub fn saved(e: &Entry, k: usize) -> (r: u128)
    requires
        1 <= k <= 2,
        3 <= e.len <= 40,
    ensures
        r == saves(*e, k as int),
{
    assert(0 <= (e.len - k) * e.num <= 40 * 0xffff_ffff_ffff_ffff) by (nonlinear_arith)
        requires
            1 <= k <= 2,
            3 <= e.len <= 40,
            0 <= e.num <= 0xffff_ffff_ffff_ffff,
    ;
    (e.len - k) as u128 * e.num as u128
}

fn in_order(data: &[u8], key: Key, a: &Entry, b: &Entry) -> (r: bool)
    requires
        valid(data@, *a),
        valid(data@, *b),
    ensures
        r == ordered(data@, key, *a, *b),
{
    let n: usize = data.len();
    assert(a.start + a.len <= n && b.start + b.len <= n);
    if key != Key::Word {
        let k: usize = if key == Key::Pair {
            2
        } else {
            1
        };
        let (x, y) = (saved(a, k), saved(b, k));
        if x != y {
            return x > y;
        }
    }
    lex_at_most(&data[a.start..a.start + a.len], &data[b.start..b.start + b.len])
}

proof fn lemma_insert_left(a: Multiset<Entry>, b: Multiset<Entry>, e: Entry)
    ensures
        a.insert(e).add(b) == a.add(b).insert(e),
        a.add(b.insert(e)) == a.add(b).insert(e),
{
    broadcast use vstd::multiset::group_multiset_axioms;

    assert(a.insert(e).add(b) =~= a.add(b).insert(e));
    assert(a.add(b.insert(e)) =~= a.add(b).insert(e));
}

fn merge(data: &[u8], key: Key, a: &Vec<Entry>, b: &Vec<Entry>) -> (r: Vec<Entry>)
    requires
        all_valid(data@, a@),
        all_valid(data@, b@),
        sorted(data@, key, a@),
        sorted(data@, key, b@),
    ensures
        sorted(data@, key, r@),
        r@.to_multiset() == (a@ + b@).to_multiset(),
{
    let mut r: Vec<Entry> = Vec::new();
    let mut i: usize = 0;
    let mut j: usize = 0;
    let ghost d = data@;
    assert(a@.take(0) =~= Seq::empty());
    assert(b@.take(0) =~= Seq::empty());
    assert(r@ =~= a@.take(0) + b@.take(0));
    while i < a.len() || j < b.len()
        invariant
            d == data@,
            i <= a@.len(),
            j <= b@.len(),
            all_valid(d, a@),
            all_valid(d, b@),
            sorted(d, key, a@),
            sorted(d, key, b@),
            sorted(d, key, r@),
            r@.to_multiset() == (a@.take(i as int) + b@.take(j as int)).to_multiset(),
            forall|x: int, y: int|
                0 <= x < r@.len() && i <= y < a@.len() ==> ordered(
                    d,
                    key,
                    #[trigger] r@[x],
                    #[trigger] a@[y],
                ),
            forall|x: int, y: int|
                0 <= x < r@.len() && j <= y < b@.len() ==> ordered(
                    d,
                    key,
                    #[trigger] r@[x],
                    #[trigger] b@[y],
                ),
        decreases a@.len() - i + b@.len() - j,
    {
        let from_a: bool = if i >= a.len() {
            false
        } else if j >= b.len() {
            true
        } else {
            in_order(data, key, &a[i], &b[j])
        };
        let ghost was = r@;
        let ghost (pa, pb) = (a@.take(i as int), b@.take(j as int));
        proof {
            lemma_multiset_commutative(pa, pb);
            if i < a@.len() && j < b@.len() {
                lemma_ordered_total(d, key, a@[i as int], b@[j as int]);
            }
        }
        if from_a {
            let e = a[i];
            r.push(e);
            proof {
                assert(a@.take(i + 1) =~= pa.push(e));
                lemma_multiset_commutative(pa.push(e), pb);
                to_multiset_build(pa, e);
                to_multiset_build(was, e);
                lemma_insert_left(pa.to_multiset(), pb.to_multiset(), e);
                assert(r@.to_multiset() =~= (a@.take(i + 1) + pb).to_multiset());
                assert forall|y: int| j <= y < b@.len() implies ordered(
                    d,
                    key,
                    e,
                    #[trigger] b@[y],
                ) by {
                    if y > j {
                        lemma_ordered_transitive(d, key, e, b@[j as int], b@[y]);
                    }
                }
            }
            i = i + 1;
        } else {
            let e = b[j];
            r.push(e);
            proof {
                assert(b@.take(j + 1) =~= pb.push(e));
                lemma_multiset_commutative(pa, pb.push(e));
                to_multiset_build(pb, e);
                to_multiset_build(was, e);
                lemma_insert_left(pa.to_multiset(), pb.to_multiset(), e);
                assert(r@.to_multiset() =~= (pa + b@.take(j + 1)).to_multiset());
                assert forall|y: int| i <= y < a@.len() implies ordered(
                    d,
                    key,
                    e,
                    #[trigger] a@[y],
                ) by {
                    if y > i {
                        lemma_ordered_transitive(d, key, e, a@[i as int], a@[y]);
                    }
                }
            }
            j = j + 1;
        }
        assert forall|x: int, y: int| 0 <= x < y < r@.len() implies ordered(
            d,
            key,
            #[trigger] r@[x],
            #[trigger] r@[y],
        ) by {
            if y == was.len() {
                assert(r@[x] == was[x]);
            }
        }
    }
    assert(a@.take(a@.len() as int) =~= a@);
    assert(b@.take(b@.len() as int) =~= b@);
    r
}

/// The entries `lo .. hi` in order.
pub fn sort_range(data: &[u8], key: Key, v: &Vec<Entry>, lo: usize, hi: usize) -> (r: Vec<Entry>)
    requires
        lo <= hi <= v@.len(),
        all_valid(data@, v@),
    ensures
        sorted(data@, key, r@),
        r@.to_multiset() == v@.subrange(lo as int, hi as int).to_multiset(),
        all_valid(data@, r@),
    decreases hi - lo,
{
    let n: usize = hi - lo;
    let ghost part = v@.subrange(lo as int, hi as int);
    assert(all_valid(data@, part));
    if n == 0 {
        let r: Vec<Entry> = Vec::new();
        assert(r@ =~= part);
        return r;
    }
    if n == 1 {
        let mut r: Vec<Entry> = Vec::new();
        r.push(v[lo]);
        assert(r@ =~= part);
        return r;
    }
    let mid: usize = lo + n / 2;
    let a = sort_range(data, key, v, lo, mid);
    let b = sort_range(data, key, v, mid, hi);
    let r = merge(data, key, &a, &b);
    proof {
        let (x, y) = (v@.subrange(lo as int, mid as int), v@.subrange(mid as int, hi as int));
        assert(x + y =~= part);
        lemma_multiset_commutative(x, y);
        lemma_multiset_commutative(a@, b@);
        lemma_valid_permuted(data@, part, r@);
    }
    r
}

} // verus!
