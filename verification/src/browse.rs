//! The order in which a directory is shown.
use vstd::prelude::*;
use vstd::utf8::*;
use crate::transform::order;

verus! {

/// A directory entry: whether it is a directory, and its name in lower case.
pub type Shown = (bool, Seq<char>);

/// The entries behind a slice.
pub open spec fn shown(items: Seq<(bool, String)>) -> Seq<Shown> {
    items.map_values(|x: (bool, String)| (x.0, x.1@))
}

/// Entry `i` is shown above entry `j`: directories first, then by name, and entries of
/// the same name in the order they came.
pub open spec fn above(items: Seq<Shown>, i: int, j: int) -> bool {
    let (a, b) = (items[i], items[j]);
    if a.0 != b.0 {
        a.0
    } else if encode_utf8(a.1) == encode_utf8(b.1) {
        i < j
    } else {
        order::lex_le(encode_utf8(a.1), encode_utf8(b.1))
    }
}

proof fn lemma_above_transitive(items: Seq<Shown>, i: int, j: int, k: int)
    requires
        above(items, i, j),
        above(items, j, k),
    ensures
        above(items, i, k),
{
    let (a, b, c) = (encode_utf8(items[i].1), encode_utf8(items[j].1), encode_utf8(items[k].1));
    if items[i].0 == items[j].0 && items[j].0 == items[k].0 {
        if a != b && b != c {
            order::lemma_lex_transitive(a, b, c);
            if a == c {
                order::lemma_lex_antisymmetric(a, b);
            }
        }
    }
}

proof fn lemma_above_total(items: Seq<Shown>, i: int, j: int)
    requires
        i != j,
    ensures
        above(items, i, j) || above(items, j, i),
{
    order::lemma_lex_total(encode_utf8(items[i].1), encode_utf8(items[j].1));
}

/// The indices in `r` stand in the order of their entries.
pub open spec fn in_order(items: Seq<Shown>, r: Seq<usize>) -> bool {
    forall|x: int, y: int|
        0 <= x < y < r.len() ==> above(items, #[trigger] r[x] as int, #[trigger] r[y] as int)
}

/// `r` holds the indices from `lo` to `hi` and no others.
pub open spec fn covers(r: Seq<usize>, lo: int, hi: int) -> bool {
    &&& r.len() == hi - lo
    &&& forall|x: int| 0 <= x < r.len() ==> lo <= #[trigger] r[x] < hi
    &&& forall|k: usize| lo <= k < hi ==> #[trigger] r.contains(k)
}

fn is_above(items: &Vec<(bool, String)>, i: usize, j: usize) -> (r: bool)
    requires
        i < items@.len(),
        j < items@.len(),
        i != j,
    ensures
        r == above(shown(items@), i as int, j as int),
{
    let a = &items[i];
    let b = &items[j];
    let (x, y) = (a.1.as_str().as_bytes(), b.1.as_str().as_bytes());
    if a.0 != b.0 {
        return a.0;
    }
    if order::lex_at_most(x, y) {
        proof {
            if order::lex_le(y@, x@) {
                order::lemma_lex_antisymmetric(x@, y@);
            }
            order::lemma_lex_reflexive(x@);
        }
        if order::lex_at_most(y, x) {
            i < j
        } else {
            true
        }
    } else {
        proof {
            order::lemma_lex_reflexive(x@);
        }
        false
    }
}

fn merge(
    items: &Vec<(bool, String)>,
    a: &Vec<usize>,
    b: &Vec<usize>,
    lo: usize,
    mid: usize,
    hi: usize,
) -> (r: Vec<usize>)
    requires
        lo <= mid <= hi <= items@.len(),
        covers(a@, lo as int, mid as int),
        covers(b@, mid as int, hi as int),
        in_order(shown(items@), a@),
        in_order(shown(items@), b@),
    ensures
        covers(r@, lo as int, hi as int),
        in_order(shown(items@), r@),
{
    let ghost s = shown(items@);
    let mut r: Vec<usize> = Vec::new();
    let mut i: usize = 0;
    let mut j: usize = 0;
    while i < a.len() || j < b.len()
        invariant
            s == shown(items@),
            lo <= mid <= hi <= items@.len(),
            covers(a@, lo as int, mid as int),
            covers(b@, mid as int, hi as int),
            in_order(s, a@),
            in_order(s, b@),
            in_order(s, r@),
            i <= a@.len(),
            j <= b@.len(),
            r@.len() == i + j,
            forall|x: int| 0 <= x < r@.len() ==> lo <= #[trigger] r@[x] < hi,
            forall|x: int| 0 <= x < i ==> r@.contains(#[trigger] a@[x]),
            forall|x: int| 0 <= x < j ==> r@.contains(#[trigger] b@[x]),
            forall|x: int, y: int|
                0 <= x < r@.len() && i <= y < a@.len() ==> above(
                    s,
                    #[trigger] r@[x] as int,
                    #[trigger] a@[y] as int,
                ),
            forall|x: int, y: int|
                0 <= x < r@.len() && j <= y < b@.len() ==> above(
                    s,
                    #[trigger] r@[x] as int,
                    #[trigger] b@[y] as int,
                ),
        decreases a@.len() - i + b@.len() - j,
    {
        let from_a: bool = if i >= a.len() {
            false
        } else if j >= b.len() {
            true
        } else {
            is_above(items, a[i], b[j])
        };
        let ghost was = r@;
        let k: usize = if from_a {
            a[i]
        } else {
            b[j]
        };
        proof {
            if i < a@.len() && j < b@.len() {
                lemma_above_total(s, a@[i as int] as int, b@[j as int] as int);
                assert forall|y: int| from_a && j < y < b@.len() implies above(
                    s,
                    k as int,
                    #[trigger] b@[y] as int,
                ) by {
                    lemma_above_transitive(s, k as int, b@[j as int] as int, b@[y] as int);
                }
                assert forall|y: int| !from_a && i < y < a@.len() implies above(
                    s,
                    k as int,
                    #[trigger] a@[y] as int,
                ) by {
                    lemma_above_transitive(s, k as int, a@[i as int] as int, a@[y] as int);
                }
            }
        }
        r.push(k);
        assert(r@[was.len() as int] == k);
        assert forall|v: usize| was.contains(v) implies #[trigger] r@.contains(v) by {
            let x = choose|x: int| 0 <= x < was.len() && was[x] == v;
            assert(r@[x] == v);
        }
        assert(r@.contains(k));
        if from_a {
            i = i + 1;
        } else {
            j = j + 1;
        }
    }
    assert forall|k: usize| lo <= k < hi implies #[trigger] r@.contains(k) by {
        if k < mid {
            assert(a@.contains(k));
        } else {
            assert(b@.contains(k));
        }
    }
    r
}

fn sort_range(items: &Vec<(bool, String)>, lo: usize, hi: usize) -> (r: Vec<usize>)
    requires
        lo <= hi <= items@.len(),
    ensures
        covers(r@, lo as int, hi as int),
        in_order(shown(items@), r@),
    decreases hi - lo,
{
    let mut r: Vec<usize> = Vec::new();
    if lo == hi {
        return r;
    }
    if hi - lo == 1 {
        r.push(lo);
        assert(r@[0] == lo);
        return r;
    }
    let mid: usize = lo + (hi - lo) / 2;
    let a = sort_range(items, lo, mid);
    let b = sort_range(items, mid, hi);
    merge(items, &a, &b, lo, mid, hi)
}

/// Directories are shown before files, and within each kind names ascend; entries of the
/// same name stay in the order they came in.
pub proof fn directories_come_first(items: Seq<Shown>, r: Seq<usize>, x: int, y: int)
    requires
        in_order(items, r),
        covers(r, 0, items.len() as int),
        0 <= x < y < r.len(),
    ensures
        ({
            let (a, b) = (items[r[x] as int], items[r[y] as int]);
            &&& b.0 ==> a.0
            &&& a.0 == b.0 ==> order::lex_le(encode_utf8(a.1), encode_utf8(b.1))
            &&& a == b ==> r[x] < r[y]
        }),
{
    assert(above(items, r[x] as int, r[y] as int));
    let a = items[r[x] as int];
    order::lemma_lex_reflexive(encode_utf8(a.1));
}

/// The order in which to show directory entries: the index of each, from top to bottom.
pub fn listing_order(items: &Vec<(bool, String)>) -> (r: Vec<usize>)
    ensures
        covers(r@, 0, items@.len() as int),
        in_order(shown(items@), r@),
{
    sort_range(items, 0, items.len())
}

} // verus!
