//! Little-endian integers and byte-slice helpers.
use vstd::arithmetic::power::*;
use vstd::prelude::*;

verus! {

/// The bytes in an optional vector.
pub open spec fn viewed(v: Option<Vec<u8>>) -> Option<Seq<u8>> {
    match v {
        Some(x) => Some(x@),
        None => None,
    }
}

/// The `k` low bytes of `v`, least significant first.
pub open spec fn le(v: nat, k: nat) -> Seq<u8>
    decreases k,
{
    if k == 0 {
        Seq::empty()
    } else {
        seq![(v % 256) as u8] + le(v / 256, (k - 1) as nat)
    }
}

/// The value of little-endian bytes.
pub open spec fn unle(b: Seq<u8>) -> nat
    decreases b.len(),
{
    if b.len() == 0 {
        0
    } else {
        (b[0] + 256 * unle(b.drop_first())) as nat
    }
}

/// The value of the `k` little-endian bytes at `at`.
pub open spec fn field(b: Seq<u8>, at: int, k: int) -> nat {
    unle(b.subrange(at, at + k))
}

/// `k` bytes hold a value below `256^k`.
pub proof fn lemma_unle_bound(b: Seq<u8>)
    ensures
        unle(b) < pow(256, b.len()),
    decreases b.len(),
{
    reveal(pow);
    if b.len() > 0 {
        lemma_unle_bound(b.drop_first());
        assert(pow(256, b.len()) == 256 * pow(256, (b.len() - 1) as nat));
    }
}

/// Numbers are stored with the least significant byte first: byte `i` counts multiples
/// of `256^i`.
pub proof fn least_significant_first(v: nat, k: nat, i: nat)
    requires
        i < k,
    ensures
        le(v, k).len() == k,
        le(v, k)[i as int] == v as int / pow(256, i) % 256,
    decreases k,
{
    lemma_pow_positive(256, i);
    let rest = le(v / 256, (k - 1) as nat);
    if k > 1 {
        least_significant_first(v / 256, (k - 1) as nat, 0);
    }
    reveal(pow);
    if i > 0 {
        let j = (i - 1) as nat;
        least_significant_first(v / 256, (k - 1) as nat, j);
        lemma_pow_positive(256, j);
        assert(pow(256, i) == 256 * pow(256, j));
        vstd::arithmetic::div_mod::lemma_div_denominator(v as int, 256, pow(256, j));
        assert(le(v, k)[i as int] == rest[j as int]);
    } else {
        assert(pow(256, 0) == 1);
    }
}

/// A value that fits in `k` bytes is read back as written.
pub proof fn le_round_trip(v: nat, k: nat)
    requires
        v < pow(256, k),
    ensures
        unle(le(v, k)) == v,
        le(v, k).len() == k,
    decreases k,
{
    reveal(pow);
    if k > 0 {
        assert(pow(256, k) == 256 * pow(256, (k - 1) as nat));
        le_round_trip(v / 256, (k - 1) as nat);
        assert(le(v, k).drop_first() =~= le(v / 256, (k - 1) as nat));
    }
}

/// Bytes are written as they were read.
pub proof fn unle_round_trip(b: Seq<u8>)
    ensures
        le(unle(b), b.len()) == b,
    decreases b.len(),
{
    if b.len() > 0 {
        let rest = b.drop_first();
        unle_round_trip(rest);
        let v = unle(b);
        assert(v % 256 == b[0] && v / 256 == unle(rest));
        assert(seq![b[0]] + rest =~= b);
    } else {
        assert(b =~= Seq::empty());
    }
}

/// The powers that matter for field widths.
pub proof fn lemma_widths()
    ensures
        pow(256, 2) == 0x1_0000,
        pow(256, 4) == 0x1_0000_0000,
        pow(256, 8) == 0x1_0000_0000_0000_0000,
{
    reveal_with_fuel(pow, 9);
}

/// Append the `k` low bytes of `v`.
pub fn push_le(out: &mut Vec<u8>, v: u64, k: usize)
    ensures
        final(out)@ == old(out)@ + le(v as nat, k as nat),
{
    let ghost start = out@;
    let mut v = v;
    let ghost v0 = v as nat;
    let mut i: usize = 0;
    assert(start + le(v0, k as nat) =~= out@ + le(v as nat, (k - i) as nat));
    while i < k
        invariant
            i <= k,
            out@ + le(v as nat, (k - i) as nat) == start + le(v0, k as nat),
        decreases k - i,
    {
        let ghost was = out@;
        out.push((v % 256) as u8);
        assert(was + le(v as nat, (k - i) as nat) =~= out@ + le(
            (v / 256) as nat,
            (k - i - 1) as nat,
        ));
        v = v / 256;
        i = i + 1;
    }
    assert(out@ + Seq::<u8>::empty() =~= out@);
}

/// Read the `k` little-endian bytes at `at`.
pub fn read_le(b: &[u8], at: usize, k: usize) -> (v: u64)
    requires
        at + k <= b@.len(),
        k <= 8,
    ensures
        v == field(b@, at as int, k as int),
        v < pow(256, k as nat),
{
    let ghost f = b@.subrange(at as int, at + k);
    let end: usize = b.len();
    let mut v: u64 = 0;
    let mut i: usize = k;
    proof {
        lemma_unle_bound(f);
        assert(f.skip(k as int) =~= Seq::empty());
        lemma_widths();
        if k < 8 {
            lemma_pow_strictly_increases(256, k as nat, 8);
        }
    }
    while i > 0
        invariant
            i <= k <= 8,
            at + k <= end == b@.len(),
            f == b@.subrange(at as int, at + k),
            v == unle(f.skip(i as int)),
            pow(256, 8) == 0x1_0000_0000_0000_0000,
        decreases i,
    {
        proof {
            let g = f.skip(i - 1);
            assert(g.drop_first() =~= f.skip(i as int));
            lemma_unle_bound(g);
            if g.len() < 8 {
                lemma_pow_strictly_increases(256, g.len(), 8);
            }
        }
        i = i - 1;
        v = v * 256 + b[at + i] as u64;
    }
    assert(f.skip(0) =~= f);
    v
}

/// Whether two byte slices are equal.
pub fn same_bytes(a: &[u8], b: &[u8]) -> (r: bool)
    ensures
        r == (a@ == b@),
{
    if a.len() != b.len() {
        return false;
    }
    let mut i: usize = 0;
    while i < a.len()
        invariant
            i <= a@.len() == b@.len(),
            forall|j: int| 0 <= j < i ==> a@[j] == b@[j],
        decreases a@.len() - i,
    {
        if a[i] != b[i] {
            return false;
        }
        i = i + 1;
    }
    assert(a@ =~= b@);
    true
}

} // verus!
