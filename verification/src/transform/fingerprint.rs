//! Chunk fingerprinting.
use vstd::prelude::*;

verus! {

/// FNV-1a 64-bit hash: starting from the offset basis, fold in each byte and
/// multiply by the prime.
pub open spec fn fnv1a(data: Seq<u8>) -> u64
    decreases data.len(),
{
    if data.len() == 0 {
        0xcbf29ce484222325
    } else {
        (fnv1a(data.drop_last()) ^ (data.last() as u64)).wrapping_mul(0x100000001b3)
    }
}

proof fn lemma_back(a: int, p: int, q: int)
    requires
        p * q == 887285111055 * 0x1_0000_0000_0000_0000 + 1,
        0 <= a < 0x1_0000_0000_0000_0000,
    ensures
        (a * p) % 0x1_0000_0000_0000_0000 * q % 0x1_0000_0000_0000_0000 == a,
{
    let m = 0x1_0000_0000_0000_0000int;
    vstd::arithmetic::div_mod::lemma_mul_mod_noop_left(a * p, q, m);
    assert(a * p * q == a + m * (a * 887285111055)) by (nonlinear_arith)
        requires
            p * q == 887285111055 * m + 1,
    ;
    vstd::arithmetic::div_mod::lemma_mod_multiples_vanish(a * 887285111055, a, m);
    assert((m * (a * 887285111055) + a) % m == a % m);
}

proof fn lemma_multiplied(a: u64, b: u64)
    requires
        a.wrapping_mul(0x100000001b3) == b.wrapping_mul(0x100000001b3),
    ensures
        a == b,
{
    let (p, q) = (0x100000001b3int, 0xce965057aff6957bint);
    assert(p * q == 887285111055 * 0x1_0000_0000_0000_0000 + 1);
    lemma_back(a as int, p, q);
    lemma_back(b as int, p, q);
}

proof fn lemma_joined(h: u64, g: u64, x: u64, y: u64)
    by (bit_vector)
    ensures
        h ^ x == g ^ x ==> h == g,
        h ^ x == h ^ y ==> x == y,
{
}

/// Chunks that differ in exactly one byte have different fingerprints.
pub proof fn one_byte_changes_the_fingerprint(s: Seq<u8>, t: Seq<u8>, i: int)
    requires
        s.len() == t.len(),
        0 <= i < s.len(),
        s[i] != t[i],
        forall|j: int| 0 <= j < s.len() && j != i ==> #[trigger] s[j] == t[j],
    ensures
        fnv1a(s) != fnv1a(t),
    decreases s.len(),
{
    let (a, b) = (s.drop_last(), t.drop_last());
    let (h, g) = (fnv1a(a), fnv1a(b));
    let (x, y) = (s.last() as u64, t.last() as u64);
    lemma_joined(h, g, x, y);
    if i == s.len() - 1 {
        assert(a =~= b);
    } else {
        one_byte_changes_the_fingerprint(a, b, i);
        assert(s[s.len() - 1] == t[s.len() - 1]);
    }
    if fnv1a(s) == fnv1a(t) {
        lemma_multiplied(h ^ x, g ^ y);
    }
}

/// FNV-1a 64-bit hash of a byte slice.
pub fn fingerprint(data: &[u8]) -> (h: u64)
    ensures
        h == fnv1a(data@),
{
    let mut h: u64 = 0xcbf29ce484222325;
    let mut i: usize = 0;
    assert(data@.take(0) =~= Seq::empty());
    while i < data.len()
        invariant
            i <= data@.len(),
            h == fnv1a(data@.take(i as int)),
        decreases data@.len() - i,
    {
        h = (h ^ (data[i] as u64)).wrapping_mul(0x100000001b3);
        assert(data@.take(i + 1).drop_last() =~= data@.take(i as int));
        i = i + 1;
    }
    assert(data@.take(data@.len() as int) =~= data@);
    h
}

} // verus!
