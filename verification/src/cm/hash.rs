//! Context hashing.
use vstd::prelude::*;

verus! {

/// Hashing multipliers: odd, with good avalanche.
pub const PR1: u32 = 0x9E37_79B1;

/// Second hashing multiplier.
pub const PR2: u32 = 0x85EB_CA77;

/// A running hash with one more byte folded in.
pub open spec fn fold_ctx(h: u32, b: u8) -> u32 {
    let m = (h ^ ((b + 1) as u32)).wrapping_mul(PR1);
    m ^ (m >> 15)
}

/// The hash of `bytes` continued from `h`.
pub open spec fn fold_all(h: u32, bytes: Seq<u8>) -> u32
    decreases bytes.len(),
{
    if bytes.len() == 0 {
        h
    } else {
        fold_ctx(fold_all(h, bytes.drop_last()), bytes.last())
    }
}

/// Starting value of a context hash with the given salt.
pub open spec fn salted(salt: u32) -> u32 {
    salt.wrapping_mul(PR1).wrapping_add(0x1234_5678)
}

/// Hash of a context, salted so that contexts of different models differ.
pub open spec fn hash_of(bytes: Seq<u8>, salt: u32) -> u32 {
    fold_all(salted(salt), bytes)
}

proof fn lemma_multiplied(a: u32, b: u32)
    requires
        a.wrapping_mul(PR1) == b.wrapping_mul(PR1),
    ensures
        a == b,
{
    let (m, p, q) = (0x1_0000_0000int, 0x9E37_79B1int, 0x0E8B_2F51int);
    assert(p * q == 150801925 * m + 1);
    lemma_back(a as int, p, q);
    lemma_back(b as int, p, q);
}

proof fn lemma_back(a: int, p: int, q: int)
    requires
        p * q == 150801925 * 0x1_0000_0000 + 1,
        0 <= a < 0x1_0000_0000,
    ensures
        (a * p) % 0x1_0000_0000 * q % 0x1_0000_0000 == a,
{
    let m = 0x1_0000_0000int;
    vstd::arithmetic::div_mod::lemma_mul_mod_noop_left(a * p, q, m);
    assert(a * p * q == a + m * (a * 150801925)) by (nonlinear_arith)
        requires
            p * q == 150801925 * m + 1,
    ;
    vstd::arithmetic::div_mod::lemma_mod_multiples_vanish(a * 150801925, a, m);
    assert((m * (a * 150801925) + a) % m == a % m);
}

proof fn lemma_mixed(a: u32, b: u32)
    by (bit_vector)
    requires
        a ^ (a >> 15) == b ^ (b >> 15),
    ensures
        a == b,
{
}

proof fn lemma_joined(h: u32, g: u32, x: u32, y: u32)
    by (bit_vector)
    ensures
        h ^ x == g ^ x ==> h == g,
        h ^ x == h ^ y ==> x == y,
{
}

/// Folding a byte in loses nothing: different hashes stay different, and different bytes
/// make them different.
proof fn lemma_fold_apart(h: u32, g: u32, x: u8, y: u8)
    ensures
        h != g ==> fold_ctx(h, x) != fold_ctx(g, x),
        x != y ==> fold_ctx(h, x) != fold_ctx(h, y),
{
    let (p, q) = ((x + 1) as u32, (y + 1) as u32);
    lemma_joined(h, g, p, q);
    if fold_ctx(h, x) == fold_ctx(g, x) {
        lemma_mixed((h ^ p).wrapping_mul(PR1), (g ^ p).wrapping_mul(PR1));
        lemma_multiplied(h ^ p, g ^ p);
    }
    if fold_ctx(h, x) == fold_ctx(h, y) {
        lemma_mixed((h ^ p).wrapping_mul(PR1), (h ^ q).wrapping_mul(PR1));
        lemma_multiplied(h ^ p, h ^ q);
    }
}

proof fn lemma_fold_all_apart(h: u32, s: Seq<u8>, t: Seq<u8>, i: int)
    requires
        s.len() == t.len(),
        0 <= i < s.len(),
        s[i] != t[i],
        forall|j: int| 0 <= j < s.len() && j != i ==> #[trigger] s[j] == t[j],
    ensures
        fold_all(h, s) != fold_all(h, t),
    decreases s.len(),
{
    let (a, b) = (s.drop_last(), t.drop_last());
    if i == s.len() - 1 {
        assert(a =~= b);
        lemma_fold_apart(fold_all(h, a), 0, s.last(), t.last());
    } else {
        lemma_fold_all_apart(h, a, b, i);
        assert(s.last() == t.last()) by {
            assert(s[s.len() - 1] == t[s.len() - 1]);
        }
        lemma_fold_apart(fold_all(h, a), fold_all(h, b), s.last(), s.last());
    }
}

/// One byte makes a difference: contexts that differ in exactly one byte, whichever, have
/// different hashes.
pub proof fn one_byte_makes_a_difference(s: Seq<u8>, t: Seq<u8>, salt: u32, i: int)
    requires
        s.len() == t.len(),
        0 <= i < s.len(),
        s[i] != t[i],
        forall|j: int| 0 <= j < s.len() && j != i ==> #[trigger] s[j] == t[j],
    ensures
        hash_of(s, salt) != hash_of(t, salt),
{
    lemma_fold_all_apart(salted(salt), s, t, i);
}

/// Fold one byte into a running hash.
pub fn fold(h: u32, b: u8) -> (r: u32)
    ensures
        r == fold_ctx(h, b),
{
    let m = (h ^ (b as u32 + 1)).wrapping_mul(PR1);
    m ^ (m >> 15)
}

/// Hash a context byte slice with a model-specific salt.
pub fn hash_ctx(bytes: &[u8], salt: u32) -> (r: u32)
    ensures
        r == hash_of(bytes@, salt),
{
    let mut h: u32 = salt.wrapping_mul(PR1).wrapping_add(0x1234_5678);
    let mut i: usize = 0;
    assert(bytes@.take(0) =~= Seq::empty());
    while i < bytes.len()
        invariant
            i <= bytes@.len(),
            h == fold_all(salted(salt), bytes@.take(i as int)),
        decreases bytes@.len() - i,
    {
        h = fold(h, bytes[i]);
        assert(bytes@.take(i + 1).drop_last() =~= bytes@.take(i as int));
        i = i + 1;
    }
    assert(bytes@.take(bytes@.len() as int) =~= bytes@);
    h
}

/// Masking never exceeds the mask.
pub proof fn lemma_mask(h: u32, m: u32)
    by (bit_vector)
    ensures
        h & m <= m,
{
}

} // verus!
