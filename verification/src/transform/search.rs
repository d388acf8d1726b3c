//! Search for the transform that makes a block cheapest.
use vstd::prelude::*;
use crate::analyzer::entropy;
use crate::transform::primitives;
use crate::transform::primitives::TransformOp;

verus! {

/// Bits that storing a transform costs, in the units of entropies.
pub const TRANSFORM_COST: u64 = 0x80_0000;

/// The transforms that are tried.
pub open spec fn candidate_ops() -> Seq<TransformOp> {
    seq![
        TransformOp::Delta { step: 0 },
        TransformOp::Xor { mask: 0xFF },
        TransformOp::Add { value: 128 },
        TransformOp::BitRotate { bits: 1 },
        TransformOp::BitRotate { bits: 4 },
        TransformOp::Shift { bytes: 1 },
        TransformOp::Interleave { stride: 2 },
        TransformOp::Interleave { stride: 4 },
    ]
}

/// The transforms that are tried. A transform's place in the list, counted from 1,
/// is its tag in an archive.
pub fn candidates() -> (r: [TransformOp; 8])
    ensures
        r@ == candidate_ops(),
{
    let r = [
        TransformOp::Delta { step: 0 },
        TransformOp::Xor { mask: 0xFF },
        TransformOp::Add { value: 128 },
        TransformOp::BitRotate { bits: 1 },
        TransformOp::BitRotate { bits: 4 },
        TransformOp::Shift { bytes: 1 },
        TransformOp::Interleave { stride: 2 },
        TransformOp::Interleave { stride: 4 },
    ];
    assert(r@ =~= candidate_ops());
    r
}

/// Every candidate can be undone on every block.
pub proof fn candidates_are_reversible(k: int, d: Seq<u8>)
    requires
        0 <= k < candidate_ops().len(),
    ensures
        candidate_ops()[k].inverted(candidate_ops()[k].applied(d)) == d,
        candidate_ops()[k].applied(d).len() == d.len(),
{
    primitives::invert_undoes_apply(candidate_ops()[k], d);
    primitives::apply_keeps_length(candidate_ops()[k], d);
}

/// Differences, mirrored bits, both rotations and both interleavings are among what is
/// tried.
pub proof fn what_is_tried(op: TransformOp)
    requires
        op == (TransformOp::Delta { step: 0 }) || op == (TransformOp::Xor { mask: 0xFF }) || op == (
        TransformOp::Add { value: 128 }) || op == (TransformOp::BitRotate { bits: 1 }) || op == (
        TransformOp::BitRotate { bits: 4 }) || op == (TransformOp::Shift { bytes: 1 }) || op == (
        TransformOp::Interleave { stride: 2 }) || op == (TransformOp::Interleave { stride: 4 }),
    ensures
        candidate_ops().contains(op),
        candidate_ops().len() == 8,
{
    let c = candidate_ops();
    assert(c[0] == (TransformOp::Delta { step: 0 }));
    assert(c[1] == (TransformOp::Xor { mask: 0xFF }));
    assert(c[2] == (TransformOp::Add { value: 128 }));
    assert(c[3] == (TransformOp::BitRotate { bits: 1 }));
    assert(c[4] == (TransformOp::BitRotate { bits: 4 }));
    assert(c[5] == (TransformOp::Shift { bytes: 1 }));
    assert(c[6] == (TransformOp::Interleave { stride: 2 }));
    assert(c[7] == (TransformOp::Interleave { stride: 4 }));
}

/// Bits that a transform saves on a block, by its entropy.
pub open spec fn gain(d: Seq<u8>, op: TransformOp) -> int {
    (entropy::entropy(d) - entropy::entropy(op.applied(d))) * d.len()
}

/// Candidate `k` saves most, more than it costs, and more than any before it.
pub open spec fn is_best(d: Seq<u8>, k: int) -> bool {
    let c = candidate_ops();
    &&& 0 <= k < c.len()
    &&& gain(d, c[k]) > TRANSFORM_COST
    &&& forall|j: int| 0 <= j < k ==> gain(d, #[trigger] c[j]) < gain(d, c[k])
    &&& forall|j: int| k <= j < c.len() ==> gain(d, #[trigger] c[j]) <= gain(d, c[k])
}

/// No candidate saves more than it costs.
pub open spec fn none_pays(d: Seq<u8>) -> bool {
    let c = candidate_ops();
    forall|j: int| 0 <= j < c.len() ==> gain(d, #[trigger] c[j]) <= TRANSFORM_COST
}

/// There is at most one best candidate.
pub proof fn best_is_unique(d: Seq<u8>, j: int, k: int)
    requires
        is_best(d, j),
        is_best(d, k),
    ensures
        j == k,
{
    let c = candidate_ops();
    assert(gain(d, c[j]) == gain(d, c[j]) && gain(d, c[k]) == gain(d, c[k]));
}

proof fn lemma_best_of(d: Seq<u8>, n: int) -> (k: int)
    requires
        1 <= n <= candidate_ops().len(),
    ensures
        0 <= k < n,
        forall|j: int| 0 <= j < k ==> gain(d, #[trigger] candidate_ops()[j]) < gain(d, candidate_ops()[k]),
        forall|j: int| k <= j < n ==> gain(d, #[trigger] candidate_ops()[j]) <= gain(d, candidate_ops()[k]),
    decreases n,
{
    if n == 1 {
        0
    } else {
        let k = lemma_best_of(d, n - 1);
        if gain(d, candidate_ops()[n - 1]) > gain(d, candidate_ops()[k]) {
            n - 1
        } else {
            k
        }
    }
}

/// There is a best candidate, unless none saves more than it costs.
pub proof fn best_exists(d: Seq<u8>)
    ensures
        none_pays(d) || exists|k: int| is_best(d, k),
{
    let k = lemma_best_of(d, candidate_ops().len() as int);
    if gain(d, candidate_ops()[k]) > TRANSFORM_COST {
        assert(is_best(d, k));
    } else {
        assert forall|j: int| 0 <= j < candidate_ops().len() implies gain(
            d,
            #[trigger] candidate_ops()[j],
        ) <= TRANSFORM_COST by {}
    }
}

/// No candidate is listed twice.
pub proof fn candidates_differ(j: int, k: int)
    requires
        0 <= j < candidate_ops().len(),
        0 <= k < candidate_ops().len(),
        candidate_ops()[j] == candidate_ops()[k],
    ensures
        j == k,
{
}

/// Apply a transform to a block of known entropy; also returns what it saves.
fn try_op(chunk: &[u8], op: TransformOp, e0: u64) -> (r: (Vec<u8>, i128))
    requires
        e0 == entropy::entropy(chunk@),
        e0 <= 0x1000_0000,
        !(op is Repeat),
    ensures
        r.0@ == op.applied(chunk@),
        r.1 == gain(chunk@, op),
{
    let n: usize = chunk.len();
    let mut t: Vec<u8> = Vec::new();
    t.extend_from_slice(chunk);
    assert(t@ =~= chunk@);
    op.apply(&mut t);
    let e1 = entropy::entropy_bits(t.as_slice());
    assert(-0x1000_0000 * n <= (e0 - e1) * n <= 0x1000_0000 * n) by (nonlinear_arith)
        requires
            -0x1000_0000 <= e0 - e1 <= 0x1000_0000,
            0 <= n,
    ;
    let g: i128 = (e0 as i128 - e1 as i128) * n as i128;
    (t, g)
}

/// Find the transform that saves most, with the transformed block; `None` if none
/// pays.
pub fn find_best_transform(chunk: &[u8]) -> (r: Option<(TransformOp, Vec<u8>)>)
    ensures
        match r {
            Some((op, t)) => {
                &&& exists|k: int| #[trigger] is_best(chunk@, k) && op == candidate_ops()[k]
                &&& t@ == op.applied(chunk@)
            },
            None => none_pays(chunk@),
        },
{
    let ghost d = chunk@;
    let ghost c = candidate_ops();
    let ops = candidates();
    let n: usize = chunk.len();
    let e0 = entropy::entropy_bits(chunk);
    let mut best_gain: i128 = TRANSFORM_COST as i128;
    let mut best: Option<(TransformOp, Vec<u8>)> = None;
    let ghost mut at: int = 0;
    let mut i: usize = 0;
    while i < 8
        invariant
            d == chunk@,
            c == candidate_ops(),
            ops@ == c,
            n == d.len(),
            e0 == entropy::entropy(d),
            e0 <= 0x1000_0000,
            i <= 8,
            best_gain >= TRANSFORM_COST,
            match best {
                Some((op, t)) => {
                    &&& 0 <= at < i
                    &&& op == c[at]
                    &&& t@ == op.applied(d)
                    &&& best_gain == gain(d, c[at]) > TRANSFORM_COST
                    &&& forall|j: int| 0 <= j < at ==> gain(d, #[trigger] c[j]) < best_gain
                    &&& forall|j: int| at <= j < i ==> gain(d, #[trigger] c[j]) <= best_gain
                },
                None => {
                    &&& best_gain == TRANSFORM_COST
                    &&& forall|j: int| 0 <= j < i ==> gain(d, #[trigger] c[j]) <= TRANSFORM_COST
                },
            },
        decreases 8 - i,
    {
        let op = ops[i];
        assert(op == c[i as int]);
        let (t, g) = try_op(chunk, op, e0);
        if g > best_gain {
            best_gain = g;
            best = Some((op, t));
            proof {
                at = i as int;
            }
        }
        i = i + 1;
    }
    proof {
        if best is Some {
            assert(is_best(d, at));
        }
    }
    best
}

/// Tag of a transform: its place in the list of candidates, counted from 1.
pub fn op_to_tag(op: TransformOp) -> (r: Option<u8>)
    ensures
        match r {
            Some(t) => 1 <= t <= 8 && candidate_ops()[t - 1] == op && forall|j: int|
                0 <= j < t - 1 ==> #[trigger] candidate_ops()[j] != op,
            None => forall|j: int| 0 <= j < 8 ==> #[trigger] candidate_ops()[j] != op,
        },
{
    let ops = candidates();
    let mut i: usize = 0;
    while i < 8
        invariant
            i <= 8,
            ops@ == candidate_ops(),
            forall|j: int| 0 <= j < i ==> #[trigger] candidate_ops()[j] != op,
        decreases 8 - i,
    {
        if ops[i] == op {
            return Some(i as u8 + 1);
        }
        i = i + 1;
    }
    None
}

} // verus!
