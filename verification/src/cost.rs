//! Rates, in bits, and the weight of rate against distortion.
use vstd::arithmetic::power2::lemma2_to64_rest;
use vstd::prelude::*;

use crate::arithmetic_encoder::{has_path, tree_encode_path, tree_path, plain_path};
use crate::binary64::{Binary64, Dyadic};
use crate::common::{IntraMode, Segment, KEYFRAME_BPRED_MODE_TREE};
use crate::tables::branch_costs::{branch_cost_bits, branch_cost_entry};
use crate::tables::mode_probs::{bpred_probs, bpred_probs_for};
use crate::transform::within;
use crate::trees::lemma_bpred_tree;

verus! {

/// Bit pattern of the double precision number nearest to 0.02.
pub const LAMBDA_SCALE: u64 = 0x3F94_7AE1_47AE_147B;

/// Rate of one coefficient.
pub open spec fn level_rate(c: i32) -> int {
    if c == 0 {
        0
    } else if c < 0 {
        1 - c
    } else {
        1 + c
    }
}

/// Rate of a block of coefficients: one for each that is not zero, and its magnitude.
pub open spec fn rate_of(coeffs: Seq<i32>) -> int
    decreases coeffs.len(),
{
    if coeffs.len() == 0 {
        0
    } else {
        rate_of(coeffs.drop_last()) + level_rate(coeffs.last())
    }
}

proof fn lemma_rate_prefix(coeffs: Seq<i32>, n: int)
    requires
        0 <= n <= coeffs.len(),
    ensures
        0 <= rate_of(coeffs.take(n)) <= rate_of(coeffs),
    decreases coeffs.len(),
{
    if n < coeffs.len() {
        lemma_rate_prefix(coeffs.drop_last(), n);
        assert(coeffs.drop_last().take(n) =~= coeffs.take(n));
    } else {
        assert(coeffs.take(n) =~= coeffs);
        if n > 0 {
            lemma_rate_prefix(coeffs.drop_last(), n - 1);
            assert(coeffs.drop_last().take(n - 1) =~= coeffs.drop_last());
        }
    }
}

/// Bound on the rate of coefficients of bounded magnitude.
pub proof fn lemma_rate_bound(coeffs: Seq<i32>, bound: int)
    requires
        bound >= 0,
        within(coeffs, bound),
    ensures
        0 <= rate_of(coeffs) <= coeffs.len() * (1 + bound),
    decreases coeffs.len(),
{
    if coeffs.len() > 0 {
        lemma_rate_bound(coeffs.drop_last(), bound);
        assert(coeffs.last() == coeffs[coeffs.len() - 1]);
        assert(coeffs.len() * (1 + bound) == (coeffs.len() - 1) * (1 + bound) + (1 + bound))
            by (nonlinear_arith);
    } else {
        assert(0 * (1 + bound) == 0);
    }
}

/// Cheap measure of the bits that a block of coefficients takes.
pub fn coeff_rate_estimate(coeffs: &[i32]) -> (rate: i64)
    requires
        forall|i: int| 0 <= i < coeffs@.len() ==> coeffs@[i] != i32::MIN,
        rate_of(coeffs@) <= i64::MAX,
    ensures
        rate == rate_of(coeffs@),
        rate >= 0,
{
    let mut rate: i64 = 0;
    let mut i: usize = 0;
    assert(coeffs@.take(0) =~= Seq::<i32>::empty());
    while i < coeffs.len()
        invariant
            i <= coeffs@.len(),
            forall|i: int| 0 <= i < coeffs@.len() ==> coeffs@[i] != i32::MIN,
            rate_of(coeffs@) <= i64::MAX,
            rate == rate_of(coeffs@.take(i as int)),
            rate >= 0,
        decreases coeffs@.len() - i,
    {
        let c: i32 = coeffs[i];
        proof {
            lemma_rate_prefix(coeffs@, i + 1);
            assert(coeffs@.take(i + 1).drop_last() =~= coeffs@.take(i as int));
        }
        if c != 0 {
            let magnitude: i32 = if c < 0 {
                -c
            } else {
                c
            };
            rate = rate + (1 + magnitude as i64);
        }
        i = i + 1;
    }
    assert(coeffs@.take(i as int) =~= coeffs@);
    rate
}

/// Cost of a branch that is false with probability `prob / 256`.
pub open spec fn branch_cost(prob: u8, branch_is_true: bool) -> Dyadic {
    if branch_is_true {
        Dyadic::of_bits(branch_cost_bits(256 - prob))
    } else {
        Dyadic::of_bits(branch_cost_bits(prob as int))
    }
}

/// Cost, in bits, of one branch.
pub fn branch_bit_cost(prob: u8, branch_is_true: bool) -> (bits: Binary64)
    ensures
        bits.wf(),
        bits@ == branch_cost(prob, branch_is_true),
        bits@.exp_in(-60, -43),
        prob > 0 ==> bits@.exp_in(-60, -49),
        prob > 0 ==> bits@.mant != 0,
{
    let n: usize = if branch_is_true {
        256 - prob as usize
    } else {
        prob as usize
    };
    Binary64::from_bits(branch_cost_entry(n))
}

/// Cost of a path of branches: their costs added up from the last to the first.
pub open spec fn path_cost(path: Seq<(bool, int)>, probabilities: Seq<u8>) -> Dyadic
    decreases path.len(),
{
    if path.len() == 0 {
        Dyadic::zero()
    } else {
        path_cost(path.drop_first(), probabilities).plus(
            branch_cost(probabilities[path[0].1], path[0].0),
        )
    }
}

/// Cost of coding `value` with a tree.
pub open spec fn tree_cost(tree: Seq<i8>, probabilities: Seq<u8>, value: i8) -> Dyadic {
    path_cost(tree_path(tree, value, 0), probabilities)
}

/// Cost, in bits, of coding `value` with a tree and the probabilities of its nodes.
pub fn tree_bit_cost(tree: &[i8], probabilities: &[u8], value: i8) -> (bits: Binary64)
    requires
        tree@.len() == probabilities@.len() * 2,
        tree@.len() <= 128,
        has_path(tree@, value, 0),
    ensures
        bits.wf(),
        bits@ == tree_cost(tree@, probabilities@, value),
        bits@.exp_in(-60, -43 + 2 * tree@.len()),
{
    let path = tree_encode_path(tree, value, 0);
    let ghost all = tree_path(tree@, value, 0);
    let mut bits = Binary64::zero();
    let mut i: usize = path.len();
    assert(all.skip(i as int) =~= Seq::<(bool, int)>::empty());
    while i > 0
        invariant
            i <= path@.len() <= tree@.len(),
            tree@.len() == probabilities@.len() * 2,
            tree@.len() <= 128,
            plain_path(path@) == all,
            forall|k: int| 0 <= k < path@.len() ==> 2 * (#[trigger] path@[k]).1 < tree@.len(),
            bits.wf(),
            bits@ == path_cost(all.skip(i as int), probabilities@),
            bits@.exp_in(-60, -43 + 2 * (path@.len() - i)),
        decreases i,
    {
        i = i - 1;
        let (branch_is_true, prob_index) = path[i];
        proof {
            assert(plain_path(path@)[i as int] == (path@[i as int].0, path@[i as int].1 as int));
            assert(all.skip(i as int).drop_first() =~= all.skip(i + 1));
            assert(2 * path@[i as int].1 < tree@.len());
        }
        bits = bits.add(branch_bit_cost(probabilities[prob_index], branch_is_true));
    }
    assert(all.skip(0) =~= all);
    bits
}

/// Cost of a sub-block mode next to the modes above it and to its left.
#[verifier::opaque]
pub open spec fn bpred_mode_cost(top: IntraMode, left: IntraMode, mode: IntraMode) -> Dyadic {
    tree_cost(
        KEYFRAME_BPRED_MODE_TREE@,
        bpred_probs(top, left),
        mode.code(),
    )
}

/// Cost, in bits, of signalling a sub-block mode.
pub fn bpred_mode_bit_cost(top: IntraMode, left: IntraMode, mode: IntraMode) -> (bits: Binary64)
    ensures
        bits.wf(),
        bits@ == bpred_mode_cost(top, left, mode),
        bits@.exp_in(-60, -7),
{
    let probs: [u8; 9] = bpred_probs_for(top, left);
    proof {
        reveal(bpred_mode_cost);
        lemma_bpred_tree(mode);
    }
    tree_bit_cost(&KEYFRAME_BPRED_MODE_TREE, &probs, mode.to_i8())
}

/// Weight of rate: 0.02 times the square of the quantiser step.
#[verifier::opaque]
pub open spec fn lambda_of(yac: i16) -> Dyadic {
    Dyadic::of_bits(LAMBDA_SCALE).times(Dyadic::of(yac as nat)).times(Dyadic::of(yac as nat))
}

/// Weight of rate against distortion in mode decision.
pub fn mode_decision_lambda(segment: &Segment) -> (lambda: Binary64)
    requires
        segment.yac >= 0,
    ensures
        lambda.wf(),
        lambda@ == lambda_of(segment.yac),
        lambda@.exp_in(-60, 80),
{
    proof {
        reveal(lambda_of);
    }
    let qstep = Binary64::from_u64(segment.yac as u64);
    Binary64::from_bits(LAMBDA_SCALE).mul(qstep).mul(qstep)
}

/// Distortion plus weighted rate.
#[verifier::opaque]
pub open spec fn lagrangian(distortion: int, lambda: Dyadic, rate: Dyadic) -> Dyadic {
    Dyadic::of(distortion as nat).plus(lambda.times(rate))
}

/// Distortion plus weighted rate.
pub fn lagrangian_cost(distortion: i64, lambda: Binary64, rate: Binary64) -> (cost: Binary64)
    requires
        distortion >= 0,
        lambda.wf(),
        lambda@.exp_in(-60, 80),
        rate.wf(),
        rate@.exp_in(-60, 100),
    ensures
        cost.wf(),
        cost@ == lagrangian(distortion as int, lambda@, rate@),
{
    proof {
        reveal(lagrangian);
    }
    Binary64::from_u64(distortion as u64).add(lambda.mul(rate))
}

/// Cost of a number of false and true branches with one probability.
pub open spec fn total_branch_cost(false_count: u64, true_count: u64, prob: u8) -> Dyadic {
    Dyadic::of(false_count as nat).times(branch_cost(prob, false)).plus(
        Dyadic::of(true_count as nat).times(branch_cost(prob, true)),
    )
}

/// Cost, in bits, of a number of false and true branches with one probability.
pub fn total_branch_bit_cost(false_count: u64, true_count: u64, prob: u8) -> (bits: Binary64)
    ensures
        bits.wf(),
        bits@ == total_branch_cost(false_count, true_count, prob),
        prob > 0 && false_count < 0x100_0000_0000_0000 && true_count < 0x100_0000_0000_0000
            ==> -60 <= bits@.exp <= 11,
        prob > 0 && (false_count >= 0x100_0000_0000_0000 || true_count >= 0x100_0000_0000_0000)
            ==> bits@.mant != 0 && -4 <= bits@.exp <= 19,
{
    proof {
        lemma2_to64_rest();
    }
    let false_bits = Binary64::from_u64(false_count).mul(branch_bit_cost(prob, false));
    let true_bits = Binary64::from_u64(true_count).mul(branch_bit_cost(prob, true));
    false_bits.add(true_bits)
}

} // verus!
