//! Probabilities that a frame derives from its own statistics.
use vstd::prelude::*;

use crate::binary64::{signed_greater, Binary64, Dyadic};
use crate::common::{flat_table, slot, TokenProbTables};
use crate::cost::{total_branch_bit_cost, total_branch_cost};
use crate::tables::coeff_probs::{
    default_prob_at, default_probs, default_tables, lemma_default_probs_positive,
};
use crate::tables::update_probs::{
    lemma_update_probs_positive, update_flag_prob_at, update_flag_probs,
};
use crate::tokens::TokenCounts;

verus! {

/// `false_count / total` as a probability out of 256, rounded to nearest and
/// kept away from the values that a byte or the coder cannot hold.
pub open spec fn probability(false_count: int, total: int) -> u8 {
    let scaled = (256 * false_count + total / 2) / total;
    if scaled < 1 {
        1
    } else if scaled > 255 {
        255
    } else {
        scaled as u8
    }
}

/// Probability that a flag is false which is true `skipped` times out of `total`.
pub open spec fn skip_prob(skipped: int, total: int) -> u8 {
    if total == 0 {
        128
    } else {
        probability(total - skipped, total)
    }
}

/// Probability that a flag is false which is true `skipped` times out of `total`.
pub fn skip_probability(skipped: u32, total: u32) -> (prob: u8)
    requires
        skipped <= total,
    ensures
        prob == skip_prob(skipped as int, total as int),
        prob >= 1,
{
    if total == 0 {
        return 128;
    }
    let not_skipped: u64 = (total - skipped) as u64;
    let scaled: u64 = (256 * not_skipped + total as u64 / 2) / total as u64;
    if scaled < 1 {
        1
    } else if scaled > 255 {
        255
    } else {
        scaled as u8
    }
}

/// Fewest observations from which a probability is estimated.
pub const MIN_TOKEN_PROB_OBSERVATIONS: u64 = 20;

/// Extra cost of signalling an update instead of none: the new value takes
/// eight bits, and the update flag is true instead of false.
pub open spec fn update_overhead(flag_prob: u8) -> (bool, Dyadic) {
    Dyadic::of(8).plus(total_branch_cost(0, 1, flag_prob)).minus(
        total_branch_cost(1, 0, flag_prob),
    )
}

/// Bits that coding the observed branches with another probability saves.
pub open spec fn savings(false_count: u64, true_count: u64, from: u8, to: u8) -> (bool, Dyadic) {
    total_branch_cost(false_count, true_count, from).minus(
        total_branch_cost(false_count, true_count, to),
    )
}

/// Probability of a branch that was seen a number of times each way: the
/// estimate from the counts when it saves more than signalling it costs, the
/// default otherwise.
pub open spec fn updated_prob(
    false_count: u64,
    true_count: u64,
    default_prob: u8,
    flag_prob: u8,
) -> u8 {
    let total = false_count + true_count;
    let candidate = probability(false_count as int, total);
    if total >= MIN_TOKEN_PROB_OBSERVATIONS && candidate != default_prob && signed_greater(
        savings(false_count, true_count, default_prob, candidate),
        update_overhead(flag_prob),
    ) {
        candidate
    } else {
        default_prob
    }
}

/// Token probabilities for a frame with given branch counts.
pub open spec fn updated_probs(counts: Seq<u64>) -> Seq<u8> {
    Seq::new(
        1056,
        |n: int|
            updated_prob(
                counts[2 * n],
                counts[2 * n + 1],
                default_probs()[n],
                update_flag_probs()[n],
            ),
    )
}

/// Entry of a table at a flat position.
pub fn prob_at(table: &TokenProbTables, n: usize) -> (prob: u8)
    requires
        n < 1056,
    ensures
        prob == flat_table(*table)[n as int],
{
    table[n / 264][n / 33 % 8][n / 11 % 3][n % 11]
}

fn set_entry(table: &mut TokenProbTables, i: usize, j: usize, k: usize, l: usize, prob: u8)
    requires
        i < 4,
        j < 8,
        k < 3,
        l < 11,
    ensures
        forall|a: int, b: int, c: int, d: int|
            0 <= a < 4 && 0 <= b < 8 && 0 <= c < 3 && 0 <= d < 11
                ==> #[trigger] final(table)[a][b][c][d] == if a == i && b == j && c == k && d == l {
                prob
            } else {
                old(table)[a][b][c][d]
            },
{
    table[i][j][k][l] = prob;
}

fn set_prob(table: &mut TokenProbTables, n: usize, prob: u8)
    requires
        n < 1056,
    ensures
        flat_table(*final(table)) == flat_table(*old(table)).update(n as int, prob),
{
    let ghost before = *table;
    set_entry(table, n / 264, n / 33 % 8, n / 11 % 3, n % 11, prob);
    proof {
        lemma_flat_position(n as int);
        assert forall|m: int| 0 <= m < 1056 implies #[trigger] flat_table(*table)[m] == flat_table(
            before,
        ).update(n as int, prob)[m] by {
            lemma_flat_position(m);
        }
        assert(flat_table(*table) =~= flat_table(before).update(n as int, prob));
    }
}

/// A flat position follows from its four parts.
proof fn lemma_flat_position(n: int)
    requires
        0 <= n < 1056,
    ensures
        0 <= n / 264 < 4,
        0 <= n / 33 % 8 < 8,
        0 <= n / 11 % 3 < 3,
        0 <= n % 11 < 11,
        n == slot(n / 264, n / 33 % 8, n / 11 % 3, n % 11),
{
}

/// Counts of a branch that its estimate can be computed from.
pub open spec fn countable(false_count: u64, true_count: u64) -> bool {
    &&& false_count + true_count <= u64::MAX
    &&& 256 * false_count + (false_count + true_count) / 2 <= u64::MAX
}

fn choose_prob(false_count: u64, true_count: u64, default_prob: u8, flag_prob: u8) -> (prob: u8)
    requires
        countable(false_count, true_count),
        default_prob >= 1,
        flag_prob >= 1,
    ensures
        prob == updated_prob(false_count, true_count, default_prob, flag_prob),
{
    let total: u64 = false_count + true_count;
    if total < MIN_TOKEN_PROB_OBSERVATIONS {
        return default_prob;
    }
    let scaled: u64 = (256 * false_count + total / 2) / total;
    let candidate_prob: u8 = if scaled < 1 {
        1
    } else if scaled > 255 {
        255
    } else {
        scaled as u8
    };
    if candidate_prob == default_prob {
        return default_prob;
    }
    let bits_with_default = total_branch_bit_cost(false_count, true_count, default_prob);
    let bits_with_candidate = total_branch_bit_cost(false_count, true_count, candidate_prob);
    let saved = bits_with_default.sub(bits_with_candidate);
    let flag_cost_true = total_branch_bit_cost(0, 1, flag_prob);
    let flag_cost_false = total_branch_bit_cost(1, 0, flag_prob);
    let overhead = Binary64::from_u64(8).add(flag_cost_true).sub(flag_cost_false);
    if Binary64::signed_gt(saved, overhead) {
        candidate_prob
    } else {
        default_prob
    }
}

/// Token probabilities for a frame with given branch counts.
pub fn derive_updated_token_probs(counts: &TokenCounts) -> (probs: TokenProbTables)
    requires
        forall|n: int| 0 <= n < 1056 ==> countable(#[trigger] counts@[2 * n], counts@[2 * n + 1]),
    ensures
        flat_table(probs) == updated_probs(counts@),
{
    let mut probs: TokenProbTables = default_tables();
    let mut n: usize = 0;
    while n < 1056
        invariant
            n <= 1056,
            forall|n: int|
                0 <= n < 1056 ==> countable(#[trigger] counts@[2 * n], counts@[2 * n + 1]),
            forall|m: int|
                0 <= m < 1056 ==> #[trigger] flat_table(probs)[m] == if m < n {
                    updated_probs(counts@)[m]
                } else {
                    default_probs()[m]
                },
        decreases 1056 - n,
    {
        proof {
            assert(countable(counts@[2 * (n as int)], counts@[2 * n + 1]));
            lemma_default_probs_positive(n as int);
            lemma_update_probs_positive(n as int);
        }
        let prob: u8 = choose_prob(
            counts[2 * n],
            counts[2 * n + 1],
            default_prob_at(n),
            update_flag_prob_at(n),
        );
        set_prob(&mut probs, n, prob);
        n = n + 1;
    }
    assert(flat_table(probs) =~= updated_probs(counts@));
    probs
}

} // verus!
