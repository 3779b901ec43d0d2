//! Probabilities of the flags that announce a new token probability.
use vstd::prelude::*;

use crate::common::{flat_table, table_at, TokenProbTables};

verus! {

/// Probability that the header flag announcing a new value for the matching
/// entry of [`COEFF_PROBS`] is false.
pub const COEFF_UPDATE_PROBS: TokenProbTables = [
    [
        [
            [255, 255, 255, 255, 255, 255, 255, 255, 255, 255, 255],
            [255, 255, 255, 255, 255, 255, 255, 255, 255, 255, 255],
            [255, 255, 255, 255, 255, 255, 255, 255, 255, 255, 255],
        ],
        [
            [176, 246, 255, 255, 255, 255, 255, 255, 255, 255, 255],
            [223, 241, 252, 255, 255, 255, 255, 255, 255, 255, 255],
            [249, 253, 253, 255, 255, 255, 255, 255, 255, 255, 255],
        ],
        [
            [255, 244, 252, 255, 255, 255, 255, 255, 255, 255, 255],
            [234, 254, 254, 255, 255, 255, 255, 255, 255, 255, 255],
            [253, 255, 255, 255, 255, 255, 255, 255, 255, 255, 255],
        ],
        [
            [255, 246, 254, 255, 255, 255, 255, 255, 255, 255, 255],
            [239, 253, 254, 255, 255, 255, 255, 255, 255, 255, 255],
            [254, 255, 254, 255, 255, 255, 255, 255, 255, 255, 255],
        ],
        [
            [255, 248, 254, 255, 255, 255, 255, 255, 255, 255, 255],
            [251, 255, 254, 255, 255, 255, 255, 255, 255, 255, 255],
            [255, 255, 255, 255, 255, 255, 255, 255, 255, 255, 255],
        ],
        [
            [255, 253, 254, 255, 255, 255, 255, 255, 255, 255, 255],
            [251, 254, 254, 255, 255, 255, 255, 255, 255, 255, 255],
            [254, 255, 254, 255, 255, 255, 255, 255, 255, 255, 255],
        ],
        [
            [255, 254, 253, 255, 254, 255, 255, 255, 255, 255, 255],
            [250, 255, 254, 255, 254, 255, 255, 255, 255, 255, 255],
            [254, 255, 255, 255, 255, 255, 255, 255, 255, 255, 255],
        ],
        [
            [255, 255, 255, 255, 255, 255, 255, 255, 255, 255, 255],
            [255, 255, 255, 255, 255, 255, 255, 255, 255, 255, 255],
            [255, 255, 255, 255, 255, 255, 255, 255, 255, 255, 255],
        ],
    ],
    [
        [
            [217, 255, 255, 255, 255, 255, 255, 255, 255, 255, 255],
            [225, 252, 241, 253, 255, 255, 254, 255, 255, 255, 255],
            [234, 250, 241, 250, 253, 255, 253, 254, 255, 255, 255],
        ],
        [
            [255, 254, 255, 255, 255, 255, 255, 255, 255, 255, 255],
            [223, 254, 254, 255, 255, 255, 255, 255, 255, 255, 255],
            [238, 253, 254, 254, 255, 255, 255, 255, 255, 255, 255],
        ],
        [
            [255, 248, 254, 255, 255, 255, 255, 255, 255, 255, 255],
            [249, 254, 255, 255, 255, 255, 255, 255, 255, 255, 255],
            [255, 255, 255, 255, 255, 255, 255, 255, 255, 255, 255],
        ],
        [
            [255, 253, 255, 255, 255, 255, 255, 255, 255, 255, 255],
            [247, 254, 255, 255, 255, 255, 255, 255, 255, 255, 255],
            [255, 255, 255, 255, 255, 255, 255, 255, 255, 255, 255],
        ],
        [
            [255, 253, 254, 255, 255, 255, 255, 255, 255, 255, 255],
            [252, 255, 255, 255, 255, 255, 255, 255, 255, 255, 255],
            [255, 255, 255, 255, 255, 255, 255, 255, 255, 255, 255],
        ],
        [
            [255, 254, 254, 255, 255, 255, 255, 255, 255, 255, 255],
            [253, 255, 255, 255, 255, 255, 255, 255, 255, 255, 255],
            [255, 255, 255, 255, 255, 255, 255, 255, 255, 255, 255],
        ],
        [
            [255, 254, 253, 255, 255, 255, 255, 255, 255, 255, 255],
            [250, 255, 255, 255, 255, 255, 255, 255, 255, 255, 255],
            [254, 255, 255, 255, 255, 255, 255, 255, 255, 255, 255],
        ],
        [
            [255, 255, 255, 255, 255, 255, 255, 255, 255, 255, 255],
            [255, 255, 255, 255, 255, 255, 255, 255, 255, 255, 255],
            [255, 255, 255, 255, 255, 255, 255, 255, 255, 255, 255],
        ],
    ],
    [
        [
            [186, 251, 250, 255, 255, 255, 255, 255, 255, 255, 255],
            [234, 251, 244, 254, 255, 255, 255, 255, 255, 255, 255],
            [251, 251, 243, 253, 254, 255, 254, 255, 255, 255, 255],
        ],
        [
            [255, 253, 254, 255, 255, 255, 255, 255, 255, 255, 255],
            [236, 253, 254, 255, 255, 255, 255, 255, 255, 255, 255],
            [251, 253, 253, 254, 254, 255, 255, 255, 255, 255, 255],
        ],
        [
            [255, 254, 254, 255, 255, 255, 255, 255, 255, 255, 255],
            [254, 254, 254, 255, 255, 255, 255, 255, 255, 255, 255],
            [255, 255, 255, 255, 255, 255, 255, 255, 255, 255, 255],
        ],
        [
            [255, 254, 255, 255, 255, 255, 255, 255, 255, 255, 255],
            [254, 254, 255, 255, 255, 255, 255, 255, 255, 255, 255],
            [254, 255, 255, 255, 255, 255, 255, 255, 255, 255, 255],
        ],
        [
            [255, 255, 255, 255, 255, 255, 255, 255, 255, 255, 255],
            [254, 255, 255, 255, 255, 255, 255, 255, 255, 255, 255],
            [255, 255, 255, 255, 255, 255, 255, 255, 255, 255, 255],
        ],
        [
            [255, 255, 255, 255, 255, 255, 255, 255, 255, 255, 255],
            [255, 255, 255, 255, 255, 255, 255, 255, 255, 255, 255],
            [255, 255, 255, 255, 255, 255, 255, 255, 255, 255, 255],
        ],
        [
            [255, 255, 255, 255, 255, 255, 255, 255, 255, 255, 255],
            [255, 255, 255, 255, 255, 255, 255, 255, 255, 255, 255],
            [255, 255, 255, 255, 255, 255, 255, 255, 255, 255, 255],
        ],
        [
            [255, 255, 255, 255, 255, 255, 255, 255, 255, 255, 255],
            [255, 255, 255, 255, 255, 255, 255, 255, 255, 255, 255],
            [255, 255, 255, 255, 255, 255, 255, 255, 255, 255, 255],
        ],
    ],
    [
        [
            [248, 255, 255, 255, 255, 255, 255, 255, 255, 255, 255],
            [250, 254, 252, 254, 255, 255, 255, 255, 255, 255, 255],
            [248, 254, 249, 253, 255, 255, 255, 255, 255, 255, 255],
        ],
        [
            [255, 253, 253, 255, 255, 255, 255, 255, 255, 255, 255],
            [246, 253, 253, 255, 255, 255, 255, 255, 255, 255, 255],
            [252, 254, 251, 254, 254, 255, 255, 255, 255, 255, 255],
        ],
        [
            [255, 254, 252, 255, 255, 255, 255, 255, 255, 255, 255],
            [248, 254, 253, 255, 255, 255, 255, 255, 255, 255, 255],
            [253, 255, 254, 254, 255, 255, 255, 255, 255, 255, 255],
        ],
        [
            [255, 251, 254, 255, 255, 255, 255, 255, 255, 255, 255],
            [245, 251, 254, 255, 255, 255, 255, 255, 255, 255, 255],
            [253, 253, 254, 255, 255, 255, 255, 255, 255, 255, 255],
        ],
        [
            [255, 251, 253, 255, 255, 255, 255, 255, 255, 255, 255],
            [252, 253, 254, 255, 255, 255, 255, 255, 255, 255, 255],
            [255, 254, 255, 255, 255, 255, 255, 255, 255, 255, 255],
        ],
        [
            [255, 252, 255, 255, 255, 255, 255, 255, 255, 255, 255],
            [249, 255, 254, 255, 255, 255, 255, 255, 255, 255, 255],
            [255, 255, 254, 255, 255, 255, 255, 255, 255, 255, 255],
        ],
        [
            [255, 255, 253, 255, 255, 255, 255, 255, 255, 255, 255],
            [250, 255, 255, 255, 255, 255, 255, 255, 255, 255, 255],
            [255, 255, 255, 255, 255, 255, 255, 255, 255, 255, 255],
        ],
        [
            [255, 255, 255, 255, 255, 255, 255, 255, 255, 255, 255],
            [254, 255, 255, 255, 255, 255, 255, 255, 255, 255, 255],
            [255, 255, 255, 255, 255, 255, 255, 255, 255, 255, 255],
        ],
    ],
];

/// Probabilities of the flags that announce an update, as one sequence.
pub closed spec fn update_flag_probs() -> Seq<u8> {
    flat_table(COEFF_UPDATE_PROBS)
}

/// The sequence is the table.
pub proof fn lemma_update_flag_probs()
    ensures
        update_flag_probs() == flat_table(COEFF_UPDATE_PROBS),
{
}

/// No update probability is zero.
pub proof fn lemma_update_probs_positive(n: int)
    requires
        0 <= n < 1056,
    ensures
        update_flag_probs()[n] >= 1,
{
    assert(table_at(COEFF_UPDATE_PROBS, n) >= 1);
}

/// Probability of the flag that announces an update.
pub fn update_flag_prob_at(n: usize) -> (prob: u8)
    requires
        n < 1056,
    ensures
        prob == update_flag_probs()[n as int],
{
    COEFF_UPDATE_PROBS[n / 264][n / 33 % 8][n / 11 % 3][n % 11]
}

/// Sum of a row of the table: the first entry counts once, the second twice.
pub open spec fn row_sum(row: [u8; 11]) -> int {
    row[0] + 2 * row[1] + 3 * row[2] + 4 * row[3] + 5 * row[4] + 6 * row[5] + 7 * row[6]
        + 8 * row[7] + 9 * row[8] + 10 * row[9] + 11 * row[10]
}

/// Sums of the rows of the probabilities of updates of plane 0.
pub proof fn law_update_probabilities_add_up_0()
    ensures
        row_sum(COEFF_UPDATE_PROBS[0][0][0]) == 16830,
        row_sum(COEFF_UPDATE_PROBS[0][0][1]) == 16830,
        row_sum(COEFF_UPDATE_PROBS[0][0][2]) == 16830,
        row_sum(COEFF_UPDATE_PROBS[0][1][0]) == 16733,
        row_sum(COEFF_UPDATE_PROBS[0][1][1]) == 16761,
        row_sum(COEFF_UPDATE_PROBS[0][1][2]) == 16814,
        row_sum(COEFF_UPDATE_PROBS[0][2][0]) == 16799,
        row_sum(COEFF_UPDATE_PROBS[0][2][1]) == 16804,
        row_sum(COEFF_UPDATE_PROBS[0][2][2]) == 16828,
        row_sum(COEFF_UPDATE_PROBS[0][3][0]) == 16809,
        row_sum(COEFF_UPDATE_PROBS[0][3][1]) == 16807,
        row_sum(COEFF_UPDATE_PROBS[0][3][2]) == 16826,
        row_sum(COEFF_UPDATE_PROBS[0][4][0]) == 16813,
        row_sum(COEFF_UPDATE_PROBS[0][4][1]) == 16823,
        row_sum(COEFF_UPDATE_PROBS[0][4][2]) == 16830,
        row_sum(COEFF_UPDATE_PROBS[0][5][0]) == 16823,
        row_sum(COEFF_UPDATE_PROBS[0][5][1]) == 16821,
        row_sum(COEFF_UPDATE_PROBS[0][5][2]) == 16826,
        row_sum(COEFF_UPDATE_PROBS[0][6][0]) == 16817,
        row_sum(COEFF_UPDATE_PROBS[0][6][1]) == 16817,
        row_sum(COEFF_UPDATE_PROBS[0][6][2]) == 16829,
        row_sum(COEFF_UPDATE_PROBS[0][7][0]) == 16830,
        row_sum(COEFF_UPDATE_PROBS[0][7][1]) == 16830,
        row_sum(COEFF_UPDATE_PROBS[0][7][2]) == 16830,
{
}

/// Sums of the rows of the probabilities of updates of plane 1.
pub proof fn law_update_probabilities_add_up_1()
    ensures
        row_sum(COEFF_UPDATE_PROBS[1][0][0]) == 16792,
        row_sum(COEFF_UPDATE_PROBS[1][0][1]) == 16737,
        row_sum(COEFF_UPDATE_PROBS[1][0][2]) == 16705,
        row_sum(COEFF_UPDATE_PROBS[1][1][0]) == 16828,
        row_sum(COEFF_UPDATE_PROBS[1][1][1]) == 16793,
        row_sum(COEFF_UPDATE_PROBS[1][1][2]) == 16802,
        row_sum(COEFF_UPDATE_PROBS[1][2][0]) == 16813,
        row_sum(COEFF_UPDATE_PROBS[1][2][1]) == 16822,
        row_sum(COEFF_UPDATE_PROBS[1][2][2]) == 16830,
        row_sum(COEFF_UPDATE_PROBS[1][3][0]) == 16826,
        row_sum(COEFF_UPDATE_PROBS[1][3][1]) == 16820,
        row_sum(COEFF_UPDATE_PROBS[1][3][2]) == 16830,
        row_sum(COEFF_UPDATE_PROBS[1][4][0]) == 16823,
        row_sum(COEFF_UPDATE_PROBS[1][4][1]) == 16827,
        row_sum(COEFF_UPDATE_PROBS[1][4][2]) == 16830,
        row_sum(COEFF_UPDATE_PROBS[1][5][0]) == 16825,
        row_sum(COEFF_UPDATE_PROBS[1][5][1]) == 16828,
        row_sum(COEFF_UPDATE_PROBS[1][5][2]) == 16830,
        row_sum(COEFF_UPDATE_PROBS[1][6][0]) == 16822,
        row_sum(COEFF_UPDATE_PROBS[1][6][1]) == 16825,
        row_sum(COEFF_UPDATE_PROBS[1][6][2]) == 16829,
        row_sum(COEFF_UPDATE_PROBS[1][7][0]) == 16830,
        row_sum(COEFF_UPDATE_PROBS[1][7][1]) == 16830,
        row_sum(COEFF_UPDATE_PROBS[1][7][2]) == 16830,
{
}

/// Sums of the rows of the probabilities of updates of plane 2.
pub proof fn law_update_probabilities_add_up_2()
    ensures
        row_sum(COEFF_UPDATE_PROBS[2][0][0]) == 16738,
        row_sum(COEFF_UPDATE_PROBS[2][0][1]) == 16764,
        row_sum(COEFF_UPDATE_PROBS[2][0][2]) == 16762,
        row_sum(COEFF_UPDATE_PROBS[2][1][0]) == 16823,
        row_sum(COEFF_UPDATE_PROBS[2][1][1]) == 16804,
        row_sum(COEFF_UPDATE_PROBS[2][1][2]) == 16807,
        row_sum(COEFF_UPDATE_PROBS[2][2][0]) == 16825,
        row_sum(COEFF_UPDATE_PROBS[2][2][1]) == 16824,
        row_sum(COEFF_UPDATE_PROBS[2][2][2]) == 16830,
        row_sum(COEFF_UPDATE_PROBS[2][3][0]) == 16828,
        row_sum(COEFF_UPDATE_PROBS[2][3][1]) == 16827,
        row_sum(COEFF_UPDATE_PROBS[2][3][2]) == 16829,
        row_sum(COEFF_UPDATE_PROBS[2][4][0]) == 16830,
        row_sum(COEFF_UPDATE_PROBS[2][4][1]) == 16829,
        row_sum(COEFF_UPDATE_PROBS[2][4][2]) == 16830,
        row_sum(COEFF_UPDATE_PROBS[2][5][0]) == 16830,
        row_sum(COEFF_UPDATE_PROBS[2][5][1]) == 16830,
        row_sum(COEFF_UPDATE_PROBS[2][5][2]) == 16830,
        row_sum(COEFF_UPDATE_PROBS[2][6][0]) == 16830,
        row_sum(COEFF_UPDATE_PROBS[2][6][1]) == 16830,
        row_sum(COEFF_UPDATE_PROBS[2][6][2]) == 16830,
        row_sum(COEFF_UPDATE_PROBS[2][7][0]) == 16830,
        row_sum(COEFF_UPDATE_PROBS[2][7][1]) == 16830,
        row_sum(COEFF_UPDATE_PROBS[2][7][2]) == 16830,
{
}

/// Sums of the rows of the probabilities of updates of plane 3.
pub proof fn law_update_probabilities_add_up_3()
    ensures
        row_sum(COEFF_UPDATE_PROBS[3][0][0]) == 16823,
        row_sum(COEFF_UPDATE_PROBS[3][0][1]) == 16810,
        row_sum(COEFF_UPDATE_PROBS[3][0][2]) == 16795,
        row_sum(COEFF_UPDATE_PROBS[3][1][0]) == 16820,
        row_sum(COEFF_UPDATE_PROBS[3][1][1]) == 16811,
        row_sum(COEFF_UPDATE_PROBS[3][1][2]) == 16804,
        row_sum(COEFF_UPDATE_PROBS[3][2][0]) == 16819,
        row_sum(COEFF_UPDATE_PROBS[3][2][1]) == 16815,
        row_sum(COEFF_UPDATE_PROBS[3][2][2]) == 16821,
        row_sum(COEFF_UPDATE_PROBS[3][3][0]) == 16819,
        row_sum(COEFF_UPDATE_PROBS[3][3][1]) == 16809,
        row_sum(COEFF_UPDATE_PROBS[3][3][2]) == 16821,
        row_sum(COEFF_UPDATE_PROBS[3][4][0]) == 16816,
        row_sum(COEFF_UPDATE_PROBS[3][4][1]) == 16820,
        row_sum(COEFF_UPDATE_PROBS[3][4][2]) == 16828,
        row_sum(COEFF_UPDATE_PROBS[3][5][0]) == 16824,
        row_sum(COEFF_UPDATE_PROBS[3][5][1]) == 16821,
        row_sum(COEFF_UPDATE_PROBS[3][5][2]) == 16827,
        row_sum(COEFF_UPDATE_PROBS[3][6][0]) == 16824,
        row_sum(COEFF_UPDATE_PROBS[3][6][1]) == 16825,
        row_sum(COEFF_UPDATE_PROBS[3][6][2]) == 16830,
        row_sum(COEFF_UPDATE_PROBS[3][7][0]) == 16830,
        row_sum(COEFF_UPDATE_PROBS[3][7][1]) == 16829,
        row_sum(COEFF_UPDATE_PROBS[3][7][2]) == 16830,
{
}

} // verus!
