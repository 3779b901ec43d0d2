//! Default coefficient token probabilities.
use vstd::prelude::*;

use crate::common::{flat_table, table_at, TokenProbTables};

verus! {

/// Coefficient token probabilities a key frame decoder starts from, indexed
/// by plane, band, context and node of [`DCT_TOKEN_TREE`].
pub const COEFF_PROBS: TokenProbTables = [
    [
        [
            [128, 128, 128, 128, 128, 128, 128, 128, 128, 128, 128],
            [128, 128, 128, 128, 128, 128, 128, 128, 128, 128, 128],
            [128, 128, 128, 128, 128, 128, 128, 128, 128, 128, 128],
        ],
        [
            [253, 136, 254, 255, 228, 219, 128, 128, 128, 128, 128],
            [189, 129, 242, 255, 227, 213, 255, 219, 128, 128, 128],
            [106, 126, 227, 252, 214, 209, 255, 255, 128, 128, 128],
        ],
        [
            [1, 98, 248, 255, 236, 226, 255, 255, 128, 128, 128],
            [181, 133, 238, 254, 221, 234, 255, 154, 128, 128, 128],
            [78, 134, 202, 247, 198, 180, 255, 219, 128, 128, 128],
        ],
        [
            [1, 185, 249, 255, 243, 255, 128, 128, 128, 128, 128],
            [184, 150, 247, 255, 236, 224, 128, 128, 128, 128, 128],
            [77, 110, 216, 255, 236, 230, 128, 128, 128, 128, 128],
        ],
        [
            [1, 101, 251, 255, 241, 255, 128, 128, 128, 128, 128],
            [170, 139, 241, 252, 236, 209, 255, 255, 128, 128, 128],
            [37, 116, 196, 243, 228, 255, 255, 255, 128, 128, 128],
        ],
        [
            [1, 204, 254, 255, 245, 255, 128, 128, 128, 128, 128],
            [207, 160, 250, 255, 238, 128, 128, 128, 128, 128, 128],
            [102, 103, 231, 255, 211, 171, 128, 128, 128, 128, 128],
        ],
        [
            [1, 152, 252, 255, 240, 255, 128, 128, 128, 128, 128],
            [177, 135, 243, 255, 234, 225, 128, 128, 128, 128, 128],
            [80, 129, 211, 255, 194, 224, 128, 128, 128, 128, 128],
        ],
        [
            [1, 1, 255, 128, 128, 128, 128, 128, 128, 128, 128],
            [246, 1, 255, 128, 128, 128, 128, 128, 128, 128, 128],
            [255, 128, 128, 128, 128, 128, 128, 128, 128, 128, 128],
        ],
    ],
    [
        [
            [198, 35, 237, 223, 193, 187, 162, 160, 145, 155, 62],
            [131, 45, 198, 221, 172, 176, 220, 157, 252, 221, 1],
            [68, 47, 146, 208, 149, 167, 221, 162, 255, 223, 128],
        ],
        [
            [1, 149, 241, 255, 221, 224, 255, 255, 128, 128, 128],
            [184, 141, 234, 253, 222, 220, 255, 199, 128, 128, 128],
            [81, 99, 181, 242, 176, 190, 249, 202, 255, 255, 128],
        ],
        [
            [1, 129, 232, 253, 214, 197, 242, 196, 255, 255, 128],
            [99, 121, 210, 250, 201, 198, 255, 202, 128, 128, 128],
            [23, 91, 163, 242, 170, 187, 247, 210, 255, 255, 128],
        ],
        [
            [1, 200, 246, 255, 234, 255, 128, 128, 128, 128, 128],
            [109, 178, 241, 255, 231, 245, 255, 255, 128, 128, 128],
            [44, 130, 201, 253, 205, 192, 255, 255, 128, 128, 128],
        ],
        [
            [1, 132, 239, 251, 219, 209, 255, 165, 128, 128, 128],
            [94, 136, 225, 251, 218, 190, 255, 255, 128, 128, 128],
            [22, 100, 174, 245, 186, 161, 255, 199, 128, 128, 128],
        ],
        [
            [1, 182, 249, 255, 232, 235, 128, 128, 128, 128, 128],
            [124, 143, 241, 255, 227, 234, 128, 128, 128, 128, 128],
            [35, 77, 181, 251, 193, 211, 255, 205, 128, 128, 128],
        ],
        [
            [1, 157, 247, 255, 236, 231, 255, 255, 128, 128, 128],
            [121, 141, 235, 255, 225, 227, 255, 255, 128, 128, 128],
            [45, 99, 188, 251, 195, 217, 255, 224, 128, 128, 128],
        ],
        [
            [1, 1, 251, 255, 213, 255, 128, 128, 128, 128, 128],
            [203, 1, 248, 255, 255, 128, 128, 128, 128, 128, 128],
            [137, 1, 177, 255, 224, 255, 128, 128, 128, 128, 128],
        ],
    ],
    [
        [
            [253, 9, 248, 251, 207, 208, 255, 192, 128, 128, 128],
            [175, 13, 224, 243, 193, 185, 249, 198, 255, 255, 128],
            [73, 17, 171, 221, 161, 179, 236, 167, 255, 234, 128],
        ],
        [
            [1, 95, 247, 253, 212, 183, 255, 255, 128, 128, 128],
            [239, 90, 244, 250, 211, 209, 255, 255, 128, 128, 128],
            [155, 77, 195, 248, 188, 195, 255, 255, 128, 128, 128],
        ],
        [
            [1, 24, 239, 251, 218, 219, 255, 205, 128, 128, 128],
            [201, 51, 219, 255, 196, 186, 128, 128, 128, 128, 128],
            [69, 46, 190, 239, 201, 218, 255, 228, 128, 128, 128],
        ],
        [
            [1, 191, 251, 255, 255, 128, 128, 128, 128, 128, 128],
            [223, 165, 249, 255, 213, 255, 128, 128, 128, 128, 128],
            [141, 124, 248, 255, 255, 128, 128, 128, 128, 128, 128],
        ],
        [
            [1, 16, 248, 255, 255, 128, 128, 128, 128, 128, 128],
            [190, 36, 230, 255, 236, 255, 128, 128, 128, 128, 128],
            [149, 1, 255, 128, 128, 128, 128, 128, 128, 128, 128],
        ],
        [
            [1, 226, 255, 128, 128, 128, 128, 128, 128, 128, 128],
            [247, 192, 255, 128, 128, 128, 128, 128, 128, 128, 128],
            [240, 128, 255, 128, 128, 128, 128, 128, 128, 128, 128],
        ],
        [
            [1, 134, 252, 255, 255, 128, 128, 128, 128, 128, 128],
            [213, 62, 250, 255, 255, 128, 128, 128, 128, 128, 128],
            [55, 93, 255, 128, 128, 128, 128, 128, 128, 128, 128],
        ],
        [
            [128, 128, 128, 128, 128, 128, 128, 128, 128, 128, 128],
            [128, 128, 128, 128, 128, 128, 128, 128, 128, 128, 128],
            [128, 128, 128, 128, 128, 128, 128, 128, 128, 128, 128],
        ],
    ],
    [
        [
            [202, 24, 213, 235, 186, 191, 220, 160, 240, 175, 255],
            [126, 38, 182, 232, 169, 184, 228, 174, 255, 187, 128],
            [61, 46, 138, 219, 151, 178, 240, 170, 255, 216, 128],
        ],
        [
            [1, 112, 230, 250, 199, 191, 247, 159, 255, 255, 128],
            [166, 109, 228, 252, 211, 215, 255, 174, 128, 128, 128],
            [39, 77, 162, 232, 172, 180, 245, 178, 255, 255, 128],
        ],
        [
            [1, 52, 220, 246, 198, 199, 249, 220, 255, 255, 128],
            [124, 74, 191, 243, 183, 193, 250, 221, 255, 255, 128],
            [24, 71, 130, 219, 154, 170, 243, 182, 255, 255, 128],
        ],
        [
            [1, 182, 225, 249, 219, 240, 255, 224, 128, 128, 128],
            [149, 150, 226, 252, 216, 205, 255, 171, 128, 128, 128],
            [28, 108, 170, 242, 183, 194, 254, 223, 255, 255, 128],
        ],
        [
            [1, 81, 230, 252, 204, 203, 255, 192, 128, 128, 128],
            [123, 102, 209, 247, 188, 196, 255, 233, 128, 128, 128],
            [20, 95, 153, 243, 164, 173, 255, 203, 128, 128, 128],
        ],
        [
            [1, 222, 248, 255, 216, 213, 128, 128, 128, 128, 128],
            [168, 175, 246, 252, 235, 205, 255, 255, 128, 128, 128],
            [47, 116, 215, 255, 211, 212, 255, 255, 128, 128, 128],
        ],
        [
            [1, 121, 236, 253, 212, 214, 255, 255, 128, 128, 128],
            [141, 84, 213, 252, 201, 202, 255, 219, 128, 128, 128],
            [42, 80, 160, 240, 162, 185, 255, 205, 128, 128, 128],
        ],
        [
            [1, 1, 255, 128, 128, 128, 128, 128, 128, 128, 128],
            [244, 1, 255, 128, 128, 128, 128, 128, 128, 128, 128],
            [238, 1, 255, 128, 128, 128, 128, 128, 128, 128, 128],
        ],
    ],
];

/// Token probabilities that every key frame starts from, as one sequence.
pub closed spec fn default_probs() -> Seq<u8> {
    flat_table(COEFF_PROBS)
}

/// The sequence is the table.
pub proof fn lemma_default_probs()
    ensures
        default_probs() == flat_table(COEFF_PROBS),
{
}

/// No default probability is zero.
pub proof fn lemma_default_probs_positive(n: int)
    requires
        0 <= n < 1056,
    ensures
        default_probs()[n] >= 1,
{
    assert(table_at(COEFF_PROBS, n) >= 1);
}

/// The probabilities that every key frame starts from.
pub fn default_tables() -> (table: TokenProbTables)
    ensures
        flat_table(table) == default_probs(),
{
    COEFF_PROBS
}

/// Probability that every key frame starts from.
pub fn default_prob_at(n: usize) -> (prob: u8)
    requires
        n < 1056,
    ensures
        prob == default_probs()[n as int],
{
    COEFF_PROBS[n / 264][n / 33 % 8][n / 11 % 3][n % 11]
}

/// Sum of a row of the table: the first entry counts once, the second twice.
pub open spec fn row_sum(row: [u8; 11]) -> int {
    row[0] + 2 * row[1] + 3 * row[2] + 4 * row[3] + 5 * row[4] + 6 * row[5] + 7 * row[6]
        + 8 * row[7] + 9 * row[8] + 10 * row[9] + 11 * row[10]
}

/// Sums of the rows of the default probabilities of plane 0.
pub proof fn law_default_probabilities_add_up_0()
    ensures
        row_sum(COEFF_PROBS[0][0][0]) == 8448,
        row_sum(COEFF_PROBS[0][0][1]) == 8448,
        row_sum(COEFF_PROBS[0][0][2]) == 8448,
        row_sum(COEFF_PROBS[0][1][0]) == 10521,
        row_sum(COEFF_PROBS[0][1][1]) == 11983,
        row_sum(COEFF_PROBS[0][1][2]) == 12036,
        row_sum(COEFF_PROBS[0][2][0]) == 12162,
        row_sum(COEFF_PROBS[0][2][1]) == 11543,
        row_sum(COEFF_PROBS[0][2][2]) == 11387,
        row_sum(COEFF_PROBS[0][3][0]) == 10643,
        row_sum(COEFF_PROBS[0][3][1]) == 10529,
        row_sum(COEFF_PROBS[0][3][2]) == 10285,
        row_sum(COEFF_PROBS[0][4][0]) == 10471,
        row_sum(COEFF_PROBS[0][4][1]) == 12278,
        row_sum(COEFF_PROBS[0][4][2]) == 12164,
        row_sum(COEFF_PROBS[0][5][0]) == 10706,
        row_sum(COEFF_PROBS[0][5][1]) == 10015,
        row_sum(COEFF_PROBS[0][5][2]) == 9862,
        row_sum(COEFF_PROBS[0][6][0]) == 10571,
        row_sum(COEFF_PROBS[0][6][1]) == 10476,
        row_sum(COEFF_PROBS[0][6][2]) == 10065,
        row_sum(COEFF_PROBS[0][7][0]) == 8448,
        row_sum(COEFF_PROBS[0][7][1]) == 8693,
        row_sum(COEFF_PROBS[0][7][2]) == 8575,
{
}

/// Sums of the rows of the default probabilities of plane 1.
pub proof fn law_default_probabilities_add_up_1()
    ensures
        row_sum(COEFF_PROBS[1][0][0]) == 9909,
        row_sum(COEFF_PROBS[1][0][1]) == 10900,
        row_sum(COEFF_PROBS[1][0][2]) == 11955,
        row_sum(COEFF_PROBS[1][1][0]) == 12156,
        row_sum(COEFF_PROBS[1][1][1]) == 11827,
        row_sum(COEFF_PROBS[1][1][2]) == 13422,
        row_sum(COEFF_PROBS[1][2][0]) == 13734,
        row_sum(COEFF_PROBS[1][2][1]) == 11405,
        row_sum(COEFF_PROBS[1][2][2]) == 13296,
        row_sum(COEFF_PROBS[1][3][0]) == 10619,
        row_sum(COEFF_PROBS[1][3][1]) == 12498,
        row_sum(COEFF_PROBS[1][3][2]) == 11761,
        row_sum(COEFF_PROBS[1][4][0]) == 11280,
        row_sum(COEFF_PROBS[1][4][1]) == 11940,
        row_sum(COEFF_PROBS[1][4][2]) == 10837,
        row_sum(COEFF_PROBS[1][5][0]) == 10462,
        row_sum(COEFF_PROBS[1][5][1]) == 10452,
        row_sum(COEFF_PROBS[1][5][2]) == 11232,
        row_sum(COEFF_PROBS[1][6][0]) == 12307,
        row_sum(COEFF_PROBS[1][6][1]) == 12280,
        row_sum(COEFF_PROBS[1][6][2]) == 11505,
        row_sum(COEFF_PROBS[1][7][0]) == 10131,
        row_sum(COEFF_PROBS[1][7][1]) == 9772,
        row_sum(COEFF_PROBS[1][7][2]) == 10100,
{
}

/// Sums of the rows of the default probabilities of plane 2.
pub proof fn law_default_probabilities_add_up_2()
    ensures
        row_sum(COEFF_PROBS[2][0][0]) == 11463,
        row_sum(COEFF_PROBS[2][0][1]) == 13500,
        row_sum(COEFF_PROBS[2][0][2]) == 12414,
        row_sum(COEFF_PROBS[2][1][0]) == 11767,
        row_sum(COEFF_PROBS[2][1][1]) == 12125,
        row_sum(COEFF_PROBS[2][1][2]) == 11661,
        row_sum(COEFF_PROBS[2][2][0]) == 11439,
        row_sum(COEFF_PROBS[2][2][1]) == 9836,
        row_sum(COEFF_PROBS[2][2][2]) == 11449,
        row_sum(COEFF_PROBS[2][3][0]) == 9959,
        row_sum(COEFF_PROBS[2][3][1]) == 10675,
        row_sum(COEFF_PROBS[2][3][2]) == 9956,
        row_sum(COEFF_PROBS[2][4][0]) == 9600,
        row_sum(COEFF_PROBS[2][4][1]) == 10442,
        row_sum(COEFF_PROBS[2][4][2]) == 8596,
        row_sum(COEFF_PROBS[2][5][0]) == 8898,
        row_sum(COEFF_PROBS[2][5][1]) == 9076,
        row_sum(COEFF_PROBS[2][5][2]) == 8941,
        row_sum(COEFF_PROBS[2][6][0]) == 9848,
        row_sum(COEFF_PROBS[2][6][1]) == 9910,
        row_sum(COEFF_PROBS[2][6][2]) == 8686,
        row_sum(COEFF_PROBS[2][7][0]) == 8448,
        row_sum(COEFF_PROBS[2][7][1]) == 8448,
        row_sum(COEFF_PROBS[2][7][2]) == 8448,
{
}

/// Sums of the rows of the default probabilities of plane 3.
pub proof fn law_default_probabilities_add_up_3()
    ensures
        row_sum(COEFF_PROBS[3][0][0]) == 13440,
        row_sum(COEFF_PROBS[3][0][1]) == 12186,
        row_sum(COEFF_PROBS[3][0][2]) == 12169,
        row_sum(COEFF_PROBS[3][1][0]) == 13310,
        row_sum(COEFF_PROBS[3][1][1]) == 11438,
        row_sum(COEFF_PROBS[3][1][2]) == 12939,
        row_sum(COEFF_PROBS[3][2][0]) == 13689,
        row_sum(COEFF_PROBS[3][2][1]) == 13661,
        row_sum(COEFF_PROBS[3][2][2]) == 12632,
        row_sum(COEFF_PROBS[3][3][0]) == 11988,
        row_sum(COEFF_PROBS[3][3][1]) == 11438,
        row_sum(COEFF_PROBS[3][3][2]) == 13616,
        row_sum(COEFF_PROBS[3][4][0]) == 11260,
        row_sum(COEFF_PROBS[3][4][1]) == 11547,
        row_sum(COEFF_PROBS[3][4][2]) == 10748,
        row_sum(COEFF_PROBS[3][5][0]) == 10327,
        row_sum(COEFF_PROBS[3][5][1]) == 12334,
        row_sum(COEFF_PROBS[3][5][2]) == 11936,
        row_sum(COEFF_PROBS[3][6][0]) == 11972,
        row_sum(COEFF_PROBS[3][6][1]) == 11550,
        row_sum(COEFF_PROBS[3][6][2]) == 10827,
        row_sum(COEFF_PROBS[3][7][0]) == 8448,
        row_sum(COEFF_PROBS[3][7][1]) == 8691,
        row_sum(COEFF_PROBS[3][7][2]) == 8685,
{
}

} // verus!
