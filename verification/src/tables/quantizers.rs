//! Quantiser steps.
use vstd::prelude::*;

verus! {

/// Quantiser step of a DC coefficient, by quantiser index.
pub const DC_QUANT: [i16; 128] = [
    4, 5, 6, 7, 8, 9, 10, 10, 11, 12, 13, 14, 15, 16, 17, 17,
    18, 19, 20, 20, 21, 21, 22, 22, 23, 23, 24, 25, 25, 26, 27, 28,
    29, 30, 31, 32, 33, 34, 35, 36, 37, 37, 38, 39, 40, 41, 42, 43,
    44, 45, 46, 46, 47, 48, 49, 50, 51, 52, 53, 54, 55, 56, 57, 58,
    59, 60, 61, 62, 63, 64, 65, 66, 67, 68, 69, 70, 71, 72, 73, 74,
    75, 76, 76, 77, 78, 79, 80, 81, 82, 83, 84, 85, 86, 87, 88, 89,
    91, 93, 95, 96, 98, 100, 101, 102, 104, 106, 108, 110, 112, 114, 116, 118,
    122, 124, 126, 128, 130, 132, 134, 136, 138, 140, 143, 145, 148, 151, 154, 157,
];

/// Quantiser step of an AC coefficient, by quantiser index.
pub const AC_QUANT: [i16; 128] = [
    4, 5, 6, 7, 8, 9, 10, 11, 12, 13, 14, 15, 16, 17, 18, 19,
    20, 21, 22, 23, 24, 25, 26, 27, 28, 29, 30, 31, 32, 33, 34, 35,
    36, 37, 38, 39, 40, 41, 42, 43, 44, 45, 46, 47, 48, 49, 50, 51,
    52, 53, 54, 55, 56, 57, 58, 60, 62, 64, 66, 68, 70, 72, 74, 76,
    78, 80, 82, 84, 86, 88, 90, 92, 94, 96, 98, 100, 102, 104, 106, 108,
    110, 112, 114, 116, 119, 122, 125, 128, 131, 134, 137, 140, 143, 146, 149, 152,
    155, 158, 161, 164, 167, 170, 173, 177, 181, 185, 189, 193, 197, 201, 205, 209,
    213, 217, 221, 225, 229, 234, 239, 245, 249, 254, 259, 264, 269, 274, 279, 284,
];

/// Entry of [`DC_QUANT`].
pub closed spec fn dc_step(index: int) -> i16 {
    DC_QUANT[index]
}

/// Entry of [`AC_QUANT`].
pub closed spec fn ac_step(index: int) -> i16 {
    AC_QUANT[index]
}

/// The steps are those of the tables.
pub proof fn lemma_steps(index: int)
    ensures
        dc_step(index) == DC_QUANT[index],
        ac_step(index) == AC_QUANT[index],
{
}

/// The quantiser steps grow with the index.
pub proof fn lemma_steps_increase(a: int, b: int)
    requires
        0 <= a <= b < 128,
    ensures
        dc_step(a) <= dc_step(b),
        ac_step(a) <= ac_step(b),
    decreases b - a,
{
    if a < b {
        lemma_steps_increase(a, b - 1);
        lemma_next_dc_step(b - 1);
        lemma_next_ac_step(b - 1);
    }
}

/// The range of the quantiser steps.
pub proof fn lemma_step_range(index: int)
    requires
        0 <= index < 128,
    ensures
        4 <= dc_step(index) <= 157,
        4 <= ac_step(index) <= 284,
{
    lemma_steps_increase(0, index);
    lemma_steps_increase(index, 127);
}

proof fn lemma_next_dc_step(a: int)
    requires
        0 <= a < 127,
    ensures
        DC_QUANT[a] <= DC_QUANT[a + 1],
{
}

proof fn lemma_next_ac_step(a: int)
    requires
        0 <= a < 127,
    ensures
        AC_QUANT[a] <= AC_QUANT[a + 1],
{
}

/// The quantiser steps grow in straight lines, first by one for each index, later
/// by more.
pub proof fn law_quantizer_steps(i: int)
    ensures
        0 <= i <= 6 ==> dc_step(i) == i + 4,
        7 <= i <= 14 ==> dc_step(i) == i + 3,
        15 <= i <= 18 ==> dc_step(i) == i + 2,
        19 <= i <= 20 ==> dc_step(i) == i + 1,
        21 <= i <= 22 ==> dc_step(i) == i + 0,
        23 <= i <= 24 ==> dc_step(i) == i - 1,
        25 <= i <= 27 ==> dc_step(i) == i - 2,
        28 <= i <= 40 ==> dc_step(i) == i - 3,
        41 <= i <= 50 ==> dc_step(i) == i - 4,
        51 <= i <= 81 ==> dc_step(i) == i - 5,
        82 <= i <= 95 ==> dc_step(i) == i - 6,
        96 <= i <= 98 ==> dc_step(i) == 2 * i - 101,
        99 <= i <= 101 ==> dc_step(i) == 2 * i - 102,
        102 <= i <= 103 ==> dc_step(i) == i - 1,
        104 <= i <= 111 ==> dc_step(i) == 2 * i - 104,
        112 <= i <= 121 ==> dc_step(i) == 2 * i - 102,
        122 <= i <= 123 ==> dc_step(i) == 2 * i - 101,
        124 <= i <= 127 ==> dc_step(i) == 3 * i - 224,
        0 <= i <= 54 ==> ac_step(i) == i + 4,
        55 <= i <= 83 ==> ac_step(i) == 2 * i - 50,
        84 <= i <= 102 ==> ac_step(i) == 3 * i - 133,
        103 <= i <= 116 ==> ac_step(i) == 4 * i - 235,
        117 <= i <= 118 ==> ac_step(i) == 5 * i - 351,
        119 <= i <= 120 ==> ac_step(i) == 4 * i - 231,
        121 <= i <= 127 ==> ac_step(i) == 5 * i - 351,
{
}

/// DC quantiser step with an index.
pub fn dc_step_at(index: usize) -> (step: i16)
    requires
        index < 128,
    ensures
        step == dc_step(index as int),
        4 <= step <= 157,
{
    DC_QUANT[index]
}

/// AC quantiser step with an index.
pub fn ac_step_at(index: usize) -> (step: i16)
    requires
        index < 128,
    ensures
        step == ac_step(index as int),
        4 <= step <= 284,
{
    AC_QUANT[index]
}

} // verus!
