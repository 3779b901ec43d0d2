//! Costs of branches.
use vstd::prelude::*;

verus! {

/// `-log2(n / 256)` for `n` from 0 to 256, as bit patterns of double precision
/// numbers; the entry for 0 stands for the smallest positive normal number.
pub const BRANCH_COSTS: [u64; 257] = [
    0x408ff00000000000, 0x4020000000000000, 0x401c000000000000, 0x4019a8ff971810a6,
    0x4018000000000000, 0x4016b6587b432e47, 0x4015a8ff971810a6, 0x4014c544c055fdea,
    0x4014000000000000, 0x401351ff2e30214c, 0x4012b6587b432e47, 0x4012298ac1fcd15f,
    0x4011a8ff971810a6, 0x401132bfee370ee7, 0x4010c544c055fdea, 0x40105f58125b3eed,
    0x4010000000000000, 0x400f4ce04829b767, 0x400ea3fe5c604298, 0x400e043e946fd97f,
    0x400d6cb0f6865c8f, 0x400cdc88aedc1d1f, 0x400c531583f9a2be, 0x400bcfbebfca7156,
    0x400b51ff2e30214c, 0x400ad961ed0cb91d, 0x400a657fdc6e1dcd, 0x4009f5fd8a9063e3,
    0x40098a8980abfbd3, 0x400922dadc2ab349, 0x4008beb024b67dda, 0x40085dce53276563,
    0x4008000000000000, 0x4007a514b229c40a, 0x40074ce04829b767, 0x4006f73a77325862,
    0x4006a3fe5c604298, 0x4006530a1d24b137, 0x4006043e946fd97f, 0x4005b77f0a9e3f19,
    0x40056cb0f6865c8f, 0x400523bbc64c5e64, 0x4004dc88aedc1d1f, 0x400497028118efac,
    0x4004531583f9a2be, 0x400410af52e69f26, 0x4003cfbebfca7156, 0x40039033b85a8bfd,
    0x400351ff2e30214c, 0x400315130157f7a6, 0x4002d961ed0cb91d, 0x40029edf7659d8b3,
    0x4002657fdc6e1dcd, 0x40022d380a6c7e2b, 0x4001f5fd8a9063e3, 0x4001bfc67a7fff4d,
    0x40018a8980abfbd3, 0x4001563dc29ffacb, 0x400122dadc2ab349, 0x4000f058d74797eb,
    0x4000beb024b67dda, 0x40008dd9953002a5, 0x40005dce53276563, 0x40002e87dd0c3e6b,
    0x4000000000000000, 0x3fffa461a5e8f4b7, 0x3fff4a2964538814, 0x3ffef14c7605d606,
    0x3ffe99c090536ecf, 0x3ffe437bdbf52544, 0x3ffdee74ee64b0c4, 0x3ffd9aa2c3b0ea3d,
    0x3ffd47fcb8c0852f, 0x3ffcf67a85fa1f8a, 0x3ffca6143a49626e, 0x3ffc56c23679b4d2,
    0x3ffc087d28dfb2ff, 0x3ffbbb3e094b3d23, 0x3ffb6efe153c7e32, 0x3ffb23b6cc56cc85,
    0x3ffad961ed0cb91d, 0x3ffa8ff971810a5e, 0x3ffa47778c98bcc8, 0x3ff9ffd6a73a78eb,
    0x3ff9b9115db83a3e, 0x3ff973227d6027ec, 0x3ff92e050231df58, 0x3ff8e9b414b5a92a,
    0x3ff8a62b07f3457c, 0x3ff8636557862acb, 0x3ff8215ea5cd3e4c, 0x3ff7e012ba343340,
    0x3ff79f7d7f94e2ad, 0x3ff75f9b02af0d5e, 0x3ff7206770b517f9, 0x3ff6e1df15ec6c1c,
    0x3ff6a3fe5c604298, 0x3ff666c1caa5b1ad, 0x3ff62a2602afef4d, 0x3ff5ee27c0b3caab,
    0x3ff5b2c3da19723b, 0x3ff577f73c7bab84, 0x3ff53dbeecb3b166, 0x3ff5041805f0fb29,
    0x3ff4caffb8dc3b9a, 0x3ff492734ac4f35b, 0x3ff45a7014d8fc56, 0x3ff422f383657e8e,
    0x3ff3ebfb1520c7c7, 0x3ff3b5845a7c883a, 0x3ff37f8cf4fffe9a, 0x3ff34a1296a9a505,
    0x3ff315130157f7a6, 0x3ff2e08c0638f3f1, 0x3ff2ac7b853ff596, 0x3ff278df6ca19bca,
    0x3ff245b5b8556693, 0x3ff212fc719cc0c9, 0x3ff1e0b1ae8f2fd5, 0x3ff1aed391ab6675,
    0x3ff17d60496cfbb5, 0x3ff14c560fe68af9, 0x3ff11bb32a60054a, 0x3ff0eb75e8f8ff60,
    0x3ff0bb9ca64ecac7, 0x3ff08c25c7262b58, 0x3ff05d0fba187cd5, 0x3ff02e58f7441ee6,
    0x3ff0000000000000, 0x3fefa406bd2443df, 0x3fef48c34bd1e96f, 0x3feeee32e2aeccbf,
    0x3fee9452c8a71028, 0x3fee3b20546f554a, 0x3fede298ec0bac0d, 0x3fed8aba045b01c8,
    0x3fed338120a6dd9d, 0x3fecdcebd2373995, 0x3fec86f7b7ea4a89, 0x3fec31a27dd00b4a,
    0x3febdce9dcc96187, 0x3feb88cb9a2ab521, 0x3feb35458761d479, 0x3feae255819f022d,
    0x3fea8ff971810a5e, 0x3fea3e2f4ac43f60, 0x3fe9ecf50bf43f13, 0x3fe99c48be2063c8,
    0x3fe94c287492c4db, 0x3fe8fc924c89ac84, 0x3fe8ad846cf369a4, 0x3fe85efd062c656d,
    0x3fe810fa51bf65fd, 0x3fe7c37a9227e7fb, 0x3fe7767c12967a45, 0x3fe729fd26b707c8,
    0x3fe6ddfc2a78fc63, 0x3fe6927781d932a8, 0x3fe6476d98ad990a, 0x3fe5fcdce2727ddb,
    0x3fe5b2c3da19723b, 0x3fe5692101d9b4a6, 0x3fe51ff2e30214bc, 0x3fe4d7380dcc422d,
    0x3fe48eef19317991, 0x3fe44716a2c08262, 0x3fe3ffad4e74f1d6, 0x3fe3b8b1c68fa6ed,
    0x3fe37222bb70747c, 0x3fe32bfee370ee68, 0x3fe2e644fac04fd8, 0x3fe2a0f3c340705c,
    0x3fe25c0a0463beb0, 0x3fe217868b0c37e8, 0x3fe1d368296b5255, 0x3fe18fadb6e2d3c2,
    0x3fe14c560fe68af9, 0x3fe1096015dee4da, 0x3fe0c6caaf0c5597, 0x3fe08494c66b8ef0,
    0x3fe042bd4b9a7c99, 0x3fe0014332be0033, 0x3fdf804ae8d0cd02, 0x3fdefec61b011f85,
    0x3fde7df5fe538ab3, 0x3fddfdd89d586e2b, 0x3fdd7e6c0abc3579, 0x3fdcffae611ad12b,
    0x3fdc819dc2d45fe4, 0x3fdc043859e2fdb3, 0x3fdb877c57b1b070, 0x3fdb0b67f4f46810,
    0x3fda8ff971810a5e, 0x3fda152f142981b4, 0x3fd99b072a96c6b2, 0x3fd921800924dd3b,
    0x3fd8a8980abfbd32, 0x3fd8304d90c11fd3, 0x3fd7b89f02cf2aad, 0x3fd7418acebbf18f,
    0x3fd6cb0f6865c8ea, 0x3fd6552b49986277, 0x3fd5dfdcf1eeae0e, 0x3fd56b22e6b578e5,
    0x3fd4f6fbb2cec598, 0x3fd48365e695d797, 0x3fd4106017c3eca3, 0x3fd39de8e1559f6f,
    0x3fd32bfee370ee68, 0x3fd2baa0c34be1ec, 0x3fd249cd2b13cd6c, 0x3fd1d982c9d52708,
    0x3fd169c05363f158, 0x3fd0fa848044b351, 0x3fd08bce0d95fa38, 0x3fd01d9bbcfa61d4,
    0x3fcf5fd8a9063e35, 0x3fce857d3d361368, 0x3fcdac22d3e441d3, 0x3fccd3c712d31109,
    0x3fcbfc67a7fff4cc, 0x3fcb2602497d5346, 0x3fca5094b54d2828, 0x3fc97c1cb13c7ec1,
    0x3fc8a8980abfbd32, 0x3fc7d60496cfbb4c, 0x3fc7046031c79f85, 0x3fc633a8bf437ce1,
    0x3fc563dc29ffacb2, 0x3fc494f863b8df35, 0x3fc3c6fb650cde51, 0x3fc2f9e32d5bfdd1,
    0x3fc22dadc2ab3497, 0x3fc162593186da70, 0x3fc097e38ce60649, 0x3fbf9c95dc1d1165,
    0x3fbe0b1ae8f2fd56, 0x3fbc7b528b70f1c5, 0x3fbaed391ab6674e, 0x3fb960caf9abb7ca,
    0x3fb7d60496cfbb4c, 0x3fb64ce26c067157, 0x3fb4c560fe68af88, 0x3fb33f7cde14cf5a,
    0x3fb1bb32a600549d, 0x3fb0387efbca869e, 0x3fad6ebd1f1febfe, 0x3faa6f9c377dd31b,
    0x3fa77394c9d958d5, 0x3fa47aa07357704f, 0x3fa184b8e4c56af8, 0x3f9d23afc49139f9,
    0x3f9743ee861f3556, 0x3f916a21e20a0a45, 0x3f872c7ba20f7327, 0x3f7720d9c06a835f,
    0x0000000000000000,
];

/// Entry of [`BRANCH_COSTS`].
pub closed spec fn branch_cost_bits(n: int) -> u64 {
    BRANCH_COSTS[n]
}

/// The bits are those of the table.
pub proof fn lemma_branch_cost_bits_table(n: int)
    ensures
        branch_cost_bits(n) == BRANCH_COSTS[n],
{
}

/// Every branch cost is zero or lies between 2^-8 and 1022; with a positive
/// probability it is at most 8. It is zero only for a certain branch.
proof fn lemma_branch_cost_bits(n: int)
    requires
        0 <= n <= 256,
    ensures
        BRANCH_COSTS[n] == 0 || 0x3f70_0000_0000_0000 <= BRANCH_COSTS[n] < 0x4090_0000_0000_0000,
        n > 0 ==> BRANCH_COSTS[n] <= 0x4020_0000_0000_0000,
        n < 256 ==> BRANCH_COSTS[n] != 0,
{
}

/// A likelier branch costs less. Each time that a probability is halved, the
/// cost is one bit more: `1 << i` out of 256 costs `8 - i` bits.
pub proof fn law_branch_costs_fall(n: int)
    requires
        0 <= n < 256,
    ensures
        branch_cost_bits(n) > branch_cost_bits(n + 1),
        branch_cost_bits(1) == 0x4020_0000_0000_0000,
        branch_cost_bits(2) == 0x401c_0000_0000_0000,
        branch_cost_bits(4) == 0x4018_0000_0000_0000,
        branch_cost_bits(8) == 0x4014_0000_0000_0000,
        branch_cost_bits(16) == 0x4010_0000_0000_0000,
        branch_cost_bits(32) == 0x4008_0000_0000_0000,
        branch_cost_bits(64) == 0x4000_0000_0000_0000,
        branch_cost_bits(128) == 0x3ff0_0000_0000_0000,
        branch_cost_bits(256) == 0,
{
}

/// Bit pattern of the cost of a branch with probability `n / 256`.
pub fn branch_cost_entry(n: usize) -> (bits: u64)
    requires
        n <= 256,
    ensures
        bits == branch_cost_bits(n as int),
        bits == 0 || 0x3f70_0000_0000_0000 <= bits < 0x4090_0000_0000_0000,
        n > 0 ==> bits <= 0x4020_0000_0000_0000,
        n < 256 ==> bits != 0,
{
    proof {
        lemma_branch_cost_bits(n as int);
    }
    BRANCH_COSTS[n]
}

/// Sum of sixteen entries of the table: the first counts once, the second twice.
pub open spec fn window_sum(start: int) -> int {
    BRANCH_COSTS[start]
        + 2 * BRANCH_COSTS[start + 1]
        + 3 * BRANCH_COSTS[start + 2]
        + 4 * BRANCH_COSTS[start + 3]
        + 5 * BRANCH_COSTS[start + 4]
        + 6 * BRANCH_COSTS[start + 5]
        + 7 * BRANCH_COSTS[start + 6]
        + 8 * BRANCH_COSTS[start + 7]
        + 9 * BRANCH_COSTS[start + 8]
        + 10 * BRANCH_COSTS[start + 9]
        + 11 * BRANCH_COSTS[start + 10]
        + 12 * BRANCH_COSTS[start + 11]
        + 13 * BRANCH_COSTS[start + 12]
        + 14 * BRANCH_COSTS[start + 13]
        + 15 * BRANCH_COSTS[start + 14]
        + 16 * BRANCH_COSTS[start + 15]
}

/// Sums of the bit patterns of the costs.
pub proof fn law_branch_costs_add_up()
    ensures
        window_sum(0) == 627963213390673039147,
        window_sum(16) == 627592620550768083685,
        window_sum(32) == 627377363621884278844,
        window_sum(48) == 627233806704059988080,
        window_sum(64) == 627062248942434731361,
        window_sum(80) == 626888877040109090853,
        window_sum(96) == 626744053800430585285,
        window_sum(112) == 626619682782956722957,
        window_sum(128) == 626444572833223131496,
        window_sum(144) == 626250565663078315841,
        window_sum(160) == 626075776499541560465,
        window_sum(176) == 625866591625498425013,
        window_sum(192) == 625577362565020562580,
        window_sum(208) == 625252429933469588588,
        window_sum(224) == 624726238304534117176,
        window_sum(240) == 623323346787222409933,
{
}

} // verus!
