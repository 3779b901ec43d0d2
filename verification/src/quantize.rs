//! Quantisation of transformed blocks.
use vstd::prelude::*;

use crate::common::Segment;
use crate::transform::{
    idct, idct4x4, iwht, iwht4x4, lemma_idct_bound, lemma_idct_len, lemma_iwht_bound,
    lemma_wht_bound, trunc_div, wht, wht4x4, within,
};

verus! {

/// Quantiser step of coefficient `i`, counted through blocks of sixteen.
pub open spec fn step_of(i: int, dc: i16, ac: i16) -> int {
    if i % 16 == 0 {
        dc as int
    } else {
        ac as int
    }
}

/// Coefficients divided by their quantiser steps.
pub open spec fn quantized(b: Seq<i32>, dc: i16, ac: i16) -> Seq<i32> {
    Seq::new(b.len(), |i: int| trunc_div(b[i] as int, step_of(i, dc, ac)) as i32)
}

/// Levels multiplied by their quantiser steps.
pub open spec fn scaled(b: Seq<i32>, dc: i16, ac: i16) -> Seq<i32> {
    Seq::new(b.len(), |i: int| (b[i] * step_of(i, dc, ac)) as i32)
}

/// Multiplying levels by their quantiser steps stays within 32 bits.
pub open spec fn scalable(b: Seq<i32>, dc: i16, ac: i16) -> bool {
    forall|i: int|
        0 <= i < b.len() ==> i32::MIN <= #[trigger] b[i] * step_of(i, dc, ac) <= i32::MAX
}

/// Quantising never increases a magnitude, and neither does scaling back.
pub proof fn lemma_trunc_div(a: int, q: int)
    requires
        q > 0,
    ensures
        a >= 0 ==> 0 <= trunc_div(a, q) <= a && 0 <= trunc_div(a, q) * q <= a,
        a <= 0 ==> a <= trunc_div(a, q) <= 0 && a <= trunc_div(a, q) * q <= 0,
        trunc_div(a, q) == 0 <==> trunc_div(a, q) * q == 0,
{
    let m = if a >= 0 {
        a
    } else {
        -a
    };
    let d = m / q;
    vstd::arithmetic::div_mod::lemma_fundamental_div_mod(m, q);
    assert(0 <= d <= m && 0 <= d * q <= m) by (nonlinear_arith)
        requires
            m == q * d + m % q,
            0 <= m % q < q,
            m >= 0,
            q > 0,
            d == m / q,
    ;
    assert((-d) * q == -(d * q)) by (nonlinear_arith);
    assert(d > 0 ==> d * q > 0) by (nonlinear_arith)
        requires
            q > 0,
    ;
    assert(0 * q == 0);
}

pub proof fn lemma_quantized_bound(b: Seq<i32>, dc: i16, ac: i16, bound: int)
    requires
        dc > 0,
        ac > 0,
        0 <= bound <= i32::MAX,
        within(b, bound),
    ensures
        within(quantized(b, dc, ac), bound),
        within(scaled(quantized(b, dc, ac), dc, ac), bound),
        forall|i: int|
            0 <= i < b.len() ==> (scaled(quantized(b, dc, ac), dc, ac)[i] == 0 <==> #[trigger] quantized(
                b,
                dc,
                ac,
            )[i] == 0),
{
    assert forall|i: int| 0 <= i < b.len() implies -bound <= #[trigger] quantized(b, dc, ac)[i] <= bound
        && -bound <= scaled(quantized(b, dc, ac), dc, ac)[i] <= bound && (scaled(
        quantized(b, dc, ac),
        dc,
        ac,
    )[i] == 0 <==> quantized(b, dc, ac)[i] == 0) by {
        lemma_trunc_div(b[i] as int, step_of(i, dc, ac));
    }
}

/// Divides by the quantiser steps.
pub fn quantize(block: &mut [i32], dc: i16, ac: i16)
    requires
        dc > 0,
        ac > 0,
    ensures
        final(block)@ == quantized(old(block)@, dc, ac),
{
    let ghost b = block@;
    let len: usize = block.len();
    let mut i: usize = 0;
    while i < len
        invariant
            i <= len == block@.len() == b.len(),
            dc > 0,
            ac > 0,
            forall|j: int|
                0 <= j < len ==> #[trigger] block@[j] == if j < i {
                    quantized(b, dc, ac)[j]
                } else {
                    b[j]
                },
        decreases len - i,
    {
        let quant: i32 = if i % 16 == 0 {
            dc as i32
        } else {
            ac as i32
        };
        let value: i32 = block[i];
        proof {
            lemma_trunc_div(value as int, quant as int);
        }
        block[i] = value / quant;
        i = i + 1;
    }
    assert(block@ =~= quantized(b, dc, ac));
}

/// Multiplies by the quantiser steps.
pub fn dequantize(block: &mut [i32], dc: i16, ac: i16)
    requires
        scalable(old(block)@, dc, ac),
    ensures
        final(block)@ == scaled(old(block)@, dc, ac),
{
    let ghost b = block@;
    let len: usize = block.len();
    let mut i: usize = 0;
    while i < len
        invariant
            i <= len == block@.len() == b.len(),
            forall|i: int|
                0 <= i < len ==> i32::MIN <= #[trigger] b[i] * step_of(i, dc, ac) <= i32::MAX,
            forall|j: int|
                0 <= j < len ==> #[trigger] block@[j] == if j < i {
                    scaled(b, dc, ac)[j]
                } else {
                    b[j]
                },
        decreases len - i,
    {
        let quant: i32 = if i % 16 == 0 {
            dc as i32
        } else {
            ac as i32
        };
        assert(block@[i as int] == b[i as int]);
        assert(quant == step_of(i as int, dc, ac));
        block[i] = block[i] * quant;
        i = i + 1;
    }
    assert(block@ =~= scaled(b, dc, ac));
}

/// Block `k` of a sequence of blocks.
pub open spec fn block_at(data: Seq<i32>, k: int) -> Seq<i32> {
    Seq::new(16, |i: int| data[k * 16 + i])
}

/// Copy of block `k`.
pub fn load_block(data: &[i32], k: usize) -> (block: [i32; 16])
    requires
        k * 16 + 16 <= data@.len(),
    ensures
        block@ == block_at(data@, k as int),
{
    let len: usize = data.len();
    let mut block = [0i32; 16];
    let mut i: usize = 0;
    while i < 16
        invariant
            i <= 16,
            len == data@.len(),
            k * 16 + 16 <= len,
            forall|j: int| 0 <= j < i ==> #[trigger] block@[j] == data@[k * 16 + j],
        decreases 16 - i,
    {
        block[i] = data[k * 16 + i];
        i = i + 1;
    }
    assert(block@ =~= block_at(data@, k as int));
    block
}

/// A sequence of blocks with block `k` replaced.
pub open spec fn with_block(data: Seq<i32>, k: int, block: Seq<i32>) -> Seq<i32> {
    Seq::new(
        data.len(),
        |n: int|
            if n / 16 == k {
                block[n % 16]
            } else {
                data[n]
            },
    )
}

/// Replaces block `k`.
pub fn store_block(data: &mut [i32], k: usize, block: &[i32; 16])
    requires
        k * 16 + 16 <= old(data)@.len(),
    ensures
        final(data)@ == with_block(old(data)@, k as int, block@),
{
    let ghost b = data@;
    let len: usize = data.len();
    let mut i: usize = 0;
    while i < 16
        invariant
            i <= 16,
            len == data@.len() == b.len(),
            k * 16 + 16 <= len,
            forall|n: int|
                0 <= n < len ==> #[trigger] data@[n] == if k * 16 <= n < k * 16 + i {
                    block@[n - k * 16]
                } else {
                    b[n]
                },
        decreases 16 - i,
    {
        data[k * 16 + i] = block[i];
        i = i + 1;
    }
    assert(data@ =~= with_block(b, k as int, block@));
}

/// DC coefficients of the sixteen luma blocks.
pub open spec fn coeffs0(blocks: Seq<i32>) -> Seq<i32> {
    Seq::new(16, |i: int| blocks[i * 16])
}

/// DC coefficients of the sixteen luma blocks.
pub fn get_coeffs0_from_block(blocks: &[i32; 256]) -> (r: [i32; 16])
    ensures
        r@ == coeffs0(blocks@),
{
    let mut r = [0i32; 16];
    let mut i: usize = 0;
    while i < 16
        invariant
            i <= 16,
            forall|j: int| 0 <= j < i ==> #[trigger] r@[j] == blocks@[j * 16],
        decreases 16 - i,
    {
        r[i] = blocks[i * 16];
        i = i + 1;
    }
    assert(r@ =~= coeffs0(blocks@));
    r
}

/// Coefficients of a luma macroblock that is predicted as a whole: the DC
/// coefficients form a block of their own.
pub struct Luma16x16Coeffs {
    pub y2_coeffs: [i32; 16],
    pub y_coeffs: [i32; 256],
}

/// Levels of the DC coefficients of a luma macroblock.
pub open spec fn y2_levels(blocks: Seq<i32>, segment: Segment) -> Seq<i32> {
    quantized(wht(coeffs0(blocks)), segment.y2dc, segment.y2ac)
}

/// Levels of the other coefficients of a luma macroblock, with zero in place
/// of the DC levels.
pub open spec fn y_levels(blocks: Seq<i32>, segment: Segment) -> Seq<i32> {
    Seq::new(
        256,
        |i: int|
            if i % 16 == 0 {
                0
            } else {
                trunc_div(blocks[i] as int, segment.yac as int) as i32
            },
    )
}

/// Levels of a luma macroblock that is predicted as a whole.
pub fn get_luma_block_coeffs_16x16(luma_blocks: &[i32; 256], segment: &Segment) -> (coeffs:
    Luma16x16Coeffs)
    requires
        segment.wf(),
    ensures
        coeffs.y2_coeffs@ == y2_levels(luma_blocks@, *segment),
        coeffs.y_coeffs@ == y_levels(luma_blocks@, *segment),
{
    let mut y2_coeffs = get_coeffs0_from_block(luma_blocks);
    wht4x4(&mut y2_coeffs);
    quantize(&mut y2_coeffs, segment.y2dc, segment.y2ac);
    let mut y_coeffs = [0i32; 256];
    let yac: i32 = segment.yac as i32;
    let mut i: usize = 0;
    while i < 256
        invariant
            i <= 256,
            4 <= yac == segment.yac,
            forall|j: int|
                0 <= j < i ==> #[trigger] y_coeffs@[j] == y_levels(luma_blocks@, *segment)[j],
        decreases 256 - i,
    {
        y_coeffs[i] =
        if i % 16 == 0 {
            0
        } else {
            let value: i32 = luma_blocks[i];
            proof {
                lemma_trunc_div(value as int, yac as int);
            }
            value / yac
        };
        i = i + 1;
    }
    assert(y_coeffs@ =~= y_levels(luma_blocks@, *segment));
    Luma16x16Coeffs { y2_coeffs, y_coeffs }
}

/// DC coefficients that a decoder derives from their levels.
pub open spec fn y2_restored(y2: Seq<i32>, segment: Segment) -> Seq<i32> {
    iwht(scaled(y2, segment.y2dc, segment.y2ac))
}

/// Coefficients that a decoder derives for luma block `k`.
pub open spec fn y_restored(dc: Seq<i32>, y: Seq<i32>, segment: Segment, k: int) -> Seq<i32> {
    Seq::new(
        16,
        |i: int|
            if i == 0 {
                dc[k]
            } else {
                (y[k * 16 + i] * segment.yac) as i32
            },
    )
}

/// Residue that a decoder derives from the levels of a luma macroblock.
pub open spec fn luma_residue(y2: Seq<i32>, y: Seq<i32>, segment: Segment) -> Seq<i32> {
    let dc = y2_restored(y2, segment);
    Seq::new(256, |n: int| idct(y_restored(dc, y, segment, n / 16))[n % 16])
}

/// Whether a block has a coefficient that is not zero.
pub open spec fn any_nonzero(b: Seq<i32>) -> bool {
    exists|i: int| 0 <= i < b.len() && #[trigger] b[i] != 0
}

/// Whether a block has a coefficient that is not zero.
pub fn has_nonzero(b: &[i32]) -> (r: bool)
    ensures
        r == any_nonzero(b@),
{
    let mut i: usize = 0;
    while i < b.len()
        invariant
            i <= b@.len(),
            forall|j: int| 0 <= j < i ==> b@[j] == 0,
        decreases b@.len() - i,
    {
        if b[i] != 0 {
            assert(b@[i as int] != 0);
            return true;
        }
        i = i + 1;
    }
    false
}

/// Whether luma block `k` has a coefficient that is not zero.
pub open spec fn luma_nonzero(y2: Seq<i32>, y: Seq<i32>, segment: Segment, k: int) -> bool {
    any_nonzero(y_restored(y2_restored(y2, segment), y, segment, k))
}

/// Levels that come from quantising the coefficients of a macroblock.
pub open spec fn levels_of(y2: Seq<i32>, y: Seq<i32>, segment: Segment) -> bool {
    &&& y2.len() == 16
    &&& y.len() == 256
    &&& within(scaled(y2, segment.y2dc, segment.y2ac), 16320)
    &&& forall|i: int|
        0 <= i < 16 ==> -16320 <= #[trigger] y2[i] * step_of(i, segment.y2dc, segment.y2ac) <= 16320
    &&& forall|i: int| 0 <= i < 256 ==> -2040 <= #[trigger] y[i] * segment.yac <= 2040
    &&& scalable(y2, segment.y2dc, segment.y2ac)
    &&& scalable(y, segment.yac, segment.yac)
}

/// Quantising a macroblock of pixel differences gives such levels.
pub proof fn lemma_levels(blocks: Seq<i32>, segment: Segment)
    requires
        segment.wf(),
        blocks.len() == 256,
        within(blocks, 2040),
    ensures
        levels_of(y2_levels(blocks, segment), y_levels(blocks, segment), segment),
{
    let c0 = coeffs0(blocks);
    let t = wht(c0);
    assert(within(c0, 2040));
    lemma_wht_bound(c0);
    let y2 = y2_levels(blocks, segment);
    lemma_quantized_bound(t, segment.y2dc, segment.y2ac, 16320);
    assert forall|i: int| 0 <= i < 16 implies -16320 <= #[trigger] y2[i] * step_of(
        i,
        segment.y2dc,
        segment.y2ac,
    ) <= 16320 by {
        lemma_trunc_div(t[i] as int, step_of(i, segment.y2dc, segment.y2ac));
    }
    let y = y_levels(blocks, segment);
    assert forall|i: int| 0 <= i < 256 implies -2040 <= #[trigger] y[i] * segment.yac <= 2040 by {
        lemma_trunc_div(blocks[i] as int, segment.yac as int);
        assert(0 * segment.yac == 0);
    }
}

/// The residue of a macroblock of pixel differences is small.
pub proof fn lemma_luma_residue_bound(y2: Seq<i32>, y: Seq<i32>, segment: Segment)
    requires
        levels_of(y2, y, segment),
    ensures
        within(y2_restored(y2, segment), 40001),
        y2_restored(y2, segment).len() == 16,
        luma_residue(y2, y, segment).len() == 256,
        within(luma_residue(y2, y, segment), 1000000),
        forall|k: int|
            0 <= k < 16 ==> within(
                #[trigger] y_restored(y2_restored(y2, segment), y, segment, k),
                50000,
            ),
{
    let dc = y2_restored(y2, segment);
    lemma_iwht_bound(scaled(y2, segment.y2dc, segment.y2ac));
    assert forall|k: int| 0 <= k < 16 implies within(
        #[trigger] y_restored(dc, y, segment, k),
        50000,
    ) by {
        let b = y_restored(dc, y, segment, k);
        assert forall|i: int| 0 <= i < 16 implies -50000 <= #[trigger] b[i] <= 50000 by {
            assert(-2040 <= y[k * 16 + i] * segment.yac <= 2040);
            assert(-40001 <= dc[k] <= 40001);
        }
    }
    let r = luma_residue(y2, y, segment);
    assert forall|n: int| 0 <= n < 256 implies -1000000 <= #[trigger] r[n] <= 1000000 by {
        let k = n / 16;
        let b = y_restored(dc, y, segment, k);
        assert(within(b, 50000));
        lemma_idct_bound(b);
        assert(-1000000 <= idct(b)[n % 16] <= 1000000);
    }
}

/// Residue that a decoder derives from the levels of a luma macroblock, and
/// which blocks have a coefficient that is not zero. The levels are replaced
/// by what they stand for: the DC levels by the DC coefficients, the others by
/// the residue.
pub fn get_dequantized_blocks_from_coeffs_luma_16x16(
    coeffs: &mut Luma16x16Coeffs,
    segment: &Segment,
) -> (r: ([i32; 256], [bool; 16]))
    requires
        scalable(old(coeffs).y2_coeffs@, segment.y2dc, segment.y2ac),
        scalable(old(coeffs).y_coeffs@, segment.yac, segment.yac),
    ensures
        r.0@ == luma_residue(old(coeffs).y2_coeffs@, old(coeffs).y_coeffs@, *segment),
        r.1@ == Seq::new(
            16,
            |k: int|
                luma_nonzero(old(coeffs).y2_coeffs@, old(coeffs).y_coeffs@, *segment, k),
        ),
        final(coeffs).y2_coeffs@ == y2_restored(old(coeffs).y2_coeffs@, *segment),
        final(coeffs).y_coeffs@ == r.0@,
{
    let ghost y2 = coeffs.y2_coeffs@;
    let ghost y = coeffs.y_coeffs@;
    dequantize(&mut coeffs.y2_coeffs, segment.y2dc, segment.y2ac);
    iwht4x4(&mut coeffs.y2_coeffs);
    let ghost dc = coeffs.y2_coeffs@;
    let mut residue = [0i32; 256];
    let mut nonzero = [false; 16];
    let mut k: usize = 0;
    while k < 16
        invariant
            k <= 16,
            scalable(y, segment.yac, segment.yac),
            y.len() == 256,
            dc == y2_restored(y2, *segment),
            coeffs.y2_coeffs@ == dc,
            coeffs.y_coeffs@ == y,
            forall|n: int|
                0 <= n < 256 && n / 16 < k ==> #[trigger] residue@[n] == luma_residue(
                    y2,
                    y,
                    *segment,
                )[n],
            forall|j: int|
                0 <= j < k ==> #[trigger] nonzero@[j] == luma_nonzero(y2, y, *segment, j),
        decreases 16 - k,
    {
        let mut block = [0i32; 16];
        block[0] = coeffs.y2_coeffs[k];
        let mut i: usize = 1;
        while i < 16
            invariant
                1 <= i <= 16,
                k < 16,
                scalable(y, segment.yac, segment.yac),
                y.len() == 256,
                coeffs.y_coeffs@ == y,
                forall|j: int|
                    0 <= j < i ==> #[trigger] block@[j] == y_restored(dc, y, *segment, k as int)[j],
            decreases 16 - i,
        {
            assert(i32::MIN <= y[k * 16 + i] * step_of(k * 16 + i, segment.yac, segment.yac)
                <= i32::MAX);
            block[i] = coeffs.y_coeffs[k * 16 + i] * (segment.yac as i32);
            i = i + 1;
        }
        assert(block@ =~= y_restored(dc, y, *segment, k as int));
        nonzero[k] = has_nonzero(&block);
        let ghost before = residue@;
        proof {
            lemma_idct_len(block@);
        }
        idct4x4(&mut block);
        store_block(&mut residue, k, &block);
        k = k + 1;
    }
    assert(residue@ =~= luma_residue(y2, y, *segment));
    assert(nonzero@ =~= Seq::new(16, |k: int| luma_nonzero(y2, y, *segment, k)));
    coeffs.y_coeffs = residue;
    (residue, nonzero)
}

/// Levels of a chroma macroblock.
pub fn get_chroma_block_coeffs(chroma_blocks: &[i32; 64], segment: &Segment) -> (coeffs: [i32; 64])
    requires
        segment.wf(),
    ensures
        coeffs@ == quantized(chroma_blocks@, segment.uvdc, segment.uvac),
{
    let mut coeffs: [i32; 64] = *chroma_blocks;
    quantize(&mut coeffs, segment.uvdc, segment.uvac);
    coeffs
}

/// Residue that a decoder derives from the levels of a chroma macroblock.
pub open spec fn chroma_residue(coeffs: Seq<i32>, segment: Segment) -> Seq<i32> {
    let b = scaled(coeffs, segment.uvdc, segment.uvac);
    Seq::new(64, |n: int| idct(block_at(b, n / 16))[n % 16])
}

/// Levels that come from quantising a chroma macroblock.
pub open spec fn chroma_levels_of(coeffs: Seq<i32>, segment: Segment) -> bool {
    &&& coeffs.len() == 64
    &&& forall|i: int|
        0 <= i < 64 ==> -2040 <= #[trigger] coeffs[i] * step_of(i, segment.uvdc, segment.uvac)
            <= 2040
    &&& scalable(coeffs, segment.uvdc, segment.uvac)
}

/// Quantising a chroma macroblock of pixel differences gives such levels.
pub proof fn lemma_chroma_levels(blocks: Seq<i32>, segment: Segment)
    requires
        segment.wf(),
        blocks.len() == 64,
        within(blocks, 2040),
    ensures
        chroma_levels_of(quantized(blocks, segment.uvdc, segment.uvac), segment),
        within(quantized(blocks, segment.uvdc, segment.uvac), 2040),
{
    let c = quantized(blocks, segment.uvdc, segment.uvac);
    lemma_quantized_bound(blocks, segment.uvdc, segment.uvac, 2040);
    assert forall|i: int| 0 <= i < 64 implies -2040 <= #[trigger] c[i] * step_of(
        i,
        segment.uvdc,
        segment.uvac,
    ) <= 2040 by {
        lemma_trunc_div(blocks[i] as int, step_of(i, segment.uvdc, segment.uvac));
    }
}

/// The residue of a chroma macroblock of pixel differences is small.
pub proof fn lemma_chroma_residue_bound(coeffs: Seq<i32>, segment: Segment)
    requires
        chroma_levels_of(coeffs, segment),
    ensures
        chroma_residue(coeffs, segment).len() == 64,
        within(chroma_residue(coeffs, segment), 1000000),
{
    let b = scaled(coeffs, segment.uvdc, segment.uvac);
    let r = chroma_residue(coeffs, segment);
    assert forall|n: int| 0 <= n < 64 implies -1000000 <= #[trigger] r[n] <= 1000000 by {
        let c = block_at(b, n / 16);
        assert forall|i: int| 0 <= i < 16 implies -50000 <= #[trigger] c[i] <= 50000 by {
            let m = (n / 16) * 16 + i;
            assert(-2040 <= coeffs[m] * step_of(m, segment.uvdc, segment.uvac) <= 2040);
        }
        lemma_idct_bound(c);
        assert(-1000000 <= idct(c)[n % 16] <= 1000000);
    }
}

/// Residue that a decoder derives from the levels of a chroma macroblock, and
/// which blocks have a coefficient that is not zero.
pub fn get_dequantized_blocks_from_coeffs_chroma(chroma_coeffs: &[i32; 64], segment: &Segment) -> (r:
    ([i32; 64], [bool; 4]))
    requires
        scalable(chroma_coeffs@, segment.uvdc, segment.uvac),
    ensures
        r.0@ == chroma_residue(chroma_coeffs@, *segment),
        r.1@ == Seq::new(
            4,
            |k: int|
                any_nonzero(
                    block_at(scaled(chroma_coeffs@, segment.uvdc, segment.uvac), k),
                ),
        ),
{
    let ghost c = chroma_coeffs@;
    let mut residue: [i32; 64] = *chroma_coeffs;
    dequantize(&mut residue, segment.uvdc, segment.uvac);
    let ghost b = residue@;
    let mut nonzero = [false; 4];
    let mut k: usize = 0;
    while k < 4
        invariant
            k <= 4,
            b == scaled(c, segment.uvdc, segment.uvac),
            b.len() == 64,
            forall|n: int|
                0 <= n < 64 ==> #[trigger] residue@[n] == if n / 16 < k {
                    chroma_residue(c, *segment)[n]
                } else {
                    b[n]
                },
            forall|j: int| 0 <= j < k ==> #[trigger] nonzero@[j] == any_nonzero(block_at(b, j)),
        decreases 4 - k,
    {
        let mut block = load_block(&residue, k);
        assert(block@ =~= block_at(b, k as int));
        nonzero[k] = has_nonzero(&block);
        proof {
            lemma_idct_len(block@);
        }
        idct4x4(&mut block);
        store_block(&mut residue, k, &block);
        k = k + 1;
    }
    assert(residue@ =~= chroma_residue(c, *segment));
    assert(nonzero@ =~= Seq::new(4, |k: int| any_nonzero(block_at(b, k))));
    (residue, nonzero)
}

} // verus!
