//! Blocks of pixels: differences from the source, reconstruction, distortion.
use vstd::prelude::*;

use crate::common::{LUMA_BLOCK_SIZE, LUMA_STRIDE};
use crate::prediction::{
    clamp_pixel, clamp_to_pixel, interior, lemma_inside, lemma_position, pixel_at,
};
use crate::transform::within;

verus! {

/// Dimensions of a bordered macroblock buffer: luma or chroma.
pub open spec fn bordered(len: int, size: int, stride: int) -> bool {
    (size == 16 && stride == 21 && len == 357) || (size == 8 && stride == 9 && len == 81)
}

/// The macroblock at `px`, `py` lies inside a plane that is `w` wide.
pub open spec fn fits(len: int, w: int, px: int, py: int, size: int) -> bool {
    &&& 0 <= px
    &&& 0 <= py
    &&& px + size <= w
    &&& w * (py + size) <= len
    &&& w <= 0x10_0000
    &&& py <= 0x10_0000
}

/// Difference between a 4x4 block of the source and its prediction.
pub open spec fn residual(
    ws: Seq<u8>,
    stride: int,
    x0: int,
    y0: int,
    src: Seq<u8>,
    w: int,
    px: int,
    py: int,
) -> Seq<i32> {
    Seq::new(
        16,
        |i: int|
            (src[(py + i / 4) * w + (px + i % 4)] - ws[(y0 + i / 4) * stride + (x0 + i % 4)]) as i32,
    )
}

/// Differences of pixels.
pub proof fn lemma_residual_bound(
    ws: Seq<u8>,
    stride: int,
    x0: int,
    y0: int,
    src: Seq<u8>,
    w: int,
    px: int,
    py: int,
)
    ensures
        residual(ws, stride, x0, y0, src, w, px, py).len() == 16,
        within(residual(ws, stride, x0, y0, src, w, px, py), 255),
{
}

/// Difference between the 4x4 block of the source at `px`, `py` and the block
/// of the bordered macroblock at `x0`, `y0`.
pub fn residual_block(
    ws: &[u8],
    stride: usize,
    x0: usize,
    y0: usize,
    src: &[u8],
    w: usize,
    px: usize,
    py: usize,
    size: usize,
) -> (block: [i32; 16])
    requires
        bordered(ws@.len() as int, size as int, stride as int),
        1 <= x0 <= size - 3,
        1 <= y0 <= size - 3,
        fits(src@.len() as int, w as int, px as int, py as int, 4),
    ensures
        block@ == residual(
            ws@,
            stride as int,
            x0 as int,
            y0 as int,
            src@,
            w as int,
            px as int,
            py as int,
        ),
        within(block@, 255),
{
    let mut block = [0i32; 16];
    let mut i: usize = 0;
    while i < 16
        invariant
            i <= 16,
            bordered(ws@.len() as int, size as int, stride as int),
            1 <= x0 <= size - 3,
            1 <= y0 <= size - 3,
            fits(src@.len() as int, w as int, px as int, py as int, 4),
            forall|j: int|
                0 <= j < i ==> #[trigger] block@[j] == residual(
                    ws@,
                    stride as int,
                    x0 as int,
                    y0 as int,
                    src@,
                    w as int,
                    px as int,
                    py as int,
                )[j],
        decreases 16 - i,
    {
        let x: usize = i % 4;
        let y: usize = i / 4;
        proof {
            lemma_inside(px + x, py + y, w as int, py + 4, src@.len() as int);
            lemma_inside(x0 + x, y0 + y, stride as int, size + 1, ws@.len() as int);
        }
        let actual: u8 = pixel_at(src, w, px + x, py + y);
        let predicted: u8 = pixel_at(ws, stride, x0 + x, y0 + y);
        block[i] = actual as i32 - predicted as i32;
        i = i + 1;
    }
    proof {
        lemma_residual_bound(
            ws@,
            stride as int,
            x0 as int,
            y0 as int,
            src@,
            w as int,
            px as int,
            py as int,
        );
    }
    assert(block@ =~= residual(
        ws@,
        stride as int,
        x0 as int,
        y0 as int,
        src@,
        w as int,
        px as int,
        py as int,
    ));
    block
}

/// A prediction with a residue added.
pub open spec fn added(predicted: Seq<u8>, residue: Seq<i32>) -> Seq<u8> {
    Seq::new(16, |i: int| clamp_pixel(predicted[i] + residue[i]))
}

/// A 4x4 prediction with its residue added.
pub fn add_block(predicted: &[u8; 16], residue: &[i32; 16]) -> (block: [u8; 16])
    requires
        within(residue@, 0x1000_0000),
    ensures
        block@ == added(predicted@, residue@),
{
    let mut block = [0u8; 16];
    let mut i: usize = 0;
    while i < 16
        invariant
            i <= 16,
            within(residue@, 0x1000_0000),
            forall|j: int| 0 <= j < i ==> #[trigger] block@[j] == added(predicted@, residue@)[j],
        decreases 16 - i,
    {
        block[i] = clamp_to_pixel(predicted[i] as i32 + residue[i]);
        i = i + 1;
    }
    assert(block@ =~= added(predicted@, residue@));
    block
}

/// A bordered luma macroblock with the sub-block at `x0`, `y0` replaced.
pub open spec fn with_subblock(ws: Seq<u8>, block: Seq<u8>, x0: int, y0: int) -> Seq<u8> {
    Seq::new(
        357,
        |n: int|
            {
                let row = n / 21 - y0;
                let col = n % 21 - x0;
                if 0 <= row < 4 && 0 <= col < 4 {
                    block[row * 4 + col]
                } else {
                    ws[n]
                }
            },
    )
}

/// Replaces the sub-block at `x0`, `y0` of a bordered luma macroblock.
pub fn put_subblock(ws: &mut [u8; LUMA_BLOCK_SIZE], block: &[u8; 16], x0: usize, y0: usize)
    requires
        1 <= x0 <= 13,
        1 <= y0 <= 13,
    ensures
        final(ws)@ == with_subblock(old(ws)@, block@, x0 as int, y0 as int),
{
    let ghost b = ws@;
    let mut n: usize = 0;
    while n < LUMA_BLOCK_SIZE
        invariant
            n <= LUMA_BLOCK_SIZE,
            1 <= x0 <= 13,
            1 <= y0 <= 13,
            forall|i: int|
                0 <= i < 357 ==> #[trigger] ws@[i] == if i < n {
                    with_subblock(b, block@, x0 as int, y0 as int)[i]
                } else {
                    b[i]
                },
        decreases LUMA_BLOCK_SIZE - n,
    {
        let row: usize = n / LUMA_STRIDE;
        let col: usize = n % LUMA_STRIDE;
        if y0 <= row && row < y0 + 4 && x0 <= col && col < x0 + 4 {
            ws[n] = block[(row - y0) * 4 + (col - x0)];
        }
        n = n + 1;
    }
    assert(ws@ =~= with_subblock(b, block@, x0 as int, y0 as int));
}

/// Index, among coefficients that are stored block by block, of the pixel in
/// column `col` and row `row` of a macroblock that is `size` wide.
#[verifier::opaque]
pub open spec fn block_position(row: int, col: int, size: int) -> int {
    (if size == 16 {
        (row / 4) * 64
    } else {
        (row / 4) * 32
    }) + (col / 4) * 16 + (row % 4) * 4 + col % 4
}

fn block_index(row: usize, col: usize, size: usize) -> (r: usize)
    requires
        size == 8 || size == 16,
        row < size,
        col < size,
    ensures
        r == block_position(row as int, col as int, size as int),
        r < size * size,
{
    proof {
        reveal(block_position);
    }
    if size == 16 {
        assert(size * size == 256);
        (row / 4) * 64 + (col / 4) * 16 + (row % 4) * 4 + col % 4
    } else {
        assert(size * size == 64);
        (row / 4) * 32 + (col / 4) * 16 + (row % 4) * 4 + col % 4
    }
}

/// A bordered macroblock with a residue, stored block by block, added to its
/// interior.
pub open spec fn with_residue(ws: Seq<u8>, residue: Seq<i32>, size: int, stride: int) -> Seq<u8> {
    Seq::new(
        ws.len(),
        |n: int|
            if interior(n, size, stride) {
                clamp_pixel(
                    ws[n] + residue[block_position(n / stride - 1, n % stride - 1, size)],
                )
            } else {
                ws[n]
            },
    )
}

/// Adds the residue of all blocks to a predicted macroblock.
pub fn add_residue(ws: &mut [u8], residue: &[i32], size: usize, stride: usize)
    requires
        bordered(old(ws)@.len() as int, size as int, stride as int),
        residue@.len() == size * size,
        within(residue@, 0x1000_0000),
    ensures
        final(ws)@ == with_residue(old(ws)@, residue@, size as int, stride as int),
{
    let ghost b = ws@;
    let len: usize = ws.len();
    let mut n: usize = 0;
    while n < len
        invariant
            n <= len == b.len() == ws@.len(),
            bordered(len as int, size as int, stride as int),
            residue@.len() == size * size,
            within(residue@, 0x1000_0000),
            forall|i: int|
                0 <= i < len ==> #[trigger] ws@[i] == if i < n {
                    with_residue(b, residue@, size as int, stride as int)[i]
                } else {
                    b[i]
                },
        decreases len - n,
    {
        let row: usize = n / stride;
        let col: usize = n % stride;
        if 1 <= row && row <= size && 1 <= col && col <= size {
            let position: usize = block_index(row - 1, col - 1, size);
            assert(-0x1000_0000 <= residue@[position as int] <= 0x1000_0000);
            ws[n] = clamp_to_pixel(ws[n] as i32 + residue[position]);
        }
        n = n + 1;
    }
    assert(ws@ =~= with_residue(b, residue@, size as int, stride as int));
}

/// Row and column of the pixels of a macroblock, counted row by row.
proof fn lemma_raster(k: int, size: int)
    requires
        size == 8 || size == 16,
        0 <= k < size * size,
    ensures
        0 <= k / size < size,
        0 <= k % size < size,
        k == (k / size) * size + k % size,
{
    if size == 16 {
        assert(16int * 16 == 256);
    } else {
        assert(8int * 8 == 64);
    }
}

/// Squared difference of pixel `k` of the interior from the source.
pub open spec fn squared_error(
    ws: Seq<u8>,
    size: int,
    stride: int,
    src: Seq<u8>,
    w: int,
    px: int,
    py: int,
    k: int,
) -> int {
    let d = ws[(k / size + 1) * stride + (k % size + 1)] - src[(py + k / size) * w + (px + k % size)];
    d * d
}

/// Sum of the squared differences of the first `k` pixels of the interior.
pub open spec fn sse(
    ws: Seq<u8>,
    size: int,
    stride: int,
    src: Seq<u8>,
    w: int,
    px: int,
    py: int,
    k: int,
) -> int
    decreases k,
{
    if k <= 0 {
        0
    } else {
        sse(ws, size, stride, src, w, px, py, k - 1) + squared_error(
            ws,
            size,
            stride,
            src,
            w,
            px,
            py,
            k - 1,
        )
    }
}

/// Sum of squared differences between the interior of a bordered macroblock
/// and the source.
pub fn macroblock_sse(
    ws: &[u8],
    size: usize,
    stride: usize,
    src: &[u8],
    w: usize,
    px: usize,
    py: usize,
) -> (r: i64)
    requires
        bordered(ws@.len() as int, size as int, stride as int),
        fits(src@.len() as int, w as int, px as int, py as int, size as int),
    ensures
        r == sse(
            ws@,
            size as int,
            stride as int,
            src@,
            w as int,
            px as int,
            py as int,
            size * size,
        ),
        0 <= r <= 65025 * 256,
{
    let count: usize = size * size;
    let mut r: i64 = 0;
    let mut k: usize = 0;
    while k < count
        invariant
            k <= count == size * size <= 256,
            bordered(ws@.len() as int, size as int, stride as int),
            fits(src@.len() as int, w as int, px as int, py as int, size as int),
            r == sse(
                ws@,
                size as int,
                stride as int,
                src@,
                w as int,
                px as int,
                py as int,
                k as int,
            ),
            0 <= r <= 65025 * k,
        decreases count - k,
    {
        let y: usize = k / size;
        let x: usize = k % size;
        proof {
            lemma_raster(k as int, size as int);
            lemma_inside(px + x, py + y, w as int, py + size, src@.len() as int);
            lemma_inside(x + 1, y + 1, stride as int, size + 1, ws@.len() as int);
        }
        let d: i64 = pixel_at(ws, stride, x + 1, y + 1) as i64 - pixel_at(src, w, px + x, py + y) as i64;
        assert(0 <= d * d <= 65025) by (nonlinear_arith)
            requires
                -255 <= d <= 255,
        ;
        r = r + d * d;
        k = k + 1;
    }
    r
}

/// Whether position `n` of a plane lies in the macroblock at `px`, `py`.
pub open spec fn in_macroblock(n: int, w: int, px: int, py: int, size: int) -> bool {
    px <= n % w < px + size && py <= n / w < py + size
}

/// A plane with the macroblock at `px`, `py` replaced by the interior of a
/// bordered macroblock.
pub open spec fn placed(
    plane: Seq<u8>,
    w: int,
    px: int,
    py: int,
    ws: Seq<u8>,
    size: int,
    stride: int,
) -> Seq<u8> {
    Seq::new(
        plane.len(),
        |n: int|
            if in_macroblock(n, w, px, py, size) {
                ws[(n / w - py + 1) * stride + (n % w - px + 1)]
            } else {
                plane[n]
            },
    )
}

/// Copies the interior of a bordered macroblock to its place in a plane.
pub fn place_macroblock(
    plane: &mut Vec<u8>,
    w: usize,
    px: usize,
    py: usize,
    ws: &[u8],
    size: usize,
    stride: usize,
)
    requires
        bordered(ws@.len() as int, size as int, stride as int),
        fits(old(plane)@.len() as int, w as int, px as int, py as int, size as int),
    ensures
        final(plane)@ == placed(
            old(plane)@,
            w as int,
            px as int,
            py as int,
            ws@,
            size as int,
            stride as int,
        ),
{
    let ghost b = plane@;
    let ghost target = placed(b, w as int, px as int, py as int, ws@, size as int, stride as int);
    let count: usize = size * size;
    let len: usize = plane.len();
    let mut k: usize = 0;
    while k < count
        invariant
            k <= count == size * size <= 256,
            bordered(ws@.len() as int, size as int, stride as int),
            fits(b.len() as int, w as int, px as int, py as int, size as int),
            len == plane@.len() == b.len(),
            target == placed(b, w as int, px as int, py as int, ws@, size as int, stride as int),
            forall|n: int|
                0 <= n < b.len() ==> #[trigger] plane@[n] == if in_macroblock(
                    n,
                    w as int,
                    px as int,
                    py as int,
                    size as int,
                ) && (n / (w as int) - py) * size + (n % (w as int) - px) < k {
                    target[n]
                } else {
                    b[n]
                },
        decreases count - k,
    {
        let y: usize = k / size;
        let x: usize = k % size;
        proof {
            lemma_raster(k as int, size as int);
            lemma_inside(px + x, py + y, w as int, py + size, b.len() as int);
            lemma_inside(x + 1, y + 1, stride as int, size + 1, ws@.len() as int);
            lemma_position(px + x, py + y, w as int);
        }
        let index: usize = (py + y) * w + (px + x);
        plane[index] = pixel_at(ws, stride, x + 1, y + 1);
        proof {
            assert forall|n: int|
                0 <= n < b.len() && in_macroblock(n, w as int, px as int, py as int, size as int) && (
                n / (w as int) - py) * size + (n % (w as int) - px) == k implies n == index by {
                vstd::arithmetic::div_mod::lemma_fundamental_div_mod(n, w as int);
                let q = n / (w as int);
                assert(q == py + y && n % (w as int) == px + x);
                assert(w * q == q * w) by (nonlinear_arith);
            }
        }
        k = k + 1;
    }
    assert(plane@ =~= target);
}

} // verus!
