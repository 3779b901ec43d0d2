//! Intra prediction.
//!
//! A macroblock is predicted inside a buffer that holds it together with its
//! border: the row above it (and, for luma, four more pixels to the right),
//! the column to its left and the corner between them.
use vstd::prelude::*;

use crate::common::{
    ChromaMode, IntraMode, CHROMA_BLOCK_SIZE, CHROMA_STRIDE, LUMA_BLOCK_SIZE, LUMA_STRIDE,
};

verus! {

/// `v` limited to the range of a pixel.
pub open spec fn clamp_pixel(v: int) -> u8 {
    if v < 0 {
        0
    } else if v > 255 {
        255
    } else {
        v as u8
    }
}

pub fn clamp_to_pixel(v: i32) -> (r: u8)
    ensures
        r == clamp_pixel(v as int),
{
    if v < 0 {
        0
    } else if v > 255 {
        255
    } else {
        v as u8
    }
}

/// Pixels of a plane that is `w` wide stay inside the plane, row by row.
pub proof fn lemma_inside(x: int, y: int, w: int, h: int, len: int)
    requires
        0 <= x < w,
        0 <= y < h,
        w * h <= len,
    ensures
        0 <= y * w,
        y * w + x < len,
{
    assert(0 <= y * w && y * w + x < w * h) by (nonlinear_arith)
        requires
            0 <= x < w,
            0 <= y < h,
    ;
}

/// Column and row of a position.
pub proof fn lemma_position(x: int, y: int, w: int)
    requires
        0 <= x < w,
    ensures
        (y * w + x) / w == y,
        (y * w + x) % w == x,
{
    assert(y * w == w * y) by (nonlinear_arith);
    vstd::arithmetic::div_mod::lemma_fundamental_div_mod_converse(y * w + x, w, y, x);
}

/// Pixel in column `x` and row `y` of a plane that is `w` wide.
pub fn pixel_at(plane: &[u8], w: usize, x: usize, y: usize) -> (r: u8)
    requires
        y * w + x < plane@.len(),
    ensures
        r == plane@[y * w + x],
{
    let len: usize = plane.len();
    assert(0 <= y * w <= len) by (nonlinear_arith)
        requires
            y * w + x < len,
            0 <= x,
            0 <= y,
            0 <= w,
    ;
    plane[y * w + x]
}

/// Pixel `n` of the border of a luma macroblock; the interior is zero.
///
/// Beyond the frame, the row above is 127 and the column to the left 129. The
/// four pixels to the right of the row above are also the ones above and to
/// the right of the rightmost sub-blocks further down.
pub open spec fn luma_border_pixel(
    mbx: int,
    mby: int,
    mbw: int,
    plane: Seq<u8>,
    n: int,
) -> u8 {
    let w = mbw * 16;
    let row = n / 21;
    let col = n % 21;
    if row == 0 && col == 0 {
        if mby == 0 {
            127
        } else if mbx == 0 {
            129
        } else {
            plane[(mby * 16 - 1) * w + (mbx * 16 - 1)]
        }
    } else if row == 0 || (col >= 17 && (row == 4 || row == 8 || row == 12)) {
        if mby == 0 {
            127
        } else if col >= 17 && mbx == mbw - 1 {
            plane[(mby * 16 - 1) * w + (mbx * 16 + 15)]
        } else {
            plane[(mby * 16 - 1) * w + (mbx * 16 + col - 1)]
        }
    } else if col == 0 {
        if mbx == 0 {
            129
        } else {
            plane[(mby * 16 + row - 1) * w + (mbx * 16 - 1)]
        }
    } else {
        0
    }
}

/// Border of a luma macroblock.
pub open spec fn luma_border(mbx: int, mby: int, mbw: int, plane: Seq<u8>) -> Seq<u8> {
    Seq::new(357, |n: int| luma_border_pixel(mbx, mby, mbw, plane, n))
}

fn border_luma_pixel(mbx: usize, mby: usize, mbw: usize, plane: &[u8], n: usize) -> (r: u8)
    requires
        mbx < mbw <= 0x10000,
        mby < 0x10000,
        n < 357,
        (mbw * 16) * (mby * 16 + 16) <= plane@.len(),
    ensures
        r == luma_border_pixel(mbx as int, mby as int, mbw as int, plane@, n as int),
{
    let w: usize = mbw * 16;
    let row: usize = n / LUMA_STRIDE;
    let col: usize = n % LUMA_STRIDE;
    let ghost len = plane@.len() as int;
    let ghost h = mby * 16 + 16;
    if row == 0 && col == 0 {
        if mby == 0 {
            127
        } else if mbx == 0 {
            129
        } else {
            proof {
                lemma_inside(mbx * 16 - 1, mby * 16 - 1, w as int, h, len);
            }
            pixel_at(plane, w, mbx * 16 - 1, mby * 16 - 1)
        }
    } else if row == 0 || (col >= 17 && (row == 4 || row == 8 || row == 12)) {
        if mby == 0 {
            127
        } else if col >= 17 && mbx == mbw - 1 {
            proof {
                lemma_inside(mbx * 16 + 15, mby * 16 - 1, w as int, h, len);
            }
            pixel_at(plane, w, mbx * 16 + 15, mby * 16 - 1)
        } else {
            proof {
                lemma_inside(mbx * 16 + col - 1, mby * 16 - 1, w as int, h, len);
            }
            pixel_at(plane, w, mbx * 16 + col - 1, mby * 16 - 1)
        }
    } else if col == 0 {
        if mbx == 0 {
            129
        } else {
            proof {
                lemma_inside(mbx * 16 - 1, mby * 16 + row - 1, w as int, h, len);
            }
            pixel_at(plane, w, mbx * 16 - 1, mby * 16 + row - 1)
        }
    } else {
        0
    }
}

/// Border of a luma macroblock, from the plane of the pixels reconstructed so far.
pub fn create_border_luma_from_plane(
    mbx: usize,
    mby: usize,
    mbw: usize,
    plane: &[u8],
) -> (ws: [u8; LUMA_BLOCK_SIZE])
    requires
        mbx < mbw <= 0x10000,
        mby < 0x10000,
        (mbw * 16) * (mby * 16 + 16) <= plane@.len(),
    ensures
        ws@ == luma_border(mbx as int, mby as int, mbw as int, plane@),
        mby == 0 ==> forall|col: int| 0 <= col < 21 ==> #[trigger] ws@[col] == 127,
        mby > 0 ==> forall|col: int|
            1 <= col <= 16 ==> #[trigger] ws@[col] == plane@[(16 * mby - 1) * (16 * mbw) + 16 * mbx
                + col - 1],
{
    let mut ws = [0u8; LUMA_BLOCK_SIZE];
    let mut n: usize = 0;
    while n < LUMA_BLOCK_SIZE
        invariant
            n <= LUMA_BLOCK_SIZE,
            mbx < mbw <= 0x10000,
            mby < 0x10000,
            (mbw * 16) * (mby * 16 + 16) <= plane@.len(),
            forall|i: int|
                0 <= i < n ==> #[trigger] ws@[i] == luma_border_pixel(
                    mbx as int,
                    mby as int,
                    mbw as int,
                    plane@,
                    i,
                ),
        decreases LUMA_BLOCK_SIZE - n,
    {
        ws[n] = border_luma_pixel(mbx, mby, mbw, plane, n);
        n = n + 1;
    }
    assert(ws@ =~= luma_border(mbx as int, mby as int, mbw as int, plane@));
    ws
}

/// Pixel `n` of the border of a chroma macroblock; the interior is zero.
pub open spec fn chroma_border_pixel(
    mbx: int,
    mby: int,
    mbw: int,
    plane: Seq<u8>,
    n: int,
) -> u8 {
    let w = mbw * 8;
    let row = n / 9;
    let col = n % 9;
    if row == 0 && col == 0 {
        if mby == 0 {
            127
        } else if mbx == 0 {
            129
        } else {
            plane[(mby * 8 - 1) * w + (mbx * 8 - 1)]
        }
    } else if row == 0 {
        if mby == 0 {
            127
        } else {
            plane[(mby * 8 - 1) * w + (mbx * 8 + col - 1)]
        }
    } else if col == 0 {
        if mbx == 0 {
            129
        } else {
            plane[(mby * 8 + row - 1) * w + (mbx * 8 - 1)]
        }
    } else {
        0
    }
}

/// Border of a chroma macroblock.
pub open spec fn chroma_border(mbx: int, mby: int, mbw: int, plane: Seq<u8>) -> Seq<u8> {
    Seq::new(81, |n: int| chroma_border_pixel(mbx, mby, mbw, plane, n))
}

fn border_chroma_pixel(mbx: usize, mby: usize, mbw: usize, plane: &[u8], n: usize) -> (r: u8)
    requires
        mbx < mbw <= 0x10000,
        mby < 0x10000,
        n < 81,
        (mbw * 8) * (mby * 8 + 8) <= plane@.len(),
    ensures
        r == chroma_border_pixel(mbx as int, mby as int, mbw as int, plane@, n as int),
{
    let w: usize = mbw * 8;
    let row: usize = n / CHROMA_STRIDE;
    let col: usize = n % CHROMA_STRIDE;
    let ghost len = plane@.len() as int;
    let ghost h = mby * 8 + 8;
    if row == 0 && col == 0 {
        if mby == 0 {
            127
        } else if mbx == 0 {
            129
        } else {
            proof {
                lemma_inside(mbx * 8 - 1, mby * 8 - 1, w as int, h, len);
            }
            pixel_at(plane, w, mbx * 8 - 1, mby * 8 - 1)
        }
    } else if row == 0 {
        if mby == 0 {
            127
        } else {
            proof {
                lemma_inside(mbx * 8 + col - 1, mby * 8 - 1, w as int, h, len);
            }
            pixel_at(plane, w, mbx * 8 + col - 1, mby * 8 - 1)
        }
    } else if col == 0 {
        if mbx == 0 {
            129
        } else {
            proof {
                lemma_inside(mbx * 8 - 1, mby * 8 + row - 1, w as int, h, len);
            }
            pixel_at(plane, w, mbx * 8 - 1, mby * 8 + row - 1)
        }
    } else {
        0
    }
}

/// Border of a chroma macroblock, from the plane of the pixels reconstructed so far.
pub fn create_border_chroma_from_plane(
    mbx: usize,
    mby: usize,
    mbw: usize,
    plane: &[u8],
) -> (ws: [u8; CHROMA_BLOCK_SIZE])
    requires
        mbx < mbw <= 0x10000,
        mby < 0x10000,
        (mbw * 8) * (mby * 8 + 8) <= plane@.len(),
    ensures
        ws@ == chroma_border(mbx as int, mby as int, mbw as int, plane@),
        mby == 0 ==> forall|col: int| 0 <= col < 9 ==> #[trigger] ws@[col] == 127,
        mby > 0 ==> forall|col: int|
            1 <= col <= 8 ==> #[trigger] ws@[col] == plane@[(8 * mby - 1) * (8 * mbw) + 8 * mbx
                + col - 1],
{
    let mut ws = [0u8; CHROMA_BLOCK_SIZE];
    let mut n: usize = 0;
    while n < CHROMA_BLOCK_SIZE
        invariant
            n <= CHROMA_BLOCK_SIZE,
            mbx < mbw <= 0x10000,
            mby < 0x10000,
            (mbw * 8) * (mby * 8 + 8) <= plane@.len(),
            forall|i: int|
                0 <= i < n ==> #[trigger] ws@[i] == chroma_border_pixel(
                    mbx as int,
                    mby as int,
                    mbw as int,
                    plane@,
                    i,
                ),
        decreases CHROMA_BLOCK_SIZE - n,
    {
        ws[n] = border_chroma_pixel(mbx, mby, mbw, plane, n);
        n = n + 1;
    }
    assert(ws@ =~= chroma_border(mbx as int, mby as int, mbw as int, plane@));
    ws
}

/// Whether position `n` lies in the interior of a bordered macroblock.
pub open spec fn interior(n: int, size: int, stride: int) -> bool {
    1 <= n / stride <= size && 1 <= n % stride <= size
}

/// Sum of the first `k` pixels of the row above.
pub open spec fn sum_above(ws: Seq<u8>, k: int) -> int
    decreases k,
{
    if k <= 0 {
        0
    } else {
        sum_above(ws, k - 1) + ws[k]
    }
}

/// Sum of the first `k` pixels of the column to the left.
pub open spec fn sum_left(ws: Seq<u8>, stride: int, k: int) -> int
    decreases k,
{
    if k <= 0 {
        0
    } else {
        sum_left(ws, stride, k - 1) + ws[k * stride]
    }
}

/// Rounded mean of the border pixels that lie inside the frame, 128 if none does.
pub open spec fn dc_value(ws: Seq<u8>, size: int, stride: int, above: bool, left: bool) -> u8 {
    if above && left {
        ((sum_above(ws, size) + sum_left(ws, stride, size) + size) / (2 * size)) as u8
    } else if above {
        ((sum_above(ws, size) + size / 2) / size) as u8
    } else if left {
        ((sum_left(ws, stride, size) + size / 2) / size) as u8
    } else {
        128
    }
}

/// Prediction of the pixel at `n` from the pixel above its column, the pixel
/// to the left of its row and the corner.
pub open spec fn whole_pixel(
    ws: Seq<u8>,
    size: int,
    stride: int,
    mode: ChromaMode,
    above: bool,
    left: bool,
    n: int,
) -> u8 {
    let top = ws[n % stride];
    let side = ws[n - n % stride];
    match mode {
        ChromaMode::DC => dc_value(ws, size, stride, above, left),
        ChromaMode::V => top,
        ChromaMode::H => side,
        ChromaMode::TM => clamp_pixel(side + top - ws[0]),
    }
}

/// A bordered macroblock with its interior predicted.
pub open spec fn whole_prediction(
    ws: Seq<u8>,
    size: int,
    stride: int,
    mode: ChromaMode,
    above: bool,
    left: bool,
) -> Seq<u8> {
    Seq::new(
        ws.len(),
        |n: int|
            if interior(n, size, stride) {
                whole_pixel(ws, size, stride, mode, above, left, n)
            } else {
                ws[n]
            },
    )
}

/// The start of the row of a position.
proof fn lemma_row_start(n: int, stride: int)
    requires
        0 <= n,
        0 < stride,
    ensures
        0 <= n % stride < stride,
        0 <= n - n % stride <= n,
        (n - n % stride) % stride == 0,
        (n % stride) / stride == 0,
{
    vstd::arithmetic::div_mod::lemma_fundamental_div_mod(n, stride);
    let q = n / stride;
    assert(q >= 0) by (nonlinear_arith)
        requires
            q == n / stride,
            n >= 0,
            stride > 0,
    ;
    assert(stride * q >= 0) by (nonlinear_arith)
        requires
            q >= 0,
            stride > 0,
    ;
    vstd::arithmetic::div_mod::lemma_mod_multiples_basic(q, stride);
    assert(q * stride == stride * q) by (nonlinear_arith);
    vstd::arithmetic::div_mod::lemma_basic_div(n % stride, stride);
}

fn border_sums(ws: &[u8], size: usize, stride: usize) -> (r: (u32, u32))
    requires
        0 < size <= 16,
        size < stride <= 21,
        ws@.len() == (size + 1) * stride,
    ensures
        r.0 == sum_above(ws@, size as int),
        r.1 == sum_left(ws@, stride as int, size as int),
        r.0 <= 255 * size,
        r.1 <= 255 * size,
{
    let len: usize = ws.len();
    let mut above: u32 = 0;
    let mut left: u32 = 0;
    let mut position: usize = 0;
    let mut k: usize = 0;
    while k < size
        invariant
            k <= size <= 16,
            size < stride <= 21,
            len == ws@.len() == (size + 1) * stride,
            position == k * stride,
            above == sum_above(ws@, k as int),
            left == sum_left(ws@, stride as int, k as int),
            above <= 255 * k,
            left <= 255 * k,
        decreases size - k,
    {
        proof {
            assert((k + 1) * stride == k * stride + stride) by (nonlinear_arith);
            assert((k + 1) * stride < (size + 1) * stride) by (nonlinear_arith)
                requires
                    k < size,
                    stride > 0,
            ;
            assert((size + 1) * stride >= stride) by (nonlinear_arith);
        }
        k = k + 1;
        position = position + stride;
        above = above + ws[k] as u32;
        left = left + ws[position] as u32;
    }
    (above, left)
}

fn dc_pixel(ws: &[u8], size: usize, stride: usize, above: bool, left: bool) -> (r: u8)
    requires
        size == 8 || size == 16,
        size < stride <= 21,
        ws@.len() == (size + 1) * stride,
    ensures
        r == dc_value(ws@, size as int, stride as int, above, left),
{
    let (sum_of_above, sum_of_left) = border_sums(ws, size, stride);
    let count: u32 = size as u32;
    if above && left {
        ((sum_of_above + sum_of_left + count) / (2 * count)) as u8
    } else if above {
        ((sum_of_above + count / 2) / count) as u8
    } else if left {
        ((sum_of_left + count / 2) / count) as u8
    } else {
        128
    }
}

/// Predicts the interior of a bordered macroblock as a whole. `above` and
/// `left` tell which borders lie inside the frame.
pub fn predict_whole(
    ws: &mut [u8],
    size: usize,
    stride: usize,
    mode: ChromaMode,
    above: bool,
    left: bool,
)
    requires
        size == 8 || size == 16,
        size < stride <= 21,
        old(ws)@.len() == (size + 1) * stride,
    ensures
        final(ws)@ == whole_prediction(
            old(ws)@,
            size as int,
            stride as int,
            mode,
            above,
            left,
        ),
{
    let ghost b = ws@;
    let dc: u8 = dc_pixel(ws, size, stride, above, left);
    let len: usize = ws.len();
    let mut n: usize = 0;
    while n < len
        invariant
            n <= len == b.len() == ws@.len(),
            size < stride <= 21,
            dc == dc_value(b, size as int, stride as int, above, left),
            forall|i: int|
                0 <= i < len ==> #[trigger] ws@[i] == if i < n {
                    whole_prediction(b, size as int, stride as int, mode, above, left)[i]
                } else {
                    b[i]
                },
        decreases len - n,
    {
        let row: usize = n / stride;
        let col: usize = n % stride;
        proof {
            lemma_row_start(n as int, stride as int);
        }
        if 1 <= row && row <= size && 1 <= col && col <= size {
            let top: u8 = ws[col];
            let side: u8 = ws[n - col];
            let corner: u8 = ws[0];
            assert(n > 0);
            assert(0int / (stride as int) == 0) by (nonlinear_arith)
                requires
                    stride > 0,
            ;
            assert(top == b[col as int]);
            assert(side == b[n - col]);
            assert(corner == b[0]);
            let pixel: u8 = match mode {
                ChromaMode::DC => dc,
                ChromaMode::V => top,
                ChromaMode::H => side,
                ChromaMode::TM => clamp_to_pixel(side as i32 + top as i32 - corner as i32),
            };
            ws[n] = pixel;
        }
        n = n + 1;
    }
    assert(ws@ =~= whole_prediction(b, size as int, stride as int, mode, above, left));
}

/// Rounded mean of two pixels.
#[verifier::opaque]
pub open spec fn avg2(a: u8, b: u8) -> u8 {
    ((a + b + 1) / 2) as u8
}

/// Rounded mean of three pixels, the middle one counted twice.
#[verifier::opaque]
pub open spec fn avg3(a: u8, b: u8, c: u8) -> u8 {
    ((a + 2 * b + c + 2) / 4) as u8
}

fn mean2(a: u8, b: u8) -> (r: u8)
    ensures
        r == avg2(a, b),
{
    proof {
        reveal(avg2);
    }
    ((a as u32 + b as u32 + 1) / 2) as u8
}

fn mean3(a: u8, b: u8, c: u8) -> (r: u8)
    ensures
        r == avg3(a, b, c),
{
    proof {
        reveal(avg3);
    }
    ((a as u32 + 2 * b as u32 + c as u32 + 2) / 4) as u8
}

/// Edge of a sub-block as one line: the column to its left from bottom to top
/// (0 to 3), the corner (4) and the row above with four more pixels to the
/// right (5 to 12).
pub open spec fn edge_of(ws: Seq<u8>, x0: int, y0: int) -> Seq<u8> {
    Seq::new(
        13,
        |i: int|
            if i < 4 {
                ws[(y0 + 3 - i) * 21 + (x0 - 1)]
            } else {
                ws[(y0 - 1) * 21 + (x0 - 5 + i)]
            },
    )
}

/// Prediction of the pixel in column `x` and row `y` of a sub-block with edge `e`.
///
/// The directional modes project the edge along their direction: a pixel is
/// the mean of the two or three edge pixels that its projection falls between
/// or on.
pub open spec fn subblock_pixel(mode: IntraMode, e: Seq<u8>, x: int, y: int) -> u8 {
    match mode {
        IntraMode::DC => ((e[0] + e[1] + e[2] + e[3] + e[5] + e[6] + e[7] + e[8] + 4) / 8) as u8,
        IntraMode::TM => clamp_pixel(e[3 - y] + e[5 + x] - e[4]),
        IntraMode::VE => avg3(e[4 + x], e[5 + x], e[6 + x]),
        IntraMode::HE => if y == 3 {
            avg3(e[1], e[0], e[0])
        } else {
            avg3(e[4 - y], e[3 - y], e[2 - y])
        },
        IntraMode::LD => if x + y == 6 {
            avg3(e[11], e[12], e[12])
        } else {
            avg3(e[5 + x + y], e[6 + x + y], e[7 + x + y])
        },
        IntraMode::RD => avg3(e[3 + x - y], e[4 + x - y], e[5 + x - y]),
        IntraMode::VR => {
            let k = 2 * x - y;
            if k < -1 {
                avg3(e[4 + k], e[5 + k], e[6 + k])
            } else if k % 2 == 0 {
                avg2(e[4 + k / 2], e[5 + k / 2])
            } else {
                avg3(e[4 + (k - 1) / 2], e[5 + (k - 1) / 2], e[6 + (k - 1) / 2])
            }
        },
        IntraMode::VL => {
            let i = 5 + x + y / 2;
            if x == 3 && y >= 2 {
                avg3(e[7 + y], e[8 + y], e[9 + y])
            } else if y % 2 == 0 {
                avg2(e[i], e[i + 1])
            } else {
                avg3(e[i], e[i + 1], e[i + 2])
            }
        },
        IntraMode::HD => {
            let k = 2 * y - x;
            if k < -1 {
                avg3(e[2 - k], e[3 - k], e[4 - k])
            } else if k % 2 == 0 {
                avg2(e[3 - k / 2], e[4 - k / 2])
            } else {
                avg3(e[2 - (k - 1) / 2], e[3 - (k - 1) / 2], e[4 - (k - 1) / 2])
            }
        },
        IntraMode::HU => {
            let k = x + 2 * y;
            if k > 5 {
                e[0]
            } else if k == 5 {
                avg3(e[1], e[0], e[0])
            } else if k % 2 == 0 {
                avg2(e[3 - k / 2], e[2 - k / 2])
            } else {
                avg3(e[3 - k / 2], e[2 - k / 2], e[1 - k / 2])
            }
        },
    }
}

/// Prediction of a sub-block whose top left pixel is at `x0`, `y0`.
pub open spec fn subblock_prediction(ws: Seq<u8>, mode: IntraMode, x0: int, y0: int) -> Seq<u8> {
    Seq::new(16, |i: int| subblock_pixel(mode, edge_of(ws, x0, y0), i % 4, i / 4))
}

fn vertical_right(e: &[u8; 13], x: usize, y: usize) -> (r: u8)
    requires
        x < 4,
        y < 4,
    ensures
        r == subblock_pixel(IntraMode::VR, e@, x as int, y as int),
{
    let ghost k = 2 * x - y;
    if 2 * x + 1 < y {
        mean3(e[4 + 2 * x - y], e[5 + 2 * x - y], e[6 + 2 * x - y])
    } else if y % 2 == 0 {
        assert(k % 2 == 0 && k / 2 == x - y / 2);
        let i: usize = 4 + x - y / 2;
        mean2(e[i], e[i + 1])
    } else {
        assert(k % 2 == 1 && (k - 1) / 2 == x - y / 2 - 1);
        let i: usize = 3 + x - y / 2;
        mean3(e[i], e[i + 1], e[i + 2])
    }
}

fn vertical_left(e: &[u8; 13], x: usize, y: usize) -> (r: u8)
    requires
        x < 4,
        y < 4,
    ensures
        r == subblock_pixel(IntraMode::VL, e@, x as int, y as int),
{
    if x == 3 && y >= 2 {
        mean3(e[7 + y], e[8 + y], e[9 + y])
    } else {
        let i: usize = 5 + x + y / 2;
        if y % 2 == 0 {
            mean2(e[i], e[i + 1])
        } else {
            mean3(e[i], e[i + 1], e[i + 2])
        }
    }
}

fn horizontal_down(e: &[u8; 13], x: usize, y: usize) -> (r: u8)
    requires
        x < 4,
        y < 4,
    ensures
        r == subblock_pixel(IntraMode::HD, e@, x as int, y as int),
{
    let ghost k = 2 * y - x;
    if 2 * y + 1 < x {
        mean3(e[2 + x - 2 * y], e[3 + x - 2 * y], e[4 + x - 2 * y])
    } else {
        let i: usize = 3 + x / 2 - y;
        if x % 2 == 0 {
            assert(k % 2 == 0 && k / 2 == y - x / 2);
            mean2(e[i], e[i + 1])
        } else {
            assert(k % 2 == 1 && (k - 1) / 2 == y - x / 2 - 1);
            mean3(e[i], e[i + 1], e[i + 2])
        }
    }
}

fn horizontal_up(e: &[u8; 13], x: usize, y: usize) -> (r: u8)
    requires
        x < 4,
        y < 4,
    ensures
        r == subblock_pixel(IntraMode::HU, e@, x as int, y as int),
{
    let k: usize = x + 2 * y;
    if k > 5 {
        e[0]
    } else if k == 5 {
        mean3(e[1], e[0], e[0])
    } else if k % 2 == 0 {
        mean2(e[3 - k / 2], e[2 - k / 2])
    } else {
        mean3(e[3 - k / 2], e[2 - k / 2], e[1 - k / 2])
    }
}

fn subblock_value(mode: IntraMode, e: &[u8; 13], x: usize, y: usize) -> (r: u8)
    requires
        x < 4,
        y < 4,
    ensures
        r == subblock_pixel(mode, e@, x as int, y as int),
{
    match mode {
        IntraMode::DC => {
            let sum: u32 = e[0] as u32 + e[1] as u32 + e[2] as u32 + e[3] as u32 + e[5] as u32
                + e[6] as u32 + e[7] as u32 + e[8] as u32;
            ((sum + 4) / 8) as u8
        },
        IntraMode::TM => clamp_to_pixel(e[3 - y] as i32 + e[5 + x] as i32 - e[4] as i32),
        IntraMode::VE => mean3(e[4 + x], e[5 + x], e[6 + x]),
        IntraMode::HE => if y == 3 {
            mean3(e[1], e[0], e[0])
        } else {
            mean3(e[4 - y], e[3 - y], e[2 - y])
        },
        IntraMode::LD => if x + y == 6 {
            mean3(e[11], e[12], e[12])
        } else {
            mean3(e[5 + x + y], e[6 + x + y], e[7 + x + y])
        },
        IntraMode::RD => mean3(e[3 + x - y], e[4 + x - y], e[5 + x - y]),
        IntraMode::VR => vertical_right(e, x, y),
        IntraMode::VL => vertical_left(e, x, y),
        IntraMode::HD => horizontal_down(e, x, y),
        IntraMode::HU => horizontal_up(e, x, y),
    }
}

/// Prediction of the 4x4 sub-block whose top left pixel is at `x0`, `y0` in a
/// bordered luma macroblock.
pub fn predict_subblock(
    ws: &[u8; LUMA_BLOCK_SIZE],
    mode: IntraMode,
    x0: usize,
    y0: usize,
) -> (block: [u8; 16])
    requires
        1 <= x0 <= 13,
        1 <= y0 <= 13,
    ensures
        block@ == subblock_prediction(ws@, mode, x0 as int, y0 as int),
{
    let mut e = [0u8; 13];
    let mut i: usize = 0;
    while i < 13
        invariant
            i <= 13,
            1 <= x0 <= 13,
            1 <= y0 <= 13,
            forall|j: int| 0 <= j < i ==> #[trigger] e@[j] == edge_of(ws@, x0 as int, y0 as int)[j],
        decreases 13 - i,
    {
        e[i] =
        if i < 4 {
            ws[(y0 + 3 - i) * LUMA_STRIDE + (x0 - 1)]
        } else {
            ws[(y0 - 1) * LUMA_STRIDE + (x0 + i - 5)]
        };
        i = i + 1;
    }
    assert(e@ =~= edge_of(ws@, x0 as int, y0 as int));
    let mut block = [0u8; 16];
    let mut k: usize = 0;
    while k < 16
        invariant
            k <= 16,
            e@ == edge_of(ws@, x0 as int, y0 as int),
            forall|j: int|
                0 <= j < k ==> #[trigger] block@[j] == subblock_pixel(mode, e@, j % 4, j / 4),
        decreases 16 - k,
    {
        block[k] = subblock_value(mode, &e, k % 4, k / 4);
        k = k + 1;
    }
    assert(block@ =~= subblock_prediction(ws@, mode, x0 as int, y0 as int));
    block
}

} // verus!
