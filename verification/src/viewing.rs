//! How a decoder turns modes and levels into pixels.
//!
//! Everything is said of the planes of the frame, in their own coordinates.
use vstd::prelude::*;

use crate::common::{ChromaMode, IntraMode, LumaMode, Segment};
use crate::model::{Canvas, Decision};
use crate::residual_reading::Levels;

verus! {

/// What prediction sees at column `x` and row `y` of a plane that is `w` wide:
/// 127 above the frame, 129 to the left of it.
pub open spec fn seen(plane: Seq<u8>, w: int, x: int, y: int) -> int {
    if y < 0 {
        127
    } else if x < 0 {
        129
    } else {
        plane[y * w + x] as int
    }
}

/// The nearest pixel value.
pub open spec fn nearest_pixel(v: int) -> int {
    if v < 0 {
        0
    } else if v > 255 {
        255
    } else {
        v
    }
}

/// Sum of `n` pixels of row `y` from column `x` on.
pub open spec fn row_total(plane: Seq<u8>, w: int, x: int, y: int, n: int) -> int
    decreases n,
{
    if n <= 0 {
        0
    } else {
        row_total(plane, w, x, y, n - 1) + seen(plane, w, x + n - 1, y)
    }
}

/// Sum of `n` pixels of column `x` from row `y` on.
pub open spec fn column_total(plane: Seq<u8>, w: int, x: int, y: int, n: int) -> int
    decreases n,
{
    if n <= 0 {
        0
    } else {
        column_total(plane, w, x, y, n - 1) + seen(plane, w, x, y + n - 1)
    }
}

/// Prediction of the pixel at `x`, `y` in the block at `px`, `py` that is
/// predicted as a whole.
pub open spec fn foretold(
    plane: Seq<u8>,
    w: int,
    px: int,
    py: int,
    size: int,
    mode: ChromaMode,
    x: int,
    y: int,
) -> int {
    let above = seen(plane, w, x, py - 1);
    let beside = seen(plane, w, px - 1, y);
    match mode {
        ChromaMode::V => above,
        ChromaMode::H => beside,
        ChromaMode::TM => nearest_pixel(beside + above - seen(plane, w, px - 1, py - 1)),
        ChromaMode::DC => {
            let row = row_total(plane, w, px, py - 1, size);
            let column = column_total(plane, w, px - 1, py, size);
            if py > 0 && px > 0 {
                (row + column + size) / (2 * size)
            } else if py > 0 {
                (2 * row + size) / (2 * size)
            } else if px > 0 {
                (2 * column + size) / (2 * size)
            } else {
                128
            }
        },
    }
}

/// `x` times 1.30656, rounded down.
pub open spec fn enlarged(x: i32) -> int {
    85627 * x / 65536
}

/// `x` times 0.5412, rounded down.
pub open spec fn halved(x: i32) -> int {
    35468 * x / 65536
}

/// Four values of the inverse cosine transform in one direction.
pub open spec fn wave(x0: i32, x1: i32, x2: i32, x3: i32, k: int) -> int {
    if k == 0 {
        x0 + x2 + (enlarged(x1) + halved(x3))
    } else if k == 1 {
        x0 - x2 + (halved(x1) - enlarged(x3))
    } else if k == 2 {
        x0 - x2 - (halved(x1) - enlarged(x3))
    } else {
        x0 + x2 - (enlarged(x1) + halved(x3))
    }
}

/// The pixel differences that sixteen coefficients stand for: first down the
/// columns, then along the rows.
pub open spec fn differences(c: Seq<i32>, n: int) -> i32 {
    let column = |i: int, k: int| wave(c[i], c[i + 4], c[i + 8], c[i + 12], k) as i32;
    let r = n / 4;
    ((wave(column(0, r), column(1, r), column(2, r), column(3, r), n % 4) + 4) / 8) as i32
}

/// Sum of four values with the signs of pattern `k`.
pub open spec fn pattern(x0: i32, x1: i32, x2: i32, x3: i32, k: int) -> int {
    if k == 0 {
        x0 + x1 + x2 + x3
    } else if k == 1 {
        x0 + x1 - x2 - x3
    } else if k == 2 {
        x0 - x1 - x2 + x3
    } else {
        x0 - x1 + x2 - x3
    }
}

/// The DC coefficients of sixteen blocks that sixteen coefficients stand for.
pub open spec fn dc_parts(c: Seq<i32>, n: int) -> i32 {
    let column = |i: int, k: int| pattern(c[i], c[i + 4], c[i + 8], c[i + 12], k) as i32;
    let r = n / 4;
    ((pattern(column(0, r), column(1, r), column(2, r), column(3, r), n % 4) + 3) / 8) as i32
}

/// Where in coding order the coefficient in row `n / 4` and column `n % 4`
/// stands: along the diagonals, back and forth.
pub open spec fn diagonal_position(n: int) -> int {
    seq![0int, 1, 5, 6, 2, 4, 7, 12, 3, 8, 11, 13, 9, 10, 14, 15][n]
}

/// Coefficients of a block from its levels in coding order.
pub open spec fn restored_block(z: Seq<i32>, dc: i16, ac: i16) -> Seq<i32> {
    Seq::new(
        16,
        |n: int|
            (z[diagonal_position(n)] * (if n == 0 {
                dc
            } else {
                ac
            })) as i32,
    )
}

/// Coefficients of luma block `k` of a macroblock that is predicted as a whole:
/// the DC coefficients come from a block of their own.
pub open spec fn restored_whole(z: Levels, segment: Segment, k: int) -> Seq<i32> {
    restored_block(z.y[k], segment.ydc, segment.yac).update(
        0,
        dc_parts(restored_block(z.y2, segment.y2dc, segment.y2ac), k),
    )
}

/// A plane with the block at `px`, `py` predicted as a whole, and its
/// differences added. The differences are given for each 4x4 block.
pub open spec fn shown_whole(
    plane: Seq<u8>,
    w: int,
    px: int,
    py: int,
    size: int,
    mode: ChromaMode,
    blocks: spec_fn(int) -> Seq<i32>,
) -> Seq<u8> {
    Seq::new(
        plane.len(),
        |n: int|
            {
                let (x, y) = (n % w, n / w);
                let (dx, dy) = (x - px, y - py);
                if 0 <= dx < size && 0 <= dy < size {
                    nearest_pixel(
                        foretold(plane, w, px, py, size, mode, x, y) + differences(
                            blocks(dy / 4 * (size / 4) + dx / 4),
                            dy % 4 * 4 + dx % 4,
                        ),
                    ) as u8
                } else {
                    plane[n]
                }
            },
    )
}

/// The surroundings of the luma macroblock at `px`, `py`, in rows of 21: the
/// row above with four pixels more to the right, and the column to the left.
/// The sub-blocks at the right edge see those four pixels too. Beyond the
/// right edge of the frame its last pixel is repeated.
pub open spec fn tile(plane: Seq<u8>, w: int, px: int, py: int) -> Seq<u8> {
    Seq::new(
        357,
        |n: int|
            {
                let (row, col) = (n / 21, n % 21);
                let x = px + col - 1;
                if row == 0 || (col > 16 && row % 4 == 0 && row < 16) {
                    seen(
                        plane,
                        w,
                        if x < w {
                            x
                        } else {
                            w - 1
                        },
                        py - 1,
                    ) as u8
                } else if col == 0 {
                    seen(plane, w, x, py + row - 1) as u8
                } else {
                    0
                }
            },
    )
}

/// The edge of sub-block `k` as one line: up its left side, round the corner,
/// and along the row above.
pub open spec fn edge_line(t: Seq<u8>, k: int) -> Seq<u8> {
    let (row, col) = (k / 4 * 4, k % 4 * 4);
    Seq::new(
        13,
        |i: int|
            if i < 4 {
                t[(row + 4 - i) * 21 + col]
            } else {
                t[row * 21 + col + i - 4]
            },
    )
}

/// Pixel `i` of an edge. Beyond its ends the last pixel is repeated.
pub open spec fn edge_at(e: Seq<u8>, i: int) -> int {
    (if i < 0 {
        e[0]
    } else if i > 12 {
        e[12]
    } else {
        e[i]
    }) as int
}

/// The edge, smoothed, at half of `p`: on a pixel it is weighed with its two
/// neighbours, between two pixels they are averaged.
pub open spec fn smooth(e: Seq<u8>, p: int) -> int {
    let i = p / 2;
    if p % 2 == 0 {
        (edge_at(e, i - 1) + 2 * edge_at(e, i) + edge_at(e, i + 1) + 2) / 4
    } else {
        (edge_at(e, i) + edge_at(e, i + 1) + 1) / 2
    }
}

/// Where, in halves, the pixel at `x`, `y` of a sub-block meets the edge in the
/// direction of a mode.
pub open spec fn meeting(mode: IntraMode, x: int, y: int) -> int {
    match mode {
        IntraMode::VE => 10 + 2 * x,
        IntraMode::HE => 6 - 2 * y,
        IntraMode::LD => 12 + 2 * x + 2 * y,
        IntraMode::RD => 8 + 2 * x - 2 * y,
        IntraMode::VR => seq![9int, 11, 13, 15, 8, 10, 12, 14, 6, 9, 11, 13, 4, 8, 10, 12][4 * y + x],
        IntraMode::VL => seq![11int, 13, 15, 17, 12, 14, 16, 18, 13, 15, 17, 20, 14, 16, 18, 22][4 * y
            + x],
        IntraMode::HD => seq![7int, 8, 10, 12, 5, 6, 7, 8, 3, 4, 5, 6, 1, 2, 3, 4][4 * y + x],
        IntraMode::HU => 5 - x - 2 * y,
        _ => 0,
    }
}

/// Prediction of the pixel at `x`, `y` of a sub-block.
pub open spec fn foretold_small(e: Seq<u8>, mode: IntraMode, x: int, y: int) -> int {
    match mode {
        IntraMode::DC => (e[0] + e[1] + e[2] + e[3] + e[5] + e[6] + e[7] + e[8] + 4) / 8,
        IntraMode::TM => nearest_pixel(e[3 - y] + e[5 + x] - e[4]),
        _ => smooth(e, meeting(mode, x, y)),
    }
}

/// The macroblock, in its surroundings, with the first `k` sub-blocks shown.
pub open spec fn shown_subblocks(
    t: Seq<u8>,
    modes: Seq<IntraMode>,
    zs: Seq<Seq<i32>>,
    segment: Segment,
    k: int,
) -> Seq<u8>
    decreases k,
{
    if k <= 0 {
        t
    } else {
        let j = k - 1;
        let before = shown_subblocks(t, modes, zs, segment, j);
        let c = restored_block(zs[j], segment.ydc, segment.yac);
        Seq::new(
            357,
            |n: int|
                {
                    let x = n % 21 - 1 - j % 4 * 4;
                    let y = n / 21 - 1 - j / 4 * 4;
                    if 0 <= x < 4 && 0 <= y < 4 {
                        nearest_pixel(
                            foretold_small(edge_line(before, j), modes[j], x, y) + differences(
                                c,
                                4 * y + x,
                            ),
                        ) as u8
                    } else {
                        before[n]
                    }
                },
        )
    }
}

/// A plane with a macroblock predicted by sub-blocks shown.
pub open spec fn shown_by_subblocks(
    plane: Seq<u8>,
    w: int,
    px: int,
    py: int,
    modes: Seq<IntraMode>,
    zs: Seq<Seq<i32>>,
    segment: Segment,
) -> Seq<u8> {
    let t = shown_subblocks(tile(plane, w, px, py), modes, zs, segment, 16);
    Seq::new(
        plane.len(),
        |n: int|
            {
                let (dx, dy) = (n % w - px, n / w - py);
                if 0 <= dx < 16 && 0 <= dy < 16 {
                    t[(dy + 1) * 21 + dx + 1]
                } else {
                    plane[n]
                }
            },
    )
}

/// The canvas with a macroblock shown.
#[verifier::opaque]
pub open spec fn shown_macroblock(
    mbw: int,
    canvas: Canvas,
    d: Decision,
    z: Levels,
    segment: Segment,
    mbx: int,
    mby: int,
) -> Canvas {
    let whole = match d.luma_mode {
        LumaMode::V => ChromaMode::V,
        LumaMode::H => ChromaMode::H,
        LumaMode::TM => ChromaMode::TM,
        _ => ChromaMode::DC,
    };
    let (w, px, py) = (16 * mbw, 16 * mbx, 16 * mby);
    Canvas {
        y: if d.luma_mode == LumaMode::B {
            shown_by_subblocks(canvas.y, w, px, py, d.luma_bpred.unwrap(), z.y, segment)
        } else {
            shown_whole(canvas.y, w, px, py, 16, whole, |k: int| restored_whole(z, segment, k))
        },
        u: shown_whole(
            canvas.u,
            8 * mbw,
            8 * mbx,
            8 * mby,
            8,
            d.chroma_mode,
            |k: int| restored_block(z.u[k], segment.uvdc, segment.uvac),
        ),
        v: shown_whole(
            canvas.v,
            8 * mbw,
            8 * mbx,
            8 * mby,
            8,
            d.chroma_mode,
            |k: int| restored_block(z.v[k], segment.uvdc, segment.uvac),
        ),
    }
}

} // verus!
