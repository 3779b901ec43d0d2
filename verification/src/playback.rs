//! A decoder shows what the encoder reconstructs.
use vstd::prelude::*;

use crate::blocks::{block_position, placed, with_residue};
use crate::common::{ChromaMode, IntraMode, LumaMode, Segment};
use crate::decoding::{
    coding_position, decoded_chroma, decoded_luma, decoded_macroblock, decoded_subblocks, raster,
    raster_all,
};
use crate::model::{sub_predicted, whole_mode, Canvas, Decision};
use crate::prediction::{
    avg2, avg3, chroma_border, edge_of, interior, lemma_inside, lemma_position, luma_border,
    subblock_pixel, sum_above, sum_left, whole_prediction,
};
use crate::quantize::{
    block_at, chroma_residue, luma_residue, scaled, step_of, y2_restored, y_restored,
};
use crate::residual_reading::Levels;
use crate::transform::{
    idct, idct_column, idct_columns, idct_row, iwht, iwht_columns, iwht_row, wht_row,
};
use crate::viewing::{
    column_total, dc_parts, diagonal_position, differences, edge_line, enlarged, foretold,
    foretold_small, meeting, pattern, restored_block, restored_whole, row_total, seen,
    shown_by_subblocks, shown_macroblock, shown_subblocks, shown_whole, smooth, tile, wave,
};

verus! {

proof fn lemma_wave(x0: i32, x1: i32, x2: i32, x3: i32, k: int)
    requires
        0 <= k < 4,
    ensures
        idct_column(x0, x1, x2, x3, k) == wave(x0, x1, x2, x3, k) as i32,
        idct_row(x0, x1, x2, x3, k) == ((wave(x0, x1, x2, x3, k) + 4) / 8) as i32,
{
    reveal(idct_column);
    reveal(idct_row);
    assert(enlarged(x1) == x1 + x1 * 20091 / 65536);
    assert(enlarged(x3) == x3 + x3 * 20091 / 65536);
}

pub proof fn lemma_differences(c: Seq<i32>, n: int)
    requires
        0 <= n < 16,
    ensures
        idct(c)[n] == differences(c, n),
{
    reveal(idct);
    let r = n / 4;
    let m = idct_columns(c);
    assert forall|i: int| 0 <= i < 4 implies #[trigger] m[4 * r + i] == wave(
        c[i],
        c[i + 4],
        c[i + 8],
        c[i + 12],
        r,
    ) as i32 by {
        lemma_wave(c[i], c[i + 4], c[i + 8], c[i + 12], r);
        assert((4 * r + i) % 4 == i && (4 * r + i) / 4 == r);
    }
    assert(m[4 * r + 0] == wave(c[0], c[4], c[8], c[12], r) as i32);
    assert(m[4 * r + 1] == wave(c[1], c[5], c[9], c[13], r) as i32);
    assert(m[4 * r + 2] == wave(c[2], c[6], c[10], c[14], r) as i32);
    assert(m[4 * r + 3] == wave(c[3], c[7], c[11], c[15], r) as i32);
    lemma_wave(m[4 * r], m[4 * r + 1], m[4 * r + 2], m[4 * r + 3], n % 4);
}

proof fn lemma_pattern(x0: i32, x1: i32, x2: i32, x3: i32, k: int)
    requires
        0 <= k < 4,
    ensures
        wht_row(x0, x1, x2, x3, k) == pattern(x0, x1, x2, x3, k) as i32,
        iwht_row(x0, x1, x2, x3, k) == ((pattern(x0, x1, x2, x3, k) + 3) / 8) as i32,
{
    reveal(wht_row);
    reveal(iwht_row);
}

pub proof fn lemma_dc_parts(c: Seq<i32>, n: int)
    requires
        0 <= n < 16,
    ensures
        iwht(c)[n] == dc_parts(c, n),
{
    reveal(iwht);
    let r = n / 4;
    let m = iwht_columns(c);
    assert forall|i: int| 0 <= i < 4 implies #[trigger] m[4 * r + i] == pattern(
        c[i],
        c[i + 4],
        c[i + 8],
        c[i + 12],
        r,
    ) as i32 by {
        lemma_pattern(c[i], c[i + 4], c[i + 8], c[i + 12], r);
        assert((4 * r + i) % 4 == i && (4 * r + i) / 4 == r);
    }
    assert(m[4 * r + 0] == pattern(c[0], c[4], c[8], c[12], r) as i32);
    assert(m[4 * r + 1] == pattern(c[1], c[5], c[9], c[13], r) as i32);
    assert(m[4 * r + 2] == pattern(c[2], c[6], c[10], c[14], r) as i32);
    assert(m[4 * r + 3] == pattern(c[3], c[7], c[11], c[15], r) as i32);
    lemma_pattern(m[4 * r], m[4 * r + 1], m[4 * r + 2], m[4 * r + 3], n % 4);
}

pub proof fn lemma_restored_block(z: Seq<i32>, dc: i16, ac: i16)
    ensures
        scaled(raster(z), dc, ac) == restored_block(z, dc, ac),
{
    assert forall|n: int| 0 <= n < 16 implies #[trigger] scaled(raster(z), dc, ac)[n]
        == restored_block(z, dc, ac)[n] by {
        assert(coding_position(n) == diagonal_position(n));
        assert(step_of(n, dc, ac) == if n == 0 {
            dc as int
        } else {
            ac as int
        });
    }
    assert(scaled(raster(z), dc, ac) =~= restored_block(z, dc, ac));
}

/// The surroundings are the same.
pub proof fn lemma_tile(plane: Seq<u8>, mbx: int, mby: int, mbw: int)
    requires
        0 <= mbx < mbw,
        0 <= mby,
    ensures
        tile(plane, 16 * mbw, 16 * mbx, 16 * mby) == luma_border(mbx, mby, mbw, plane),
{
    let (a, b) = (
        tile(plane, 16 * mbw, 16 * mbx, 16 * mby),
        luma_border(mbx, mby, mbw, plane),
    );
    assert forall|n: int| 0 <= n < 357 implies #[trigger] a[n] == b[n] by {
        let (row, col) = (n / 21, n % 21);
        assert(16 * mbw == mbw * 16);
        if mbx == mbw - 1 {
            assert(16 * mbx + 16 == 16 * mbw);
        } else {
            assert(16 * mbx + 32 <= 16 * mbw);
        }
    }
    assert(a =~= b);
}

proof fn lemma_vertical(e: Seq<u8>, x: int, y: int)
    requires
        e.len() == 13,
        0 <= x < 4,
        0 <= y < 4,
    ensures
        smooth(e, meeting(IntraMode::VE, x, y)) == subblock_pixel(IntraMode::VE, e, x, y),
{
    reveal(avg2);
    reveal(avg3);
    assert(x == 0 || x == 1 || x == 2 || x == 3);
    assert(y == 0 || y == 1 || y == 2 || y == 3);
}

proof fn lemma_horizontal(e: Seq<u8>, x: int, y: int)
    requires
        e.len() == 13,
        0 <= x < 4,
        0 <= y < 4,
    ensures
        smooth(e, meeting(IntraMode::HE, x, y)) == subblock_pixel(IntraMode::HE, e, x, y),
{
    reveal(avg2);
    reveal(avg3);
    assert(x == 0 || x == 1 || x == 2 || x == 3);
    assert(y == 0 || y == 1 || y == 2 || y == 3);
}

proof fn lemma_left_down(e: Seq<u8>, x: int, y: int)
    requires
        e.len() == 13,
        0 <= x < 4,
        0 <= y < 4,
    ensures
        smooth(e, meeting(IntraMode::LD, x, y)) == subblock_pixel(IntraMode::LD, e, x, y),
{
    reveal(avg2);
    reveal(avg3);
    assert(x == 0 || x == 1 || x == 2 || x == 3);
    assert(y == 0 || y == 1 || y == 2 || y == 3);
}

proof fn lemma_right_down(e: Seq<u8>, x: int, y: int)
    requires
        e.len() == 13,
        0 <= x < 4,
        0 <= y < 4,
    ensures
        smooth(e, meeting(IntraMode::RD, x, y)) == subblock_pixel(IntraMode::RD, e, x, y),
{
    reveal(avg2);
    reveal(avg3);
    assert(x == 0 || x == 1 || x == 2 || x == 3);
    assert(y == 0 || y == 1 || y == 2 || y == 3);
}

proof fn lemma_vertical_right(e: Seq<u8>, x: int, y: int)
    requires
        e.len() == 13,
        0 <= x < 4,
        0 <= y < 4,
    ensures
        smooth(e, meeting(IntraMode::VR, x, y)) == subblock_pixel(IntraMode::VR, e, x, y),
{
    reveal(avg2);
    reveal(avg3);
    assert(x == 0 || x == 1 || x == 2 || x == 3);
    assert(y == 0 || y == 1 || y == 2 || y == 3);
}

proof fn lemma_vertical_left(e: Seq<u8>, x: int, y: int)
    requires
        e.len() == 13,
        0 <= x < 4,
        0 <= y < 4,
    ensures
        smooth(e, meeting(IntraMode::VL, x, y)) == subblock_pixel(IntraMode::VL, e, x, y),
{
    reveal(avg2);
    reveal(avg3);
    assert(x == 0 || x == 1 || x == 2 || x == 3);
    assert(y == 0 || y == 1 || y == 2 || y == 3);
}

proof fn lemma_horizontal_down(e: Seq<u8>, x: int, y: int)
    requires
        e.len() == 13,
        0 <= x < 4,
        0 <= y < 4,
    ensures
        smooth(e, meeting(IntraMode::HD, x, y)) == subblock_pixel(IntraMode::HD, e, x, y),
{
    reveal(avg2);
    reveal(avg3);
    assert(x == 0 || x == 1 || x == 2 || x == 3);
    assert(y == 0 || y == 1 || y == 2 || y == 3);
}

proof fn lemma_horizontal_up(e: Seq<u8>, x: int, y: int)
    requires
        e.len() == 13,
        0 <= x < 4,
        0 <= y < 4,
    ensures
        smooth(e, meeting(IntraMode::HU, x, y)) == subblock_pixel(IntraMode::HU, e, x, y),
{
    reveal(avg2);
    reveal(avg3);
    assert(x == 0 || x == 1 || x == 2 || x == 3);
    assert(y == 0 || y == 1 || y == 2 || y == 3);
}

/// The directions meet the edge in the same places.
proof fn lemma_direction(mode: IntraMode, e: Seq<u8>, x: int, y: int)
    requires
        e.len() == 13,
        0 <= x < 4,
        0 <= y < 4,
    ensures
        foretold_small(e, mode, x, y) == subblock_pixel(mode, e, x, y),
{
    match mode {
        IntraMode::VE => {
            lemma_vertical(e, x, y);
        },
        IntraMode::HE => {
            lemma_horizontal(e, x, y);
        },
        IntraMode::LD => {
            lemma_left_down(e, x, y);
        },
        IntraMode::RD => {
            lemma_right_down(e, x, y);
        },
        IntraMode::VR => {
            lemma_vertical_right(e, x, y);
        },
        IntraMode::VL => {
            lemma_vertical_left(e, x, y);
        },
        IntraMode::HD => {
            lemma_horizontal_down(e, x, y);
        },
        IntraMode::HU => {
            lemma_horizontal_up(e, x, y);
        },
        _ => {},
    }
}

/// The sub-blocks are predicted alike.
pub proof fn lemma_small(t: Seq<u8>, mode: IntraMode, k: int, x: int, y: int)
    requires
        0 <= k < 16,
        0 <= x < 4,
        0 <= y < 4,
    ensures
        foretold_small(edge_line(t, k), mode, x, y) == sub_predicted(t, mode, k)[4 * y + x],
{
    let e = edge_of(t, 1 + (k % 4) * 4, 1 + (k / 4) * 4);
    assert(e =~= edge_line(t, k));
    assert((4 * y + x) % 4 == x && (4 * y + x) / 4 == y);
    lemma_direction(mode, e, x, y);
}

/// The sub-blocks are shown alike.
pub proof fn lemma_subblocks(
    mbw: int,
    canvas: Canvas,
    modes: Seq<IntraMode>,
    zs: Seq<Seq<i32>>,
    segment: Segment,
    mbx: int,
    mby: int,
    k: int,
)
    requires
        0 <= mbx < mbw,
        0 <= mby,
        0 <= k <= 16,
    ensures
        shown_subblocks(tile(canvas.y, 16 * mbw, 16 * mbx, 16 * mby), modes, zs, segment, k)
            == decoded_subblocks(mbw, canvas, modes, zs, segment, mbx, mby, k),
    decreases k,
{
    let t = tile(canvas.y, 16 * mbw, 16 * mbx, 16 * mby);
    if k <= 0 {
        lemma_tile(canvas.y, mbx, mby, mbw);
    } else {
        let j = k - 1;
        lemma_subblocks(mbw, canvas, modes, zs, segment, mbx, mby, j);
        let ws = decoded_subblocks(mbw, canvas, modes, zs, segment, mbx, mby, j);
        let a = shown_subblocks(t, modes, zs, segment, k);
        let b = decoded_subblocks(mbw, canvas, modes, zs, segment, mbx, mby, k);
        let c = restored_block(zs[j], segment.ydc, segment.yac);
        lemma_restored_block(zs[j], segment.ydc, segment.yac);
        assert forall|n: int| 0 <= n < 357 implies #[trigger] a[n] == b[n] by {
            let x = n % 21 - 1 - j % 4 * 4;
            let y = n / 21 - 1 - j / 4 * 4;
            if 0 <= x < 4 && 0 <= y < 4 {
                lemma_small(ws, modes[j], j, x, y);
                lemma_differences(c, 4 * y + x);
            }
        }
        assert(a =~= b);
    }
}

/// A bordered block shows what prediction sees around the block at `px`, `py`.
spec fn borders(ws: Seq<u8>, plane: Seq<u8>, w: int, px: int, py: int, size: int, stride: int) -> bool {
    &&& ws.len() == (size + 1) * stride
    &&& ws[0] == seen(plane, w, px - 1, py - 1)
    &&& forall|i: int|
        1 <= i <= size ==> #[trigger] ws[i] == seen(plane, w, px + i - 1, py - 1)
    &&& forall|i: int|
        1 <= i <= size ==> #[trigger] ws[i * stride] == seen(plane, w, px - 1, py + i - 1)
}

proof fn lemma_sums(
    ws: Seq<u8>,
    plane: Seq<u8>,
    w: int,
    px: int,
    py: int,
    size: int,
    stride: int,
    k: int,
)
    requires
        borders(ws, plane, w, px, py, size, stride),
        0 <= k <= size,
    ensures
        sum_above(ws, k) == row_total(plane, w, px, py - 1, k),
        sum_left(ws, stride, k) == column_total(plane, w, px - 1, py, k),
        0 <= sum_above(ws, k) <= 255 * k,
        0 <= sum_left(ws, stride, k) <= 255 * k,
    decreases k,
{
    if k > 0 {
        lemma_sums(ws, plane, w, px, py, size, stride, k - 1);
        assert(ws[k] == seen(plane, w, px + k - 1, py - 1));
        assert(ws[k * stride] == seen(plane, w, px - 1, py + k - 1));
    }
}

/// Blocks that are predicted as a whole are predicted alike.
proof fn lemma_foretold(
    ws: Seq<u8>,
    plane: Seq<u8>,
    w: int,
    px: int,
    py: int,
    size: int,
    stride: int,
    mode: ChromaMode,
    dx: int,
    dy: int,
)
    requires
        size == 16 && stride == 21 || size == 8 && stride == 9,
        borders(ws, plane, w, px, py, size, stride),
        0 <= px,
        0 <= py,
        0 <= dx < size,
        0 <= dy < size,
    ensures
        whole_prediction(ws, size, stride, mode, py != 0, px != 0)[(dy + 1) * stride + (dx + 1)]
            == foretold(plane, w, px, py, size, mode, px + dx, py + dy),
        interior((dy + 1) * stride + (dx + 1), size, stride),
        0 <= (dy + 1) * stride + (dx + 1) < ws.len(),
{
    let n = (dy + 1) * stride + (dx + 1);
    lemma_position(dx + 1, dy + 1, stride);
    lemma_inside(dx + 1, dy + 1, stride, size + 1, stride * (size + 1));
    assert(stride * (size + 1) == (size + 1) * stride) by (nonlinear_arith);
    lemma_sums(ws, plane, w, px, py, size, stride, size);
    assert(n - n % stride == (dy + 1) * stride);
    assert(ws[(dy + 1) * stride] == seen(plane, w, px - 1, py + (dy + 1) - 1));
    assert(ws[dx + 1] == seen(plane, w, px + (dx + 1) - 1, py - 1));
    let (a, l) = (sum_above(ws, size), sum_left(ws, stride, size));
    assert((2 * a + size) / (2 * size) == (a + size / 2) / size && (2 * l + size) / (2 * size) == (l
        + size / 2) / size) by {
        if size == 16 {
            assert((2 * a + 16) / 32 == (a + 8) / 16 && (2 * l + 16) / 32 == (l + 8) / 16);
        } else {
            assert((2 * a + 8) / 16 == (a + 4) / 8 && (2 * l + 8) / 16 == (l + 4) / 8);
        }
    }
    assert(0 <= (a + l + size) / (2 * size) <= 255 && 0 <= (a + size / 2) / size <= 255 && 0 <= (l
        + size / 2) / size <= 255) by {
        if size == 16 {
            assert(0 <= (a + l + 16) / 32 <= 255 && 0 <= (a + 8) / 16 <= 255 && 0 <= (l + 8) / 16
                <= 255);
        } else {
            assert(0 <= (a + l + 8) / 16 <= 255 && 0 <= (a + 4) / 8 <= 255 && 0 <= (l + 4) / 8
                <= 255);
        }
    }
}

/// Blocks that are predicted as a whole are shown alike.
proof fn lemma_whole(
    ws: Seq<u8>,
    plane: Seq<u8>,
    w: int,
    px: int,
    py: int,
    size: int,
    stride: int,
    mode: ChromaMode,
    residue: Seq<i32>,
    blocks: spec_fn(int) -> Seq<i32>,
)
    requires
        size == 16 && stride == 21 || size == 8 && stride == 9,
        borders(ws, plane, w, px, py, size, stride),
        0 <= px,
        0 <= py,
        px + size <= w,
        forall|dx: int, dy: int|
            0 <= dx < size && 0 <= dy < size ==> residue[#[trigger] block_position(dy, dx, size)]
                == differences(blocks(dy / 4 * (size / 4) + dx / 4), dy % 4 * 4 + dx % 4),
    ensures
        placed(
            plane,
            w,
            px,
            py,
            with_residue(
                whole_prediction(ws, size, stride, mode, py != 0, px != 0),
                residue,
                size,
                stride,
            ),
            size,
            stride,
        ) == shown_whole(plane, w, px, py, size, mode, blocks),
{
    let predicted = whole_prediction(ws, size, stride, mode, py != 0, px != 0);
    let shown = with_residue(predicted, residue, size, stride);
    let a = placed(plane, w, px, py, shown, size, stride);
    let b = shown_whole(plane, w, px, py, size, mode, blocks);
    assert forall|n: int| 0 <= n < plane.len() implies #[trigger] a[n] == b[n] by {
        let (dx, dy) = (n % w - px, n / w - py);
        if 0 <= dx < size && 0 <= dy < size {
            lemma_foretold(ws, plane, w, px, py, size, stride, mode, dx, dy);
            lemma_position(dx + 1, dy + 1, stride);
            assert(residue[block_position(dy, dx, size)] == differences(
                blocks(dy / 4 * (size / 4) + dx / 4),
                dy % 4 * 4 + dx % 4,
            ));
        }
    }
    assert(a =~= b);
}

proof fn lemma_block_position(dx: int, dy: int, size: int)
    requires
        size == 8 || size == 16,
        0 <= dx < size,
        0 <= dy < size,
    ensures
        ({
            let n = block_position(dy, dx, size);
            &&& 0 <= n < size * size
            &&& n / 16 == dy / 4 * (size / 4) + dx / 4
            &&& n % 16 == dy % 4 * 4 + dx % 4
        }),
{
    reveal(block_position);
    if size == 16 {
        assert(dy / 4 * (16int / 4) == dy / 4 * 4);
        assert(16int * 16 == 256);
    } else {
        assert(dy / 4 * (8int / 4) == dy / 4 * 2);
        assert(8int * 8 == 64);
    }
}

proof fn lemma_chroma_borders(plane: Seq<u8>, mbx: int, mby: int, mbw: int)
    requires
        0 <= mbx < mbw,
        0 <= mby,
    ensures
        borders(
            chroma_border(mbx, mby, mbw, plane),
            plane,
            8 * mbw,
            8 * mbx,
            8 * mby,
            8,
            9,
        ),
{
    let ws = chroma_border(mbx, mby, mbw, plane);
    let (w, px, py) = (8 * mbw, 8 * mbx, 8 * mby);
    assert(borders(ws, plane, w, px, py, 8, 9)) by {
        assert forall|i: int| 1 <= i <= 8 implies #[trigger] ws[i] == seen(
            plane,
            w,
            px + i - 1,
            py - 1,
        ) by {}
        assert forall|i: int| 1 <= i <= 8 implies #[trigger] ws[i * 9] == seen(
            plane,
            w,
            px - 1,
            py + i - 1,
        ) by {
            assert((i * 9) / 9 == i && (i * 9) % 9 == 0);
        }
    }
}

/// A macroblock that the encoder predicts as a whole is what a decoder foretells.
pub proof fn lemma_chroma_foretold(
    mbw: int,
    plane: Seq<u8>,
    mode: ChromaMode,
    mbx: int,
    mby: int,
    dx: int,
    dy: int,
)
    requires
        0 <= mbx < mbw,
        0 <= mby,
        0 <= dx < 8,
        0 <= dy < 8,
    ensures
        whole_prediction(
            chroma_border(mbx, mby, mbw, plane),
            8,
            9,
            mode,
            mby != 0,
            mbx != 0,
        )[(dy + 1) * 9 + (dx + 1)] == foretold(
            plane,
            8 * mbw,
            8 * mbx,
            8 * mby,
            8,
            mode,
            8 * mbx + dx,
            8 * mby + dy,
        ),
{
    lemma_chroma_borders(plane, mbx, mby, mbw);
    lemma_foretold(
        chroma_border(mbx, mby, mbw, plane),
        plane,
        8 * mbw,
        8 * mbx,
        8 * mby,
        8,
        9,
        mode,
        dx,
        dy,
    );
}

proof fn lemma_chroma(
    mbw: int,
    plane: Seq<u8>,
    d: Decision,
    zs: Seq<Seq<i32>>,
    segment: Segment,
    mbx: int,
    mby: int,
)
    requires
        0 <= mbx < mbw,
        0 <= mby,
        zs.len() == 4,
    ensures
        placed(
            plane,
            mbw * 8,
            mbx * 8,
            mby * 8,
            decoded_chroma(mbw, plane, d, zs, segment, mbx, mby),
            8,
            9,
        ) == shown_whole(
            plane,
            8 * mbw,
            8 * mbx,
            8 * mby,
            8,
            d.chroma_mode,
            |k: int| restored_block(zs[k], segment.uvdc, segment.uvac),
        ),
{
    let ws = chroma_border(mbx, mby, mbw, plane);
    let (w, px, py) = (8 * mbw, 8 * mbx, 8 * mby);
    let residue = chroma_residue(raster_all(zs), segment);
    let blocks = |k: int| restored_block(zs[k], segment.uvdc, segment.uvac);
    lemma_chroma_borders(plane, mbx, mby, mbw);
    assert forall|dx: int, dy: int| 0 <= dx < 8 && 0 <= dy < 8 implies residue[
        #[trigger] block_position(dy, dx, 8)
    ] == differences(blocks(dy / 4 * (8int / 4) + dx / 4), dy % 4 * 4 + dx % 4) by {
        lemma_block_position(dx, dy, 8);
        let n = block_position(dy, dx, 8);
        let k = n / 16;
        let b = scaled(raster_all(zs), segment.uvdc, segment.uvac);
        lemma_restored_block(zs[k], segment.uvdc, segment.uvac);
        assert forall|i: int| 0 <= i < 16 implies #[trigger] block_at(b, k)[i] == blocks(k)[i] by {
            let m = k * 16 + i;
            assert(m / 16 == k && m % 16 == i);
            assert(scaled(raster(zs[k]), segment.uvdc, segment.uvac)[i] == blocks(k)[i]);
        }
        assert(block_at(b, k) =~= blocks(k));
        lemma_differences(blocks(k), n % 16);
    }
    lemma_whole(ws, plane, w, px, py, 8, 9, d.chroma_mode, residue, blocks);
}

/// The coefficients of a luma block are restored alike.
pub proof fn lemma_restored_whole(z: Levels, segment: Segment, k: int)
    requires
        z.y.len() == 16,
        0 <= k < 16,
    ensures
        y_restored(y2_restored(raster(z.y2), segment), raster_all(z.y), segment, k)
            == restored_whole(z, segment, k),
        y2_restored(raster(z.y2), segment)[k] == dc_parts(
            restored_block(z.y2, segment.y2dc, segment.y2ac),
            k,
        ),
{
    lemma_restored_block(z.y2, segment.y2dc, segment.y2ac);
    lemma_dc_parts(restored_block(z.y2, segment.y2dc, segment.y2ac), k);
    lemma_restored_block(z.y[k], segment.ydc, segment.yac);
    let b = y_restored(y2_restored(raster(z.y2), segment), raster_all(z.y), segment, k);
    let c = restored_whole(z, segment, k);
    assert forall|i: int| 0 <= i < 16 implies #[trigger] b[i] == c[i] by {
        let m = k * 16 + i;
        assert(m / 16 == k && m % 16 == i);
        if i > 0 {
            assert(scaled(raster(z.y[k]), segment.ydc, segment.yac)[i] == restored_block(
                z.y[k],
                segment.ydc,
                segment.yac,
            )[i]);
        }
    }
    assert(b =~= c);
}

proof fn lemma_luma_borders(plane: Seq<u8>, mbx: int, mby: int, mbw: int)
    requires
        0 <= mbx < mbw,
        0 <= mby,
    ensures
        borders(
            luma_border(mbx, mby, mbw, plane),
            plane,
            16 * mbw,
            16 * mbx,
            16 * mby,
            16,
            21,
        ),
{
    let ws = luma_border(mbx, mby, mbw, plane);
    let (w, px, py) = (16 * mbw, 16 * mbx, 16 * mby);
    assert(borders(ws, plane, w, px, py, 16, 21)) by {
        assert forall|i: int| 1 <= i <= 16 implies #[trigger] ws[i] == seen(
            plane,
            w,
            px + i - 1,
            py - 1,
        ) by {}
        assert forall|i: int| 1 <= i <= 16 implies #[trigger] ws[i * 21] == seen(
            plane,
            w,
            px - 1,
            py + i - 1,
        ) by {
            assert((i * 21) / 21 == i && (i * 21) % 21 == 0);
        }
    }
}

/// A macroblock that the encoder predicts as a whole is what a decoder foretells.
pub proof fn lemma_luma_foretold(
    mbw: int,
    plane: Seq<u8>,
    mode: ChromaMode,
    mbx: int,
    mby: int,
    dx: int,
    dy: int,
)
    requires
        0 <= mbx < mbw,
        0 <= mby,
        0 <= dx < 16,
        0 <= dy < 16,
    ensures
        whole_prediction(
            luma_border(mbx, mby, mbw, plane),
            16,
            21,
            mode,
            mby != 0,
            mbx != 0,
        )[(dy + 1) * 21 + (dx + 1)] == foretold(
            plane,
            16 * mbw,
            16 * mbx,
            16 * mby,
            16,
            mode,
            16 * mbx + dx,
            16 * mby + dy,
        ),
{
    lemma_luma_borders(plane, mbx, mby, mbw);
    lemma_foretold(
        luma_border(mbx, mby, mbw, plane),
        plane,
        16 * mbw,
        16 * mbx,
        16 * mby,
        16,
        21,
        mode,
        dx,
        dy,
    );
}

proof fn lemma_whole_luma(
    mbw: int,
    canvas: Canvas,
    d: Decision,
    z: Levels,
    segment: Segment,
    mbx: int,
    mby: int,
)
    requires
        0 <= mbx < mbw,
        0 <= mby,
        z.y.len() == 16,
        d.luma_mode != LumaMode::B,
    ensures
        placed(
            canvas.y,
            mbw * 16,
            mbx * 16,
            mby * 16,
            decoded_luma(mbw, canvas, d, z, segment, mbx, mby),
            16,
            21,
        ) == shown_whole(
            canvas.y,
            16 * mbw,
            16 * mbx,
            16 * mby,
            16,
            whole_mode(d.luma_mode),
            |k: int| restored_whole(z, segment, k),
        ),
{
    let plane = canvas.y;
    let ws = luma_border(mbx, mby, mbw, plane);
    let (w, px, py) = (16 * mbw, 16 * mbx, 16 * mby);
    let y = raster_all(z.y);
    let y2 = raster(z.y2);
    let residue = luma_residue(y2, y, segment);
    let blocks = |k: int| restored_whole(z, segment, k);
    lemma_luma_borders(plane, mbx, mby, mbw);
    assert forall|dx: int, dy: int| 0 <= dx < 16 && 0 <= dy < 16 implies residue[
        #[trigger] block_position(dy, dx, 16)
    ] == differences(blocks(dy / 4 * (16int / 4) + dx / 4), dy % 4 * 4 + dx % 4) by {
        lemma_block_position(dx, dy, 16);
        let n = block_position(dy, dx, 16);
        let k = n / 16;
        lemma_restored_whole(z, segment, k);
        lemma_differences(blocks(k), n % 16);
    }
    lemma_whole(ws, plane, w, px, py, 16, 21, whole_mode(d.luma_mode), residue, blocks);
}

/// A macroblock is shown as it was reconstructed from its levels.
pub proof fn lemma_shown_macroblock(
    mbw: int,
    canvas: Canvas,
    d: Decision,
    z: Levels,
    segment: Segment,
    mbx: int,
    mby: int,
)
    requires
        0 <= mbx < mbw,
        0 <= mby,
        z.y.len() == 16,
        z.u.len() == 4,
        z.v.len() == 4,
    ensures
        shown_macroblock(mbw, canvas, d, z, segment, mbx, mby) == decoded_macroblock(
            mbw,
            canvas,
            d,
            z,
            segment,
            mbx,
            mby,
        ),
{
    reveal(shown_macroblock);
    reveal(decoded_macroblock);
    lemma_chroma(mbw, canvas.u, d, z.u, segment, mbx, mby);
    lemma_chroma(mbw, canvas.v, d, z.v, segment, mbx, mby);
    if d.luma_mode == LumaMode::B {
        let modes = d.luma_bpred.unwrap();
        lemma_subblocks(mbw, canvas, modes, z.y, segment, mbx, mby, 16);
        let ws = decoded_subblocks(mbw, canvas, modes, z.y, segment, mbx, mby, 16);
        let a = placed(canvas.y, mbw * 16, mbx * 16, mby * 16, ws, 16, 21);
        let b = shown_by_subblocks(canvas.y, 16 * mbw, 16 * mbx, 16 * mby, modes, z.y, segment);
        assert(16 * mbw == mbw * 16);
        assert(a =~= b);
    } else {
        lemma_whole_luma(mbw, canvas, d, z, segment, mbx, mby);
    }
}

} // verus!
