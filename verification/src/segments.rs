//! Segments: quantisers, and which macroblock belongs to which segment.
use vstd::prelude::*;
use vstd::set_lib::{lemma_int_range, lemma_len_subset, lemma_subset_equality, set_int_range};

use crate::blocks::fits;
use crate::common::{Segment, MAX_SEGMENTS};
use crate::prediction::{lemma_inside, pixel_at};
use crate::probabilities::{skip_prob, skip_probability};
use crate::tables::quantizers::{ac_step, ac_step_at, dc_step, dc_step_at, lemma_step_range};

verus! {

/// Quantiser indices of a frame: the index of the luma AC quantiser, and what
/// the other quantisers add to it.
#[derive(Clone, Copy, Debug, PartialEq, Eq, Structural)]
pub struct QuantizationIndices {
    pub yac_abs: u8,
    pub ydc_delta: Option<i8>,
    pub y2dc_delta: Option<i8>,
    pub y2ac_delta: Option<i8>,
    pub uvdc_delta: Option<i8>,
    pub uvac_delta: Option<i8>,
}

impl QuantizationIndices {
    /// Indices with no additions.
    pub open spec fn of(yac_abs: u8) -> QuantizationIndices {
        QuantizationIndices {
            yac_abs,
            ydc_delta: None,
            y2dc_delta: None,
            y2ac_delta: None,
            uvdc_delta: None,
            uvac_delta: None,
        }
    }

    /// Indices with no additions.
    pub fn plain(yac_abs: u8) -> (indices: QuantizationIndices)
        ensures
            indices == QuantizationIndices::of(yac_abs),
    {
        QuantizationIndices {
            yac_abs,
            ydc_delta: None,
            y2dc_delta: None,
            y2ac_delta: None,
            uvdc_delta: None,
            uvac_delta: None,
        }
    }
}

/// What each segment adds to the quantiser index, from the flattest quarter of
/// the macroblocks to the busiest.
pub const SEGMENT_QUANT_DELTAS: [i8; 4] = [-6, -2, 2, 7];

/// `index` limited to the range of the quantiser tables.
pub open spec fn clamp_index(index: int) -> int {
    if index < 0 {
        0
    } else if index > 127 {
        127
    } else {
        index
    }
}

fn table_index(index: i32) -> (r: usize)
    ensures
        r as int == clamp_index(index as int),
        r < 128,
{
    if index < 0 {
        0
    } else if index > 127 {
        127
    } else {
        index as usize
    }
}

/// DC quantiser step for an index.
pub fn dc_quant(index: i32) -> (step: i16)
    ensures
        step == dc_step(clamp_index(index as int)),
        4 <= step <= 157,
{
    dc_step_at(table_index(index))
}

/// AC quantiser step for an index.
pub fn ac_quant(index: i32) -> (step: i16)
    ensures
        step == ac_step(clamp_index(index as int)),
        4 <= step <= 284,
{
    ac_step_at(table_index(index))
}

/// An optional addition.
pub open spec fn delta_value(delta: Option<i8>) -> int {
    match delta {
        Some(v) => v as int,
        None => 0,
    }
}

fn delta_or_zero(delta: Option<i8>) -> (r: i32)
    ensures
        r == delta_value(delta),
        -128 <= r <= 127,
{
    match delta {
        Some(v) => v as i32,
        None => 0,
    }
}

/// Quantiser steps of a segment whose quantiser index is `delta` away from the
/// frame's, as a decoder derives them.
pub open spec fn segment_of(yac_abs: u8, delta: i8, indices: QuantizationIndices) -> Segment {
    let base = yac_abs + delta;
    let y2ac = ac_step(clamp_index(base + delta_value(indices.y2ac_delta))) * 155 / 100;
    let uvdc = dc_step(clamp_index(base + delta_value(indices.uvdc_delta)));
    Segment {
        ydc: dc_step(clamp_index(base + delta_value(indices.ydc_delta))),
        yac: ac_step(clamp_index(base)),
        y2dc: (dc_step(clamp_index(base + delta_value(indices.y2dc_delta))) * 2) as i16,
        y2ac: if y2ac < 8 {
            8
        } else {
            y2ac as i16
        },
        uvdc: if uvdc > 132 {
            132
        } else {
            uvdc
        },
        uvac: ac_step(clamp_index(base + delta_value(indices.uvac_delta))),
        delta_values: true,
        quantizer_level: delta,
        loopfilter_level: 0,
    }
}

/// The quantiser steps of a segment are valid.
pub proof fn lemma_segment_wf(yac_abs: u8, delta: i8, indices: QuantizationIndices)
    ensures
        segment_of(yac_abs, delta, indices).wf(),
{
    let base = yac_abs + delta;
    lemma_step_range(clamp_index(base));
    lemma_step_range(clamp_index(base + delta_value(indices.ydc_delta)));
    lemma_step_range(clamp_index(base + delta_value(indices.y2dc_delta)));
    lemma_step_range(clamp_index(base + delta_value(indices.y2ac_delta)));
    lemma_step_range(clamp_index(base + delta_value(indices.uvdc_delta)));
    lemma_step_range(clamp_index(base + delta_value(indices.uvac_delta)));
}

/// Builds the quantiser steps of a segment.
pub fn build_segment(yac_abs: u8, delta: i8, indices: &QuantizationIndices) -> (segment: Segment)
    ensures
        segment == segment_of(yac_abs, delta, *indices),
        segment.wf(),
{
    let base: i32 = yac_abs as i32 + delta as i32;
    let y2ac: i32 = ac_quant(base + delta_or_zero(indices.y2ac_delta)) as i32 * 155 / 100;
    let uvdc: i16 = dc_quant(base + delta_or_zero(indices.uvdc_delta));
    Segment {
        ydc: dc_quant(base + delta_or_zero(indices.ydc_delta)),
        yac: ac_quant(base),
        y2dc: dc_quant(base + delta_or_zero(indices.y2dc_delta)) * 2,
        y2ac: if y2ac < 8 {
            8
        } else {
            y2ac as i16
        },
        uvdc: if uvdc > 132 {
            132
        } else {
            uvdc
        },
        uvac: ac_quant(base + delta_or_zero(indices.uvac_delta)),
        delta_values: true,
        quantizer_level: delta,
        loopfilter_level: 0,
    }
}

/// How many entries equal `id`.
pub open spec fn count_id(ids: Seq<u8>, id: u8) -> int
    decreases ids.len(),
{
    if ids.len() == 0 {
        0
    } else {
        count_id(ids.drop_last(), id) + if ids.last() == id {
            1int
        } else {
            0
        }
    }
}

/// Probabilities of the segment tree that fit the segments of a frame: the
/// root tells the lower two from the upper two.
pub open spec fn segment_probs(ids: Seq<u8>) -> Seq<u8> {
    let (c0, c1, c2, c3) = (
        count_id(ids, 0),
        count_id(ids, 1),
        count_id(ids, 2),
        count_id(ids, 3),
    );
    seq![
        skip_prob(c2 + c3, ids.len() as int),
        skip_prob(c1, c0 + c1),
        skip_prob(c3, c2 + c3),
    ]
}

/// Probabilities of the segment tree that fit the segments of a frame.
pub fn segment_tree_probs_for(segment_ids: &[u8]) -> (probs: [u8; 3])
    requires
        segment_ids@.len() <= u32::MAX,
        forall|i: int| 0 <= i < segment_ids@.len() ==> #[trigger] segment_ids@[i] < 4,
    ensures
        probs@ == segment_probs(segment_ids@),
{
    let mut counts = [0u32; MAX_SEGMENTS];
    let mut i: usize = 0;
    assert(segment_ids@.take(0) =~= Seq::<u8>::empty());
    while i < segment_ids.len()
        invariant
            i <= segment_ids@.len() <= u32::MAX,
            forall|i: int| 0 <= i < segment_ids@.len() ==> #[trigger] segment_ids@[i] < 4,
            forall|d: u8|
                d < 4 ==> #[trigger] counts@[d as int] == count_id(
                    segment_ids@.take(i as int),
                    d,
                ),
            counts@[0] + counts@[1] + counts@[2] + counts@[3] == i,
        decreases segment_ids@.len() - i,
    {
        let id: u8 = segment_ids[i];
        proof {
            assert(segment_ids@[i as int] < 4);
            assert(segment_ids@.take(i + 1).drop_last() =~= segment_ids@.take(i as int));
        }
        counts[id as usize] = counts[id as usize] + 1;
        i = i + 1;
    }
    proof {
        assert(segment_ids@.take(i as int) =~= segment_ids@);
        assert(counts@[0u8 as int] == count_id(segment_ids@, 0u8));
        assert(counts@[1u8 as int] == count_id(segment_ids@, 1u8));
        assert(counts@[2u8 as int] == count_id(segment_ids@, 2u8));
        assert(counts@[3u8 as int] == count_id(segment_ids@, 3u8));
    }
    let total: u32 = segment_ids.len() as u32;
    let prob0: u8 = skip_probability(counts[2] + counts[3], total);
    let prob1: u8 = skip_probability(counts[1], counts[0] + counts[1]);
    let prob2: u8 = skip_probability(counts[3], counts[2] + counts[3]);
    let probs: [u8; 3] = [prob0, prob1, prob2];
    assert(probs@ =~= segment_probs(segment_ids@));
    probs
}

/// Pixel `k` of a macroblock.
pub open spec fn macroblock_pixel(ybuf: Seq<u8>, mbw: int, mbx: int, mby: int, k: int) -> int {
    ybuf[(mby * 16 + k / 16) * (mbw * 16) + (mbx * 16 + k % 16)] as int
}

/// Sum of the first `k` pixels of a macroblock.
pub open spec fn pixel_sum(ybuf: Seq<u8>, mbw: int, mbx: int, mby: int, k: int) -> int
    decreases k,
{
    if k <= 0 {
        0
    } else {
        pixel_sum(ybuf, mbw, mbx, mby, k - 1) + macroblock_pixel(ybuf, mbw, mbx, mby, k - 1)
    }
}

/// Sum of the squares of the first `k` pixels of a macroblock.
pub open spec fn pixel_square_sum(ybuf: Seq<u8>, mbw: int, mbx: int, mby: int, k: int) -> int
    decreases k,
{
    if k <= 0 {
        0
    } else {
        let v = macroblock_pixel(ybuf, mbw, mbx, mby, k - 1);
        pixel_square_sum(ybuf, mbw, mbx, mby, k - 1) + v * v
    }
}

/// Variance of the pixels of a luma macroblock, times 65536.
pub open spec fn variance(ybuf: Seq<u8>, mbw: int, mbx: int, mby: int) -> int {
    let sum = pixel_sum(ybuf, mbw, mbx, mby, 256);
    256 * pixel_square_sum(ybuf, mbw, mbx, mby, 256) - sum * sum
}

/// The square of a sum is at most the number of terms times the sum of squares.
pub proof fn lemma_variance_nonnegative(ybuf: Seq<u8>, mbw: int, mbx: int, mby: int, k: int)
    requires
        k >= 0,
    ensures
        ({
            let s = pixel_sum(ybuf, mbw, mbx, mby, k);
            s * s <= k * pixel_square_sum(ybuf, mbw, mbx, mby, k)
        }),
        pixel_square_sum(ybuf, mbw, mbx, mby, k) >= 0,
        k == 0 ==> pixel_sum(ybuf, mbw, mbx, mby, k) == 0,
    decreases k,
{
    if k > 0 {
        lemma_variance_nonnegative(ybuf, mbw, mbx, mby, k - 1);
        let s = pixel_sum(ybuf, mbw, mbx, mby, k - 1);
        let q = pixel_square_sum(ybuf, mbw, mbx, mby, k - 1);
        let v = macroblock_pixel(ybuf, mbw, mbx, mby, k - 1);
        let n = k - 1;
        if n == 0 {
            assert(v * v >= 0) by (nonlinear_arith);
            reveal_with_fuel(pixel_sum, 2);
            reveal_with_fuel(pixel_square_sum, 2);
            assert((s + v) * (s + v) <= 1 * (q + v * v)) by (nonlinear_arith)
                requires
                    s == 0,
                    q == 0,
            ;
        } else {
            assert(v * v >= 0) by (nonlinear_arith);
            assert(n * (s * s) <= n * (n * q)) by (nonlinear_arith)
                requires
                    s * s <= n * q,
                    n >= 1,
            ;
            let d = s - n * v;
            assert(d * d >= 0) by (nonlinear_arith);
            assert(d * d == s * s - 2 * n * (s * v) + n * n * (v * v)) by (nonlinear_arith)
                requires
                    d == s - n * v,
            ;
            assert(n * ((s + v) * (s + v)) <= n * ((n + 1) * (q + v * v))) by (nonlinear_arith)
                requires
                    n * (s * s) <= n * (n * q),
                    s * s <= n * q,
                    0 <= s * s - 2 * n * (s * v) + n * n * (v * v),
                    n >= 1,
            ;
            assert((s + v) * (s + v) <= (n + 1) * (q + v * v)) by (nonlinear_arith)
                requires
                    n * ((s + v) * (s + v)) <= n * ((n + 1) * (q + v * v)),
                    n >= 1,
            ;
        }
    }
}

/// Variance of the source pixels of a luma macroblock, times 65536.
pub fn luma_variance(ybuf: &[u8], mbw: usize, mbx: usize, mby: usize) -> (r: u64)
    requires
        mbw <= 0x10000,
        mbx <= 0x10000,
        mby <= 0x10000,
        fits(ybuf@.len() as int, mbw * 16, mbx * 16, mby * 16, 16),
    ensures
        r == variance(ybuf@, mbw as int, mbx as int, mby as int),
{
    let w: usize = mbw * 16;
    let mut sum: u64 = 0;
    let mut sum_sq: u64 = 0;
    let mut k: usize = 0;
    while k < 256
        invariant
            k <= 256,
            w == mbw * 16,
            mbw <= 0x10000,
            mbx <= 0x10000,
            mby <= 0x10000,
            fits(ybuf@.len() as int, mbw * 16, mbx * 16, mby * 16, 16),
            sum == pixel_sum(ybuf@, mbw as int, mbx as int, mby as int, k as int),
            sum_sq == pixel_square_sum(ybuf@, mbw as int, mbx as int, mby as int, k as int),
            sum <= 255 * k,
            sum_sq <= 65025 * k,
        decreases 256 - k,
    {
        proof {
            lemma_inside(
                mbx * 16 + k as int % 16,
                mby * 16 + k as int / 16,
                w as int,
                mby * 16 + 16,
                ybuf@.len() as int,
            );
        }
        let v: u64 = pixel_at(ybuf, w, mbx * 16 + k % 16, mby * 16 + k / 16) as u64;
        assert(0 <= v * v <= 65025) by (nonlinear_arith)
            requires
                0 <= v <= 255,
        ;
        sum = sum + v;
        sum_sq = sum_sq + v * v;
        k = k + 1;
    }
    proof {
        lemma_variance_nonnegative(ybuf@, mbw as int, mbx as int, mby as int, 256);
        assert(sum * sum <= 65280 * 65280) by (nonlinear_arith)
            requires
                sum <= 65280,
        ;
    }
    256 * sum_sq - sum * sum
}

/// Whether macroblock `a` comes before `b`: by variance, then by position.
pub open spec fn before(v: Seq<u64>, a: int, b: int) -> bool {
    v[a] < v[b] || (v[a] == v[b] && a < b)
}

/// How many macroblocks come before macroblock `i`.
pub open spec fn rank(v: Seq<u64>, i: int) -> int {
    Set::new(|j: int| 0 <= j < v.len() && before(v, j, i)).len() as int
}

/// Macroblocks before a given one.
spec fn earlier(v: Seq<u64>, i: int) -> Set<int> {
    Set::new(|j: int| 0 <= j < v.len() && before(v, j, i))
}

/// Two macroblocks have different ranks, and every rank is below their number.
pub proof fn lemma_ranks(v: Seq<u64>, i: int, j: int)
    requires
        0 <= i < v.len(),
        0 <= j < v.len(),
    ensures
        0 <= rank(v, i) < v.len(),
        before(v, i, j) ==> rank(v, i) < rank(v, j),
{
    let all = set_int_range(0, v.len() as int);
    lemma_int_range(0, v.len() as int);
    let a = earlier(v, i);
    let b = earlier(v, j);
    assert(a.subset_of(all.remove(i)));
    lemma_len_subset(a, all.remove(i));
    assert(b.subset_of(all));
    lemma_len_subset(b, all);
    if before(v, i, j) {
        assert(b.contains(i));
        assert(a.subset_of(b.remove(i)));
        lemma_len_subset(a, b.remove(i));
    }
}

/// Segment of each macroblock: the quarter that its rank falls into.
pub open spec fn quartiles(v: Seq<u64>) -> Seq<u8> {
    Seq::new(v.len(), |i: int| (rank(v, i) * 4 / v.len() as int) as u8)
}

/// Positions from `lo` to `hi`, each before the next.
spec fn in_order(order: Seq<usize>, v: Seq<u64>, lo: int, hi: int) -> bool {
    &&& forall|k: int| 0 <= k < order.len() ==> lo <= #[trigger] order[k] < hi
    &&& forall|i: int, j: int|
        #![trigger order[i], order[j]]
        0 <= i < j < order.len() ==> before(v, order[i] as int, order[j] as int)
}

/// Whether position `i` occurs in an order.
spec fn listed(order: Seq<usize>, i: int) -> bool {
    exists|r: int| 0 <= r < order.len() && #[trigger] order[r] == i
}

fn comes_before(v: &[u64], a: usize, b: usize) -> (r: bool)
    requires
        a < v@.len(),
        b < v@.len(),
    ensures
        r == before(v@, a as int, b as int),
{
    v[a] < v[b] || (v[a] == v[b] && a < b)
}

fn merge(a: &Vec<usize>, b: &Vec<usize>, v: &[u64], lo: usize, mid: usize, hi: usize) -> (out: Vec<
    usize,
>)
    requires
        lo <= mid <= hi <= v@.len(),
        a@.len() == mid - lo,
        b@.len() == hi - mid,
        in_order(a@, v@, lo as int, mid as int),
        in_order(b@, v@, mid as int, hi as int),
    ensures
        out@.len() == hi - lo,
        in_order(out@, v@, lo as int, hi as int),
{
    let mut out: Vec<usize> = Vec::new();
    let mut i: usize = 0;
    let mut j: usize = 0;
    while i < a.len() || j < b.len()
        invariant
            lo <= mid <= hi <= v@.len(),
            i <= a@.len() == mid - lo,
            j <= b@.len() == hi - mid,
            in_order(a@, v@, lo as int, mid as int),
            in_order(b@, v@, mid as int, hi as int),
            out@.len() == i + j,
            in_order(out@, v@, lo as int, hi as int),
            i < a@.len() ==> forall|k: int|
                0 <= k < out@.len() ==> before(v@, #[trigger] out@[k] as int, a@[i as int] as int),
            j < b@.len() ==> forall|k: int|
                0 <= k < out@.len() ==> before(v@, #[trigger] out@[k] as int, b@[j as int] as int),
        decreases a@.len() - i + b@.len() - j,
    {
        let take_left = if i >= a.len() {
            false
        } else if j >= b.len() {
            true
        } else {
            comes_before(v, a[i], b[j])
        };
        let ghost earlier = out@;
        if take_left {
            out.push(a[i]);
            i = i + 1;
        } else {
            out.push(b[j]);
            j = j + 1;
        }
        proof {
            assert forall|k: int| 0 <= k < out@.len() && i < a@.len() implies before(
                v@,
                #[trigger] out@[k] as int,
                a@[i as int] as int,
            ) by {
                if k < earlier.len() {
                    assert(out@[k] == earlier[k]);
                }
            }
            assert forall|k: int| 0 <= k < out@.len() && j < b@.len() implies before(
                v@,
                #[trigger] out@[k] as int,
                b@[j as int] as int,
            ) by {
                if k < earlier.len() {
                    assert(out@[k] == earlier[k]);
                }
            }
        }
    }
    out
}

fn sort_positions(v: &[u64], lo: usize, hi: usize) -> (order: Vec<usize>)
    requires
        lo <= hi <= v@.len(),
    ensures
        order@.len() == hi - lo,
        in_order(order@, v@, lo as int, hi as int),
    decreases hi - lo,
{
    if hi == lo {
        return Vec::new();
    }
    if hi - lo == 1 {
        let mut order: Vec<usize> = Vec::new();
        order.push(lo);
        return order;
    }
    let mid: usize = lo + (hi - lo) / 2;
    let a = sort_positions(v, lo, mid);
    let b = sort_positions(v, mid, hi);
    merge(&a, &b, v, lo, mid, hi)
}

/// In sorted order every position stands at its rank.
proof fn lemma_order_is_rank(order: Seq<usize>, v: Seq<u64>)
    requires
        order.len() == v.len(),
        in_order(order, v, 0, v.len() as int),
    ensures
        forall|r: int| 0 <= r < order.len() ==> rank(v, #[trigger] order[r] as int) == r,
        forall|i: int| 0 <= i < v.len() ==> #[trigger] listed(order, i),
{
    let n = v.len() as int;
    let positions = Seq::new(order.len(), |k: int| order[k] as int);
    assert(positions.no_duplicates()) by {
        assert forall|i: int, j: int|
            0 <= i < positions.len() && 0 <= j < positions.len() && i != j implies positions[i]
            != positions[j] by {
            if i < j {
                assert(before(v, order[i] as int, order[j] as int));
            } else {
                assert(before(v, order[j] as int, order[i] as int));
            }
        }
    }
    positions.unique_seq_to_set();
    lemma_int_range(0, n);
    let all = set_int_range(0, n);
    assert(positions.to_set().subset_of(all)) by {
        assert forall|x: int| positions.to_set().contains(x) implies all.contains(x) by {
            let k = choose|k: int| 0 <= k < positions.len() && positions[k] == x;
            assert(0 <= order[k] < n);
        }
    }
    lemma_subset_equality(positions.to_set(), all);
    assert forall|i: int| 0 <= i < n implies #[trigger] listed(order, i) by {
        assert(all.contains(i));
        let k = choose|k: int| 0 <= k < positions.len() && positions[k] == i;
        assert(order[k] == i);
    }
    assert forall|r: int| 0 <= r < order.len() implies rank(v, #[trigger] order[r] as int) == r by {
        let x = order[r] as int;
        let ahead = Set::new(|j: int| 0 <= j < v.len() && before(v, j, x));
        let head = positions.take(r);
        assert(head.no_duplicates());
        head.unique_seq_to_set();
        assert(head.to_set() =~= ahead) by {
            assert forall|j: int| ahead.contains(j) implies head.to_set().contains(j) by {
                assert(listed(order, j));
                let q = choose|q: int| 0 <= q < order.len() && #[trigger] order[q] == j;
                if q > r {
                    assert(before(v, order[r] as int, order[q] as int));
                }
                assert(head[q] == j);
            }
            assert forall|j: int| head.to_set().contains(j) implies ahead.contains(j) by {
                let q = choose|q: int| 0 <= q < head.len() && head[q] == j;
                assert(before(v, order[q] as int, order[r] as int));
            }
        }
    }
}

/// Segment of each macroblock from the variances of the macroblocks.
pub fn quartiles_of(variances: &[u64]) -> (ids: Vec<u8>)
    requires
        4 * variances@.len() <= usize::MAX,
    ensures
        ids@ == quartiles(variances@),
        forall|i: int| 0 <= i < ids@.len() ==> #[trigger] ids@[i] < 4,
{
    let n: usize = variances.len();
    let order = sort_positions(variances, 0, n);
    proof {
        lemma_order_is_rank(order@, variances@);
    }
    let mut ids: Vec<u8> = vec![0u8; n];
    let mut r: usize = 0;
    while r < n
        invariant
            r <= n == order@.len() == ids@.len() == variances@.len(),
            4 * n <= usize::MAX,
            in_order(order@, variances@, 0, n as int),
            forall|r: int|
                0 <= r < order@.len() ==> rank(variances@, #[trigger] order@[r] as int) == r,
            forall|q: int|
                0 <= q < r ==> ids@[#[trigger] order@[q] as int] == quartiles(
                    variances@,
                )[order@[q] as int],
            forall|i: int| 0 <= i < n ==> #[trigger] ids@[i] < 4,
        decreases n - r,
    {
        let position: usize = order[r];
        let quartile: usize = r * MAX_SEGMENTS / n;
        proof {
            assert(0 <= order@[r as int] < n);
            assert(quartile < 4) by (nonlinear_arith)
                requires
                    quartile == r * 4 / (n as int),
                    0 <= r < n,
            ;
            assert(rank(variances@, order@[r as int] as int) == r);
            assert(quartiles(variances@)[position as int] == quartile as u8);
        }
        let ghost earlier = ids@;
        ids[position] = quartile as u8;
        proof {
            assert forall|q: int| 0 <= q < r + 1 implies ids@[#[trigger] order@[q] as int]
                == quartiles(variances@)[order@[q] as int] by {
                if q < r {
                    assert(before(variances@, order@[q] as int, order@[r as int] as int));
                    assert(order@[q] != position);
                }
            }
        }
        r = r + 1;
    }
    proof {
        assert forall|i: int| 0 <= i < n implies ids@[i] == quartiles(variances@)[i] by {
            assert(listed(order@, i));
            let q = choose|q: int| 0 <= q < order@.len() && #[trigger] order@[q] == i;
            assert(ids@[order@[q] as int] == quartiles(variances@)[order@[q] as int]);
        }
        assert(ids@ =~= quartiles(variances@));
    }
    ids
}

/// Variances of all macroblocks of a frame, row by row.
pub open spec fn variances_of(ybuf: Seq<u8>, mbw: int, mbh: int) -> Seq<u64> {
    Seq::new(
        (mbw * mbh) as nat,
        |i: int| variance(ybuf, mbw, i % mbw, i / mbw) as u64,
    )
}

/// Column and row of a macroblock.
pub proof fn lemma_macroblock_position(i: int, mbw: int, mbh: int)
    requires
        0 <= i < mbw * mbh,
        0 <= mbw,
        0 <= mbh,
    ensures
        mbw > 0,
        0 <= i % mbw < mbw,
        0 <= i / mbw < mbh,
        i == (i / mbw) * mbw + i % mbw,
{
    assert(mbw > 0) by (nonlinear_arith)
        requires
            0 <= i < mbw * mbh,
            0 <= mbw,
    ;
    vstd::arithmetic::div_mod::lemma_fundamental_div_mod(i, mbw);
    let q = i / mbw;
    assert(0 <= q < mbh && i == q * mbw + i % mbw) by (nonlinear_arith)
        requires
            i == mbw * q + i % mbw,
            0 <= i % mbw < mbw,
            0 <= i < mbw * mbh,
            q == i / mbw,
    ;
}

/// A macroblock of the frame lies inside its plane.
pub proof fn lemma_macroblock_fits(mbx: int, mby: int, mbw: int, mbh: int, size: int)
    requires
        0 <= mbx < mbw <= 0x1_0000,
        0 <= mby < mbh <= 0x1_0000,
        size == 8 || size == 16,
    ensures
        fits((mbw * size) * (mbh * size), mbw * size, mbx * size, mby * size, size),
{
    assert(mbx * size + size <= mbw * size) by (nonlinear_arith)
        requires
            mbx + 1 <= mbw,
            size > 0,
    ;
    assert(mby * size + size <= mbh * size) by (nonlinear_arith)
        requires
            mby + 1 <= mbh,
            size > 0,
    ;
    assert((mbw * size) * (mby * size + size) <= (mbw * size) * (mbh * size)) by (nonlinear_arith)
        requires
            mby * size + size <= mbh * size,
            0 <= mbw * size,
    ;
    assert(0 <= mbx * size && 0 <= mby * size) by (nonlinear_arith)
        requires
            mbx >= 0,
            mby >= 0,
            size > 0,
    ;
}

} // verus!
