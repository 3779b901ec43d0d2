//! What holds of the encoder as a whole.
use vstd::arithmetic::power2::{lemma_pow2_adds, lemma_pow2_pos, pow2};
use vstd::prelude::*;
use vstd::set_lib::{
    lemma_int_range, lemma_len_subset, lemma_map_size, lemma_set_disjoint_lens, set_int_range,
};

use crate::binary64::{min_int, signed_greater, Dyadic};
use crate::common::{Plane, Segment};
use crate::filter::filter_level_for;
use crate::frame::Image;
use crate::model::cheapest;
use crate::passes::replay;
use crate::probabilities::{savings, skip_prob, update_overhead, updated_prob};
use crate::quantize::{lemma_trunc_div, quantized, scaled, step_of};
use crate::segments::{
    clamp_index, lemma_ranks, quartiles, rank, segment_of, QuantizationIndices,
    SEGMENT_QUANT_DELTAS,
};
use crate::setup::{frame_segments, quant_index_for};
use crate::tables::quantizers::{lemma_step_range, lemma_steps_increase};
use crate::tokens::{branch_bits, event_bits, event_branches, TokenEvent};

verus! {

/// Every quantiser step of one segment is at most that of another.
pub open spec fn finer(a: Segment, b: Segment) -> bool {
    &&& a.ydc <= b.ydc
    &&& a.yac <= b.yac
    &&& a.y2dc <= b.y2dc
    &&& a.y2ac <= b.y2ac
    &&& a.uvdc <= b.uvdc
    &&& a.uvac <= b.uvac
}

proof fn lemma_finer(p: u8, x: i8, q: u8, y: i8)
    requires
        p + x <= q + y,
    ensures
        finer(
            segment_of(p, x, QuantizationIndices::of(p)),
            segment_of(q, y, QuantizationIndices::of(q)),
        ),
{
    let a = clamp_index(p + x);
    let b = clamp_index(q + y);
    lemma_steps_increase(a, b);
    lemma_step_range(a);
    lemma_step_range(b);
}

/// A higher quality never makes a quantiser step of a segment coarser, nor
/// the filter stronger.
pub proof fn law_quality_orders_quantizers(low: int, high: int, i: int)
    requires
        0 <= low <= high <= 100,
        0 <= i < 4,
    ensures
        finer(
            frame_segments(quant_index_for(high))[i],
            frame_segments(quant_index_for(low))[i],
        ),
        filter_level_for(quant_index_for(high) as int) <= filter_level_for(
            quant_index_for(low) as int,
        ),
{
    assert(0 <= low * 127 / 100 <= high * 127 / 100 <= 127);
    let delta = SEGMENT_QUANT_DELTAS[i];
    lemma_finer(quant_index_for(high), delta, quant_index_for(low), delta);
}

/// A flatter segment never has a coarser quantiser step than a busier one.
pub proof fn law_flat_segments_are_finer(quant_index: u8, i: int, j: int)
    requires
        0 <= i <= j < 4,
    ensures
        finer(frame_segments(quant_index)[i], frame_segments(quant_index)[j]),
{
    lemma_finer(
        quant_index,
        SEGMENT_QUANT_DELTAS[i],
        quant_index,
        SEGMENT_QUANT_DELTAS[j],
    );
}

/// At the best quality the filter is off: what a decoder shows is what was
/// reconstructed for prediction.
pub proof fn law_best_quality_is_not_filtered(image: Image)
    requires
        image.quality == 100,
    ensures
        image.filter_settings().filter_level == 0,
        image.reconstruction() == replay(
            image.scene(),
            image.start(),
            image.decisions(),
            image.count(),
        ).canvas,
{
}

/// The probability of a flag can be coded, and falls as the flag is set more
/// often.
pub proof fn law_skip_probability_falls(a: int, b: int, total: int)
    requires
        0 <= a <= b <= total,
    ensures
        1 <= skip_prob(b, total) <= skip_prob(a, total),
{
    if total > 0 {
        let x = 256 * (total - b) + total / 2;
        let y = 256 * (total - a) + total / 2;
        assert(0 <= x / total <= y / total) by (nonlinear_arith)
            requires
                0 <= x <= y,
                total > 0,
        ;
    }
}

/// Scaling a level back never changes whether it is zero.
pub proof fn law_dequantizing_keeps_zeros(b: Seq<i32>, dc: i16, ac: i16, i: int)
    requires
        dc > 0,
        ac > 0,
        0 <= i < b.len(),
    ensures
        scaled(quantized(b, dc, ac), dc, ac)[i] == 0 <==> quantized(b, dc, ac)[i] == 0,
{
    lemma_trunc_div(b[i] as int, step_of(i, dc, ac));
}

/// Of the bits of a token, those that the token probabilities code are the
/// branches that the statistics count; the others do not depend on the table.
pub proof fn law_statistics_count_what_the_table_codes(
    plane: Plane,
    e: TokenEvent,
    probs: Seq<u8>,
    others: Seq<u8>,
)
    ensures
        ({
            let branches = event_branches(plane, e);
            let bits = event_bits(plane, e, probs);
            &&& bits.take(branches.len() as int) == branch_bits(branches, probs)
            &&& bits.skip(branches.len() as int) == event_bits(plane, e, others).skip(
                branches.len() as int,
            )
        }),
{
    let branches = event_branches(plane, e);
    let n = branches.len() as int;
    let bits = event_bits(plane, e, probs);
    assert(bits.take(n) =~= branch_bits(branches, probs));
    assert(bits.skip(n) =~= event_bits(plane, e, others).skip(n));
}

/// A token probability is only changed if coding the observed branches with the
/// new value saves more than telling the decoder about it costs.
pub proof fn law_updates_pay_for_themselves(
    false_count: u64,
    true_count: u64,
    default_prob: u8,
    flag_prob: u8,
)
    ensures
        ({
            let prob = updated_prob(false_count, true_count, default_prob, flag_prob);
            prob != default_prob ==> signed_greater(
                savings(false_count, true_count, default_prob, prob),
                update_overhead(flag_prob),
            )
        }),
{
}

/// Comparing in any common unit.
pub proof fn lemma_less_in(a: Dyadic, b: Dyadic, e: int)
    requires
        e <= a.exp,
        e <= b.exp,
    ensures
        a.less(b) == (a.units(e) < b.units(e)),
{
    let m = min_int(a.exp, b.exp);
    let d = (m - e) as nat;
    lemma_pow2_adds((a.exp - m) as nat, d);
    lemma_pow2_adds((b.exp - m) as nat, d);
    lemma_pow2_pos(d);
    let x = a.units(m);
    let y = b.units(m);
    let p = pow2(d);
    let (s, t) = (pow2((a.exp - m) as nat), pow2((b.exp - m) as nat));
    assert(a.mant * (s * p) == (a.mant * s) * p) by (nonlinear_arith);
    assert(b.mant * (t * p) == (b.mant * t) * p) by (nonlinear_arith);
    assert((x * p < y * p) == (x < y)) by (nonlinear_arith)
        requires
            p > 0,
    ;
}

/// The candidate that is chosen costs no more than any other, and less than
/// every one that was tried before it.
pub proof fn law_cheapest_candidate_is_chosen(costs: Seq<Dyadic>, k: int, j: int)
    requires
        0 <= j < k,
    ensures
        0 <= cheapest(costs, k) < k,
        !costs[j].less(costs[cheapest(costs, k)]),
        j < cheapest(costs, k) ==> costs[cheapest(costs, k)].less(costs[j]),
    decreases k,
{
    if k > 1 {
        let old = cheapest(costs, k - 1);
        let last = costs[k - 1];
        law_cheapest_candidate_is_chosen(costs, k - 1, 0);
        if j < k - 1 {
            law_cheapest_candidate_is_chosen(costs, k - 1, j);
        }
        let e = min_int(min_int(costs[j].exp, last.exp), costs[old].exp);
        lemma_less_in(costs[j], costs[old], e);
        lemma_less_in(last, costs[old], e);
        lemma_less_in(costs[j], last, e);
        lemma_less_in(last, costs[j], e);
        lemma_less_in(costs[old], costs[j], e);
    }
}

/// Macroblocks of a segment.
pub open spec fn members(v: Seq<u64>, k: int) -> Set<int> {
    Set::new(|i: int| 0 <= i < v.len() && quartiles(v)[i] == k)
}

/// Ranks that fall into a quarter.
spec fn quarter(n: int, k: int) -> Set<int> {
    Set::new(|r: int| 0 <= r < n && r * 4 / n == k)
}

/// First rank of a quarter.
spec fn quarter_start(n: int, k: int) -> int {
    (k * n + 3) / 4
}

proof fn lemma_quarter(n: int, k: int)
    requires
        n > 0,
        0 <= k < 4,
    ensures
        quarter(n, k).finite(),
        quarter(n, k).len() == quarter_start(n, k + 1) - quarter_start(n, k),
{
    let lo = quarter_start(n, k);
    let hi = quarter_start(n, k + 1);
    assert(lo <= hi <= n) by (nonlinear_arith)
        requires
            lo == (k * n + 3) / 4,
            hi == ((k + 1) * n + 3) / 4,
            0 <= k < 4,
            n > 0,
    ;
    assert(0 <= lo) by (nonlinear_arith)
        requires
            lo == (k * n + 3) / 4,
            0 <= k,
            n > 0,
    ;
    assert forall|r: int| quarter(n, k).contains(r) == set_int_range(lo, hi).contains(r) by {
        assert((0 <= r < n && r * 4 / n == k) == (lo <= r < hi)) by (nonlinear_arith)
            requires
                lo == (k * n + 3) / 4,
                hi == ((k + 1) * n + 3) / 4,
                0 <= k < 4,
                n > 0,
                0 <= lo,
                hi <= n,
        ;
    }
    assert(quarter(n, k) =~= set_int_range(lo, hi));
    lemma_int_range(lo, hi);
}

/// A segment has no more members than its quarter has ranks.
proof fn lemma_members_bound(v: Seq<u64>, k: int)
    requires
        v.len() > 0,
        0 <= k < 4,
    ensures
        members(v, k).finite(),
        members(v, k).len() <= quarter(v.len() as int, k).len(),
{
    let n = v.len() as int;
    let s = members(v, k);
    let t = quarter(n, k);
    lemma_int_range(0, n);
    assert(s.subset_of(set_int_range(0, n)));
    lemma_len_subset(s, set_int_range(0, n));
    lemma_quarter(n, k);
    let f = |i: int| rank(v, i);
    let image = s.map(f);
    assert forall|r: int| image.contains(r) implies t.contains(r) by {
        let i = choose|i: int| s.contains(i) && r == f(i);
        lemma_ranks(v, i, i);
        assert(0 <= rank(v, i) * 4 / n < 4) by (nonlinear_arith)
            requires
                0 <= rank(v, i) < n,
        ;
    }
    assert(vstd::relations::injective_on(f, s)) by {
        assert forall|i: int, j: int|
            s.contains(i) && s.contains(j) && #[trigger] f(i) == #[trigger] f(j) implies i == j by {
            lemma_ranks(v, i, j);
            lemma_ranks(v, j, i);
        }
    }
    lemma_map_size(s, image, f);
    lemma_len_subset(image, t);
}

/// The macroblocks of a frame are split evenly: two segments differ by at most
/// one macroblock.
pub proof fn law_segments_are_even(v: Seq<u64>, k: int)
    requires
        v.len() > 0,
        0 <= k < 4,
    ensures
        v.len() as int / 4 <= members(v, k).len() <= (v.len() as int + 3) / 4,
{
    let n = v.len() as int;
    let (a, b, c, d) = (members(v, 0), members(v, 1), members(v, 2), members(v, 3));
    lemma_members_bound(v, 0);
    lemma_members_bound(v, 1);
    lemma_members_bound(v, 2);
    lemma_members_bound(v, 3);
    lemma_quarter(n, 0);
    lemma_quarter(n, 1);
    lemma_quarter(n, 2);
    lemma_quarter(n, 3);
    lemma_set_disjoint_lens(a, b);
    lemma_set_disjoint_lens(a + b, c);
    lemma_set_disjoint_lens(a + b + c, d);
    let all = set_int_range(0, n);
    lemma_int_range(0, n);
    assert forall|i: int| all.contains(i) implies (a + b + c + d).contains(i) by {
        lemma_ranks(v, i, i);
        assert(0 <= rank(v, i) * 4 / n < 4) by (nonlinear_arith)
            requires
                0 <= rank(v, i) < n,
        ;
    }
    assert(a + b + c + d =~= all);
    assert(quarter_start(n, 0) == 0);
    assert(quarter_start(n, 4) == n);
}

} // verus!
