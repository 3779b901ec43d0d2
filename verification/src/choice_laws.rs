//! What the encoder chooses, in numbers.
use vstd::prelude::*;

use crate::arithmetic_encoder::Coder;
use crate::binary64::{signed_greater, Dyadic};
use crate::counting::{frame_symbols, law_statistics_count_what_is_coded, total_uses};
use crate::decoder::lemma_scene_wf;
use crate::encoder::Contexts;
use crate::frame::Image;
use crate::frame_decoding::lemma_decision;
use crate::model::Decision;
use crate::passes::{lemma_decisions_prefix, replay, row_modes, skipped_count};
use crate::probabilities::{probability, updated_prob};
use crate::segments::{
    before, count_id, lemma_macroblock_position, lemma_ranks, lemma_variance_nonnegative,
    macroblock_pixel, pixel_square_sum, pixel_sum, quartiles, rank,
    variance, variances_of,
};
use crate::skipping::lemma_decision_plain;
use crate::tables::branch_costs::branch_cost_bits;
use crate::tables::coeff_probs::default_probs;
use crate::tables::update_probs::update_flag_probs;
use crate::tokens::tally_index;

verus! {

/// `prob` is the part, out of 256, that `few` are of `all`, to the nearest,
/// but neither 0 nor 256.
pub open spec fn nearest_part(few: int, all: int, prob: int) -> bool {
    let twice = 512 * few + all;
    &&& 1 <= prob <= 255
    &&& 2 * (prob * all) <= twice || prob == 1
    &&& twice < 2 * (prob * all) + 2 * all || prob == 255
}

/// The probability that is derived from two counts.
pub proof fn law_probability_is_the_nearest_part(few: int, all: int)
    requires
        0 <= few <= all,
        0 < all,
    ensures
        nearest_part(few, all, probability(few, all) as int),
{
    let x = 256 * few + all / 2;
    let q = x / all;
    vstd::arithmetic::div_mod::lemma_fundamental_div_mod(x, all);
    assert(all * q == q * all) by (nonlinear_arith);
    assert(0 <= q) by (nonlinear_arith)
        requires
            x >= 0,
            all > 0,
            q == x / all,
    ;
    assert(1 * all <= q * all || q < 1) by (nonlinear_arith)
        requires
            all > 0,
    ;
    if q > 255 {
        assert(255 * all <= q * all) by (nonlinear_arith)
            requires
                all > 0,
                q > 255,
        ;
    }
    let prob = probability(few, all) as int;
    assert(prob == 1 ==> prob * all == all) by (nonlinear_arith);
    assert(prob == 255 ==> prob * all == 255 * all) by (nonlinear_arith);
    if q < 1 {
        assert(q * all == 0) by (nonlinear_arith)
            requires
                q == 0,
        ;
    }
    if 1 <= q <= 255 {
        assert(prob * all == q * all);
    }
}

/// How many decisions skip their macroblock.
proof fn lemma_skips(ds: Seq<Decision>)
    ensures
        skipped_count(ds) == ds.filter(|d: Decision| d.coeffs_skipped).len(),
        0 <= skipped_count(ds) <= ds.len(),
    decreases ds.len(),
{
    reveal(Seq::filter);
    if ds.len() > 0 {
        lemma_skips(ds.drop_last());
    }
}

/// The header gives the share of the macroblocks that are not skipped.
pub proof fn law_skip_probability_is_the_share(image: Image, partitions: int)
    requires
        image.wf(),
    ensures
        ({
            let ds = image.decisions();
            let skipped = ds.filter(|d: Decision| d.coeffs_skipped).len();
            let prob = image.frame_header(partitions).no_skip;
            &&& ds.len() == image.count()
            &&& prob is Some
            &&& ds.len() == 0 ==> prob == Some(128u8)
            &&& ds.len() > 0 ==> nearest_part(
                ds.len() - skipped,
                ds.len() as int,
                prob.unwrap() as int,
            )
        }),
{
    let ds = image.decisions();
    lemma_scene_wf(image);
    let (a, b) = (image.scene().mbw, image.scene().mbh);
    assert(0 <= a * b) by (nonlinear_arith)
        requires
            0 <= a,
            0 <= b,
    ;
    lemma_decisions_prefix(image.scene(), image.start(), image.count(), image.count());
    lemma_skips(ds);
    if ds.len() > 0 {
        law_probability_is_the_nearest_part(ds.len() - skipped_count(ds), ds.len() as int);
    }
}

/// How many macroblocks have a segment id.
pub open spec fn number_of(ids: Seq<u8>, id: u8) -> int {
    ids.filter(|x: u8| x == id).len() as int
}

proof fn lemma_ids(ids: Seq<u8>, id: u8)
    ensures
        count_id(ids, id) == number_of(ids, id),
        0 <= count_id(ids, id) <= ids.len(),
    decreases ids.len(),
{
    reveal(Seq::filter);
    if ids.len() > 0 {
        lemma_ids(ids.drop_last(), id);
    }
}

proof fn lemma_all_ids(ids: Seq<u8>)
    requires
        forall|i: int| 0 <= i < ids.len() ==> #[trigger] ids[i] < 4,
    ensures
        count_id(ids, 0) + count_id(ids, 1) + count_id(ids, 2) + count_id(ids, 3) == ids.len(),
    decreases ids.len(),
{
    if ids.len() > 0 {
        let rest = ids.drop_last();
        assert forall|i: int| 0 <= i < rest.len() implies #[trigger] rest[i] < 4 by {
            assert(rest[i] == ids[i]);
        }
        lemma_all_ids(rest);
        assert(ids.last() < 4);
    }
}

/// `prob` is the share of `few` among `few` and `more`; half if there are none.
pub open spec fn share(few: int, more: int, prob: int) -> bool {
    if few + more == 0 {
        prob == 128
    } else {
        nearest_part(few, few + more, prob)
    }
}

/// The header gives the shares of the segments, as the tree of their ids asks
/// for them.
pub proof fn law_segment_probabilities_are_the_shares(image: Image, partitions: int)
    requires
        image.wf(),
    ensures
        ({
            let ids = image.scene().ids;
            let (a, b) = (number_of(ids, 0), number_of(ids, 1));
            let (c, d) = (number_of(ids, 2), number_of(ids, 3));
            let probs = image.frame_header(partitions).segment_tree_probs;
            &&& probs.len() == 3
            &&& share(a + b, c + d, probs[0] as int)
            &&& share(a, b, probs[1] as int)
            &&& share(c, d, probs[2] as int)
        }),
{
    let ids = image.scene().ids;
    lemma_scene_wf(image);
    lemma_ids(ids, 0);
    lemma_ids(ids, 1);
    lemma_ids(ids, 2);
    lemma_ids(ids, 3);
    lemma_all_ids(ids);
    let (a, b, c, d) = (count_id(ids, 0), count_id(ids, 1), count_id(ids, 2), count_id(ids, 3));
    if a + b + c + d > 0 {
        law_probability_is_the_nearest_part(a + b, a + b + c + d);
    }
    if a + b > 0 {
        law_probability_is_the_nearest_part(a, a + b);
    }
    if c + d > 0 {
        law_probability_is_the_nearest_part(c, c + d);
    }
}

/// Cost in bits of coding a branch `few` times as false and `more` times as true
/// with probability `prob`.
pub open spec fn coding_cost(few: u64, more: u64, prob: u8) -> Dyadic {
    Dyadic::of(few as nat).times(Dyadic::of_bits(branch_cost_bits(prob as int))).plus(
        Dyadic::of(more as nat).times(Dyadic::of_bits(branch_cost_bits(256 - prob))),
    )
}

/// Changing a probability saves more than telling of it costs: eight bits, and
/// a flag that is true and not false.
pub open spec fn pays(few: u64, more: u64, old: u8, new: u8, flag: u8) -> bool {
    signed_greater(
        coding_cost(few, more, old).minus(coding_cost(few, more, new)),
        Dyadic::of(8).plus(coding_cost(0, 1, flag)).minus(coding_cost(1, 0, flag)),
    )
}

/// A token probability of a frame is the share of the bits that are coded with
/// it and are false, if there are twenty such bits and it pays; else it is the
/// default.
pub proof fn law_token_probabilities_fit_the_tokens(image: Image, slot: int)
    requires
        image.wf(),
        0 <= slot < 1056,
    ensures
        ({
            let parts = frame_symbols(
                image.scene(),
                image.start(),
                image.first(),
                image.decisions(),
                1,
                image.count(),
            );
            let few = total_uses(parts, slot, false) as u64;
            let more = total_uses(parts, slot, true) as u64;
            let old = default_probs()[slot];
            let new = image.token_probs()[slot];
            let flag = update_flag_probs()[slot];
            &&& few == total_uses(parts, slot, false) && more == total_uses(parts, slot, true)
            &&& few + more < 20 ==> new == old
            &&& new != old ==> nearest_part(few as int, few + more, new as int) && pays(
                few,
                more,
                old,
                new,
                flag,
            )
            &&& few + more >= 20 && new == old ==> forall|p: u8| #[trigger]
                nearest_part(few as int, few + more, p as int) && p != old ==> !pays(
                    few,
                    more,
                    old,
                    p,
                    flag,
                )
        }),
{
    let scene = image.scene();
    let ds = image.decisions();
    lemma_scene_wf(image);
    let (a, b) = (scene.mbw, scene.mbh);
    assert(0 <= a * b) by (nonlinear_arith)
        requires
            0 <= a,
            0 <= b,
    ;
    lemma_decisions_prefix(scene, image.start(), image.count(), image.count());
    assert forall|j: int| 0 <= j < ds.len() implies (#[trigger] ds[j]).wf() by {
        lemma_decision(image, j);
    }
    let first = image.first();
    assert forall|x: int| 0 <= x < first.top.len() implies (#[trigger] first.top[x]).wf() by {
        assert(first.top[x] == Contexts::zero());
    }
    let coders = seq![Coder::fresh()];
    let probs = image.token_probs();
    law_statistics_count_what_is_coded(
        scene,
        image.start(),
        first,
        ds,
        probs,
        coders,
        slot,
        false,
    );
    law_statistics_count_what_is_coded(
        scene,
        image.start(),
        first,
        ds,
        probs,
        coders,
        slot,
        true,
    );
    let counts = image.counts();
    assert(tally_index((slot, false)) == 2 * slot && tally_index((slot, true)) == 2 * slot + 1);
    let (few, more) = (counts[2 * slot], counts[2 * slot + 1]);
    let new = updated_prob(few, more, default_probs()[slot], update_flag_probs()[slot]);
    assert(image.token_probs()[slot] == new);
    if few + more > 0 {
        law_probability_is_the_nearest_part(few as int, few + more);
        let q = probability(few as int, few + more);
        assert forall|p: u8| #[trigger] nearest_part(few as int, few + more, p as int) implies p
            == q by {
            lemma_one_nearest(few as int, few + more, p as int, q as int);
        }
    }
}

/// There is one nearest part.
proof fn lemma_one_nearest(few: int, all: int, p: int, q: int)
    requires
        0 <= few <= all,
        0 < all,
        nearest_part(few, all, p),
        nearest_part(few, all, q),
    ensures
        p == q,
{
    assert(p < q ==> (p + 1) * all <= q * all) by (nonlinear_arith)
        requires
            all > 0,
    ;
    assert(q < p ==> (q + 1) * all <= p * all) by (nonlinear_arith)
        requires
            all > 0,
    ;
    assert((p + 1) * all == p * all + all && (q + 1) * all == q * all + all) by (nonlinear_arith);
}

/// The segments of a frame: each moves the quantiser index by its own delta, and
/// has no filter level of its own.
pub proof fn law_segments_move_the_quantizer(image: Image, partitions: int)
    ensures
        ({
            let s = image.frame_header(partitions).segments;
            &&& s == image.scene().segments
            &&& s.len() == 4
            &&& s[0].quantizer_level == -6
            &&& s[1].quantizer_level == -2
            &&& s[2].quantizer_level == 2
            &&& s[3].quantizer_level == 7
            &&& forall|i: int|
                0 <= i < 4 ==> (#[trigger] s[i]).delta_values && s[i].loopfilter_level == 0
        }),
{
}

/// Sum of `n` pixels from position `p` on, or of their squares.
pub open spec fn run_total(plane: Seq<u8>, p: int, n: int, squared: bool) -> int
    decreases n,
{
    if n <= 0 {
        0
    } else {
        let v = plane[p + n - 1] as int;
        run_total(plane, p, n - 1, squared) + if squared {
            v * v
        } else {
            v
        }
    }
}

/// Sum over the first `rows` rows of the 16 pixels from column `px` on.
pub open spec fn square_total(
    plane: Seq<u8>,
    w: int,
    px: int,
    py: int,
    rows: int,
    squared: bool,
) -> int
    decreases rows,
{
    if rows <= 0 {
        0
    } else {
        square_total(plane, w, px, py, rows - 1, squared) + run_total(
            plane,
            (py + rows - 1) * w + px,
            16,
            squared,
        )
    }
}

/// How much the pixels of macroblock `i` of a plane that is `mbw` macroblocks
/// wide vary: 65536 times their variance.
pub open spec fn spread(plane: Seq<u8>, mbw: int, i: int) -> int {
    let (px, py) = (16 * (i % mbw), 16 * (i / mbw));
    let sum = square_total(plane, 16 * mbw, px, py, 16, false);
    256 * square_total(plane, 16 * mbw, px, py, 16, true) - sum * sum
}

proof fn lemma_run(ybuf: Seq<u8>, mbw: int, mbx: int, mby: int, y: int, n: int)
    requires
        0 <= y < 16,
        0 <= n <= 16,
    ensures
        ({
            let p = (16 * mby + y) * (16 * mbw) + 16 * mbx;
            &&& pixel_sum(ybuf, mbw, mbx, mby, 16 * y + n) == pixel_sum(
                ybuf,
                mbw,
                mbx,
                mby,
                16 * y,
            ) + run_total(ybuf, p, n, false)
            &&& pixel_square_sum(ybuf, mbw, mbx, mby, 16 * y + n) == pixel_square_sum(
                ybuf,
                mbw,
                mbx,
                mby,
                16 * y,
            ) + run_total(ybuf, p, n, true)
        }),
    decreases n,
{
    if n > 0 {
        lemma_run(ybuf, mbw, mbx, mby, y, n - 1);
        let k = 16 * y + n - 1;
        assert(k / 16 == y && k % 16 == n - 1);
        let p = (16 * mby + y) * (16 * mbw) + 16 * mbx;
        assert((mby * 16 + y) * (mbw * 16) + (mbx * 16 + (n - 1)) == p + n - 1);
        assert(macroblock_pixel(ybuf, mbw, mbx, mby, k) == ybuf[p + n - 1]);
    }
}

/// The squares of pixels.
proof fn lemma_squares_bound(ybuf: Seq<u8>, mbw: int, mbx: int, mby: int, k: int)
    requires
        k >= 0,
    ensures
        pixel_square_sum(ybuf, mbw, mbx, mby, k) <= 65025 * k,
    decreases k,
{
    if k > 0 {
        lemma_squares_bound(ybuf, mbw, mbx, mby, k - 1);
        let v = macroblock_pixel(ybuf, mbw, mbx, mby, k - 1);
        assert(v * v <= 65025) by (nonlinear_arith)
            requires
                0 <= v <= 255,
        ;
    }
}

proof fn lemma_square(ybuf: Seq<u8>, mbw: int, mbx: int, mby: int, y: int)
    requires
        0 <= y <= 16,
    ensures
        pixel_sum(ybuf, mbw, mbx, mby, 16 * y) == square_total(
            ybuf,
            16 * mbw,
            16 * mbx,
            16 * mby,
            y,
            false,
        ),
        pixel_square_sum(ybuf, mbw, mbx, mby, 16 * y) == square_total(
            ybuf,
            16 * mbw,
            16 * mbx,
            16 * mby,
            y,
            true,
        ),
    decreases y,
{
    if y > 0 {
        lemma_square(ybuf, mbw, mbx, mby, y - 1);
        lemma_run(ybuf, mbw, mbx, mby, y - 1, 16);
    }
}

/// The macroblocks before macroblock `i` when they are ordered by how much their
/// pixels vary, and by position where they vary alike.
pub open spec fn flatter(plane: Seq<u8>, mbw: int, count: int, i: int) -> Set<int> {
    Set::new(
        |j: int|
            {
                let (a, b) = (spread(plane, mbw, j), spread(plane, mbw, i));
                0 <= j < count && (a < b || (a == b && j < i))
            },
    )
}

/// The macroblocks are put in order of how much their luma varies, and cut into
/// four parts: macroblock `i` has segment `id` if `id` quarters of the
/// macroblocks or more, but not one quarter more, come before it.
pub proof fn law_segments_go_by_variance(image: Image, i: int)
    requires
        image.wf(),
        0 <= i < image.count(),
    ensures
        ({
            let scene = image.scene();
            let n = image.count();
            let id = scene.ids[i] as int;
            let ahead = flatter(scene.ybuf, scene.mbw, n, i).len();
            &&& id * n <= 4 * ahead < (id + 1) * n
            &&& image.decisions()[i].segment_id == Some(id as usize)
        }),
{
    let scene = image.scene();
    let (mbw, n) = (scene.mbw, image.count());
    lemma_scene_wf(image);
    let v = variances_of(scene.ybuf, mbw, scene.mbh);
    assert forall|j: int| 0 <= j < n implies #[trigger] v[j] == spread(scene.ybuf, mbw, j) by {
        lemma_square(scene.ybuf, mbw, j % mbw, j / mbw, 16);
        lemma_macroblock_position(j, mbw, scene.mbh);
        lemma_variance_nonnegative(scene.ybuf, mbw, j % mbw, j / mbw, 256);
        lemma_squares_bound(scene.ybuf, mbw, j % mbw, j / mbw, 256);
        let sum = pixel_sum(scene.ybuf, mbw, j % mbw, j / mbw, 256);
        assert(sum * sum >= 0) by (nonlinear_arith);
        assert(16 * 16 == 256);
        assert(variance(scene.ybuf, mbw, j % mbw, j / mbw) == spread(scene.ybuf, mbw, j));
    }
    assert(v[i] == spread(scene.ybuf, mbw, i));
    let a = Set::new(|j: int| 0 <= j < v.len() && before(v, j, i));
    let b = flatter(scene.ybuf, mbw, n, i);
    assert forall|j: int| a.contains(j) == b.contains(j) by {
        if 0 <= j < n {
            assert(v[j] == spread(scene.ybuf, mbw, j));
        }
    }
    assert(a =~= b);
    lemma_ranks(v, i, i);
    let r = rank(v, i);
    assert(scene.ids == quartiles(v));
    let q = r * 4 / n;
    vstd::arithmetic::div_mod::lemma_fundamental_div_mod(r * 4, n);
    assert(0 <= q < 4) by (nonlinear_arith)
        requires
            0 <= r < n,
            q == r * 4 / n,
    ;
    assert(q * n == n * q && (q + 1) * n == n * q + n) by (nonlinear_arith);
    lemma_decision(image, i);
    let w = replay(scene, image.start(), image.decisions(), i);
    let (mbx, mby) = (i % mbw, i / mbw);
    lemma_decision_plain(scene, w.canvas, row_modes(w.modes, mbx), mbx, mby);
    assert(mby * mbw + mbx == i) by {
        vstd::arithmetic::div_mod::lemma_fundamental_div_mod(i, mbw);
        assert(mbw * mby == mby * mbw) by (nonlinear_arith);
    }
}

} // verus!
