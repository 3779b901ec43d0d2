//! Coding of the coefficients of a macroblock.
//!
//! A macroblock is a sequence of blocks, each with the context that its
//! neighbours above and to the left give it. The statistics of the tokens and
//! the coded bits are both taken from this one sequence.
use vstd::prelude::*;

use crate::arithmetic_encoder::lemma_write_all_concat;
use crate::common::{flat_table, LumaMode, Plane, Segment, ZIGZAG};
use crate::encoder::{Complexity, Contexts, MacroblockInfo, Vp8Encoder};
use crate::model::segment_for;
use crate::quantize::{block_at, coeffs0, get_coeffs0_from_block, lemma_trunc_div, load_block};
use crate::tokens::{
    accumulate_token_events, block_events, block_has_levels, codable, event_bits, events_bits,
    events_branches, first_coeff, has_levels, has_room, lemma_block_events_valid,
    lemma_events_branches_len, lemma_tallied_concat, levels, tallied, tokenize_block, valid_event,
    write_event, TokenCounts, TokenEvent,
};
use crate::transform::{lemma_wht_bound, trunc_div, wht, wht4x4, within};

verus! {

/// A block with its levels in coding order and its context.
#[verifier::ext_equal]
pub struct Job {
    pub plane: Plane,
    pub z: Seq<i32>,
    pub context: usize,
}

/// One if a block has a level that is not zero.
pub open spec fn nonzero_flag(z: Seq<i32>) -> u8 {
    if has_levels(z) {
        1
    } else {
        0
    }
}

/// Levels of the blocks of a plane.
pub open spec fn plane_levels(data: Seq<i32>, plane: Plane, dc: i16, ac: i16, k: int) -> Seq<i32> {
    levels(block_at(data, k), plane, dc, ac)
}

/// Context of block `k` in a square of `per` by `per` blocks: how many of the
/// blocks above and to the left have a level that is not zero.
pub open spec fn block_context(
    data: Seq<i32>,
    plane: Plane,
    dc: i16,
    ac: i16,
    left: Seq<u8>,
    top: Seq<u8>,
    per: int,
    k: int,
) -> usize {
    ((if k % per == 0 {
        left[k / per]
    } else {
        nonzero_flag(plane_levels(data, plane, dc, ac, k - 1))
    }) + (if k < per {
        top[k]
    } else {
        nonzero_flag(plane_levels(data, plane, dc, ac, k - per))
    })) as usize
}

/// Blocks of a square of `per` by `per` blocks.
pub open spec fn square_jobs(
    data: Seq<i32>,
    plane: Plane,
    dc: i16,
    ac: i16,
    left: Seq<u8>,
    top: Seq<u8>,
    per: int,
) -> Seq<Job> {
    Seq::new(
        (per * per) as nat,
        |k: int|
            Job {
                plane,
                z: plane_levels(data, plane, dc, ac, k),
                context: block_context(data, plane, dc, ac, left, top, per, k),
            },
    )
}

/// Flags of the last column of a square of blocks.
pub open spec fn last_column(data: Seq<i32>, plane: Plane, dc: i16, ac: i16, per: int) -> Seq<u8> {
    Seq::new(
        per as nat,
        |y: int| nonzero_flag(plane_levels(data, plane, dc, ac, y * per + per - 1)),
    )
}

/// Flags of the last row of a square of blocks.
pub open spec fn last_row(data: Seq<i32>, plane: Plane, dc: i16, ac: i16, per: int) -> Seq<u8> {
    Seq::new(
        per as nat,
        |x: int| nonzero_flag(plane_levels(data, plane, dc, ac, (per - 1) * per + x)),
    )
}

/// Coefficients of a macroblock.
pub struct Coeffs {
    pub y: Seq<i32>,
    pub u: Seq<i32>,
    pub v: Seq<i32>,
}

/// Plane of the luma blocks: without the DC coefficients when these form a
/// block of their own.
pub open spec fn luma_plane_of(mode: LumaMode) -> Plane {
    if mode == LumaMode::B {
        Plane::YCoeff0
    } else {
        Plane::YCoeff1
    }
}

/// Levels of the DC coefficients of the luma blocks.
pub open spec fn dc_levels(y: Seq<i32>, segment: Segment) -> Seq<i32> {
    levels(wht(coeffs0(y)), Plane::Y2, segment.y2dc, segment.y2ac)
}

/// The block of DC coefficients, if there is one.
pub open spec fn dc_jobs(
    mode: LumaMode,
    segment: Segment,
    y: Seq<i32>,
    left: Contexts,
    top: Contexts,
) -> Seq<Job> {
    if mode == LumaMode::B {
        Seq::empty()
    } else {
        seq![
            Job {
                plane: Plane::Y2,
                z: dc_levels(y, segment),
                context: (left.y2 + top.y2) as usize,
            },
        ]
    }
}

/// All blocks of a macroblock, in coding order.
#[verifier::opaque]
pub open spec fn residual_jobs(
    mode: LumaMode,
    segment: Segment,
    c: Coeffs,
    left: Contexts,
    top: Contexts,
) -> Seq<Job> {
    dc_jobs(mode, segment, c.y, left, top) + square_jobs(
        c.y,
        luma_plane_of(mode),
        segment.ydc,
        segment.yac,
        left.y,
        top.y,
        4,
    ) + square_jobs(c.u, Plane::Chroma, segment.uvdc, segment.uvac, left.u, top.u, 2) + square_jobs(
        c.v,
        Plane::Chroma,
        segment.uvdc,
        segment.uvac,
        left.v,
        top.v,
        2,
    )
}

/// Flag of the DC block after a macroblock.
pub open spec fn dc_flag_after(mode: LumaMode, segment: Segment, y: Seq<i32>, before: u8) -> u8 {
    if mode == LumaMode::B {
        before
    } else {
        nonzero_flag(dc_levels(y, segment))
    }
}

/// Context that a macroblock leaves to its right.
#[verifier::opaque]
pub open spec fn left_after(mode: LumaMode, segment: Segment, c: Coeffs, left: Contexts) -> Contexts {
    Contexts {
        y2: dc_flag_after(mode, segment, c.y, left.y2),
        y: last_column(c.y, luma_plane_of(mode), segment.ydc, segment.yac, 4),
        u: last_column(c.u, Plane::Chroma, segment.uvdc, segment.uvac, 2),
        v: last_column(c.v, Plane::Chroma, segment.uvdc, segment.uvac, 2),
    }
}

/// Context that a macroblock leaves below.
#[verifier::opaque]
pub open spec fn top_after(mode: LumaMode, segment: Segment, c: Coeffs, top: Contexts) -> Contexts {
    Contexts {
        y2: dc_flag_after(mode, segment, c.y, top.y2),
        y: last_row(c.y, luma_plane_of(mode), segment.ydc, segment.yac, 4),
        u: last_row(c.u, Plane::Chroma, segment.uvdc, segment.uvac, 2),
        v: last_row(c.v, Plane::Chroma, segment.uvdc, segment.uvac, 2),
    }
}

/// Tokens of a block.
pub open spec fn job_events(job: Job) -> Seq<TokenEvent> {
    block_events(job.z, first_coeff(job.plane), job.context)
}

/// Bits of a sequence of blocks.
pub open spec fn jobs_bits(jobs: Seq<Job>, probs: Seq<u8>) -> Seq<(bool, u8)>
    decreases jobs.len(),
{
    if jobs.len() == 0 {
        Seq::empty()
    } else {
        jobs_bits(jobs.drop_last(), probs) + events_bits(
            jobs.last().plane,
            job_events(jobs.last()),
            probs,
        )
    }
}

/// Branches of the token tree that a sequence of blocks takes.
pub open spec fn jobs_branches(jobs: Seq<Job>) -> Seq<(int, bool)>
    decreases jobs.len(),
{
    if jobs.len() == 0 {
        Seq::empty()
    } else {
        jobs_branches(jobs.drop_last()) + events_branches(
            jobs.last().plane,
            job_events(jobs.last()),
        )
    }
}

/// A block that can be coded.
pub open spec fn valid_job(job: Job) -> bool {
    &&& job.z.len() == 16
    &&& codable(job.z)
    &&& job.context <= 2
}

/// A block to be coded: its coefficients, context and quantiser steps.
pub struct ResidualBlock {
    pub plane: Plane,
    pub block: [i32; 16],
    pub complexity: usize,
    pub dc_quant: i16,
    pub ac_quant: i16,
}

impl View for ResidualBlock {
    type V = Job;

    open spec fn view(&self) -> Job {
        Job {
            plane: self.plane,
            z: levels(self.block@, self.plane, self.dc_quant, self.ac_quant),
            context: self.complexity,
        }
    }
}

/// The blocks as values.
pub open spec fn jobs_of(blocks: Seq<ResidualBlock>) -> Seq<Job> {
    blocks.map_values(|b: ResidualBlock| b@)
}

/// Every block has positive quantiser steps.
pub open spec fn positive_steps(blocks: Seq<ResidualBlock>) -> bool {
    forall|i: int|
        0 <= i < blocks.len() ==> (#[trigger] blocks[i]).dc_quant > 0 && blocks[i].ac_quant > 0
}

proof fn lemma_square(k: int, per: int)
    requires
        per == 2 || per == 4,
        0 <= k < per * per,
    ensures
        0 <= k / per < per,
        0 <= k % per < per,
        per * per <= 16,
{
    if per == 2 {
        assert(2int * 2 == 4);
    } else {
        assert(4int * 4 == 16);
    }
}

/// Appends the blocks of a square, and replaces the flags beside it by those
/// of its last column and its last row.
fn push_square(
    blocks: &mut Vec<ResidualBlock>,
    data: &[i32],
    plane: Plane,
    dc_quant: i16,
    ac_quant: i16,
    left: &mut [u8],
    top: &mut [u8],
    per: usize,
)
    requires
        per == 2 || per == 4,
        data@.len() == 16 * (per * per),
        old(left)@.len() == per,
        old(top)@.len() == per,
        forall|i: int| 0 <= i < per ==> #[trigger] old(left)@[i] <= 1,
        forall|i: int| 0 <= i < per ==> #[trigger] old(top)@[i] <= 1,
        dc_quant > 0,
        ac_quant > 0,
        positive_steps(old(blocks)@),
    ensures
        jobs_of(final(blocks)@) == jobs_of(old(blocks)@) + square_jobs(
            data@,
            plane,
            dc_quant,
            ac_quant,
            old(left)@,
            old(top)@,
            per as int,
        ),
        positive_steps(final(blocks)@),
        final(left)@ == last_column(data@, plane, dc_quant, ac_quant, per as int),
        final(top)@ == last_row(data@, plane, dc_quant, ac_quant, per as int),
{
    let ghost left0 = left@;
    let ghost top0 = top@;
    let ghost start = blocks@;
    let count: usize = per * per;
    proof {
        lemma_square(0, per as int);
    }
    let mut flags = [0u8; 16];
    let mut k: usize = 0;
    while k < count
        invariant
            k <= count <= 16,
            data@.len() == 16 * count,
            dc_quant > 0,
            ac_quant > 0,
            forall|j: int|
                0 <= j < k ==> #[trigger] flags@[j] == nonzero_flag(
                    plane_levels(data@, plane, dc_quant, ac_quant, j),
                ),
        decreases count - k,
    {
        let block = load_block(data, k);
        flags[k] =
        if block_has_levels(&block, plane, dc_quant, ac_quant) {
            1
        } else {
            0
        };
        k = k + 1;
    }
    let ghost jobs = square_jobs(data@, plane, dc_quant, ac_quant, left0, top0, per as int);
    let mut k: usize = 0;
    while k < count
        invariant
            k <= count == per * per,
            per == 2 || per == 4,
            data@.len() == 16 * count,
            count <= 16,
            dc_quant > 0,
            ac_quant > 0,
            left@ == left0,
            top@ == top0,
            left0.len() == per,
            top0.len() == per,
            forall|i: int| 0 <= i < per ==> #[trigger] left0[i] <= 1,
            forall|i: int| 0 <= i < per ==> #[trigger] top0[i] <= 1,
            jobs == square_jobs(data@, plane, dc_quant, ac_quant, left0, top0, per as int),
            forall|j: int|
                0 <= j < count ==> #[trigger] flags@[j] == nonzero_flag(
                    plane_levels(data@, plane, dc_quant, ac_quant, j),
                ),
            blocks@.len() == start.len() + k,
            positive_steps(blocks@),
            forall|i: int| 0 <= i < start.len() ==> #[trigger] blocks@[i] == start[i],
            forall|j: int| 0 <= j < k ==> (#[trigger] blocks@[start.len() + j])@ == jobs[j],
        decreases count - k,
    {
        proof {
            lemma_square(k as int, per as int);
        }
        let before_left: u8 = if k % per == 0 {
            left[k / per]
        } else {
            flags[k - 1]
        };
        let before_top: u8 = if k < per {
            top[k]
        } else {
            flags[k - per]
        };
        assert(before_left <= 1 && before_top <= 1);
        let block = ResidualBlock {
            plane,
            block: load_block(data, k),
            complexity: (before_left + before_top) as usize,
            dc_quant,
            ac_quant,
        };
        assert(block@ == jobs[k as int]);
        let ghost earlier = blocks@;
        blocks.push(block);
        proof {
            assert forall|j: int| 0 <= j < k + 1 implies (#[trigger] blocks@[start.len() + j])@
                == jobs[j] by {
                if j < k {
                    assert(blocks@[start.len() + j] == earlier[start.len() + j]);
                }
            }
        }
        k = k + 1;
    }
    proof {
        let out = jobs_of(blocks@);
        let want = jobs_of(start) + jobs;
        assert(out.len() == want.len());
        assert forall|i: int| 0 <= i < out.len() implies out[i] == want[i] by {
            if i >= start.len() {
                let j = i - start.len();
                assert(blocks@[start.len() + j]@ == jobs[j]);
            } else {
                assert(blocks@[i] == start[i]);
            }
        }
        assert(out =~= want);
    }
    let mut i: usize = 0;
    while i < per
        invariant
            i <= per,
            per == 2 || per == 4,
            count == per * per,
            left@.len() == per,
            top@.len() == per,
            forall|j: int|
                0 <= j < count ==> #[trigger] flags@[j] == nonzero_flag(
                    plane_levels(data@, plane, dc_quant, ac_quant, j),
                ),
            forall|j: int|
                0 <= j < i ==> #[trigger] left@[j] == last_column(
                    data@,
                    plane,
                    dc_quant,
                    ac_quant,
                    per as int,
                )[j],
            forall|j: int|
                0 <= j < i ==> #[trigger] top@[j] == last_row(
                    data@,
                    plane,
                    dc_quant,
                    ac_quant,
                    per as int,
                )[j],
        decreases per - i,
    {
        proof {
            assert(0 <= i * per && i * per + per <= per * per) by (nonlinear_arith)
                requires
                    0 <= i < per,
            ;
            assert((per - 1) * per + per == per * per) by (nonlinear_arith);
        }
        left[i] = flags[i * per + per - 1];
        top[i] = flags[(per - 1) * per + i];
        i = i + 1;
    }
    assert(left@ =~= last_column(data@, plane, dc_quant, ac_quant, per as int));
    assert(top@ =~= last_row(data@, plane, dc_quant, ac_quant, per as int));
}

/// Blocks of a macroblock in coding order; the contexts become those that the
/// macroblock leaves behind.
pub fn residual_blocks(
    luma_mode: LumaMode,
    segment: &Segment,
    y_block_data: &[i32; 256],
    u_block_data: &[i32; 64],
    v_block_data: &[i32; 64],
    left: &mut Complexity,
    top: &mut Complexity,
) -> (blocks: Vec<ResidualBlock>)
    requires
        segment.wf(),
        old(left)@.wf(),
        old(top)@.wf(),
    ensures
        jobs_of(blocks@) == residual_jobs(
            luma_mode,
            *segment,
            (Coeffs { y: y_block_data@, u: u_block_data@, v: v_block_data@ }),
            old(left)@,
            old(top)@,
        ),
        positive_steps(blocks@),
        final(left)@ == left_after(
            luma_mode,
            *segment,
            (Coeffs { y: y_block_data@, u: u_block_data@, v: v_block_data@ }),
            old(left)@,
        ),
        final(top)@ == top_after(
            luma_mode,
            *segment,
            (Coeffs { y: y_block_data@, u: u_block_data@, v: v_block_data@ }),
            old(top)@,
        ),
        final(left)@.wf(),
        final(top)@.wf(),
{
    proof {
        reveal(residual_jobs);
        reveal(left_after);
        reveal(top_after);
    }
    let ghost c = Coeffs { y: y_block_data@, u: u_block_data@, v: v_block_data@ };
    let ghost left0 = left@;
    let ghost top0 = top@;
    let mut blocks: Vec<ResidualBlock> = Vec::new();
    let mut plane = Plane::YCoeff0;
    if luma_mode != LumaMode::B {
        let mut block = get_coeffs0_from_block(y_block_data);
        wht4x4(&mut block);
        let complexity: usize = (left.y2 + top.y2) as usize;
        let has_coeffs = block_has_levels(&block, Plane::Y2, segment.y2dc, segment.y2ac);
        blocks.push(
            ResidualBlock {
                plane: Plane::Y2,
                block,
                complexity,
                dc_quant: segment.y2dc,
                ac_quant: segment.y2ac,
            },
        );
        left.y2 =
        if has_coeffs {
            1
        } else {
            0
        };
        top.y2 = left.y2;
        plane = Plane::YCoeff1;
    }
    assert(jobs_of(blocks@) =~= dc_jobs(luma_mode, *segment, c.y, left0, top0));
    push_square(
        &mut blocks,
        y_block_data,
        plane,
        segment.ydc,
        segment.yac,
        &mut left.y,
        &mut top.y,
        4,
    );
    push_square(
        &mut blocks,
        u_block_data,
        Plane::Chroma,
        segment.uvdc,
        segment.uvac,
        &mut left.u,
        &mut top.u,
        2,
    );
    push_square(
        &mut blocks,
        v_block_data,
        Plane::Chroma,
        segment.uvdc,
        segment.uvac,
        &mut left.v,
        &mut top.v,
        2,
    );
    assert(left@ =~= left_after(luma_mode, *segment, c, left0));
    assert(top@ =~= top_after(luma_mode, *segment, c, top0));
    blocks
}

/// Every block of a macroblock can be coded.
#[verifier::opaque]
pub open spec fn residual_codable(mode: LumaMode, segment: Segment, c: Coeffs) -> bool {
    &&& mode != LumaMode::B ==> codable(dc_levels(c.y, segment))
    &&& forall|k: int|
        0 <= k < 16 ==> codable(
            #[trigger] plane_levels(c.y, luma_plane_of(mode), segment.ydc, segment.yac, k),
        )
    &&& forall|k: int|
        0 <= k < 4 ==> codable(
            #[trigger] plane_levels(c.u, Plane::Chroma, segment.uvdc, segment.uvac, k),
        )
    &&& forall|k: int|
        0 <= k < 4 ==> codable(
            #[trigger] plane_levels(c.v, Plane::Chroma, segment.uvdc, segment.uvac, k),
        )
}

/// The blocks of a macroblock are valid, and there are at most 25.
pub proof fn lemma_residual_jobs_valid(
    mode: LumaMode,
    segment: Segment,
    c: Coeffs,
    left: Contexts,
    top: Contexts,
)
    requires
        left.wf(),
        top.wf(),
        residual_codable(mode, segment, c),
    ensures
        residual_jobs(mode, segment, c, left, top).len() <= 25,
        forall|i: int|
            0 <= i < residual_jobs(mode, segment, c, left, top).len() ==> valid_job(
                #[trigger] residual_jobs(mode, segment, c, left, top)[i],
            ),
{
    reveal(residual_jobs);
    reveal(residual_codable);
    let jobs = residual_jobs(mode, segment, c, left, top);
    let a = dc_jobs(mode, segment, c.y, left, top);
    let b = square_jobs(c.y, luma_plane_of(mode), segment.ydc, segment.yac, left.y, top.y, 4);
    let u = square_jobs(c.u, Plane::Chroma, segment.uvdc, segment.uvac, left.u, top.u, 2);
    let v = square_jobs(c.v, Plane::Chroma, segment.uvdc, segment.uvac, left.v, top.v, 2);
    assert(b.len() == 16 && u.len() == 4 && v.len() == 4);
    assert forall|k: int| 0 <= k < 16 implies valid_job(#[trigger] b[k]) by {
        assert(codable(plane_levels(c.y, luma_plane_of(mode), segment.ydc, segment.yac, k)));
        assert(left.y[k / 4] <= 1);
        if k < 4 {
            assert(top.y[k] <= 1);
        }
    }
    assert forall|k: int| 0 <= k < 4 implies valid_job(#[trigger] u[k]) by {
        assert(codable(plane_levels(c.u, Plane::Chroma, segment.uvdc, segment.uvac, k)));
        assert(left.u[k / 2] <= 1);
        if k < 2 {
            assert(top.u[k] <= 1);
        }
    }
    assert forall|k: int| 0 <= k < 4 implies valid_job(#[trigger] v[k]) by {
        assert(codable(plane_levels(c.v, Plane::Chroma, segment.uvdc, segment.uvac, k)));
        assert(left.v[k / 2] <= 1);
        if k < 2 {
            assert(top.v[k] <= 1);
        }
    }
    assert forall|i: int| 0 <= i < jobs.len() implies valid_job(#[trigger] jobs[i]) by {
        let n = a.len() as int;
        if i < n {
            assert(jobs[i] == a[i]);
        } else if i < n + 16 {
            assert(jobs[i] == b[i - n]);
        } else if i < n + 20 {
            assert(jobs[i] == u[i - n - 16]);
        } else {
            assert(jobs[i] == v[i - n - 20]);
        }
    }
}

/// Levels of bounded coefficients.
proof fn lemma_levels_bound(block: Seq<i32>, plane: Plane, dc: i16, ac: i16, bound: int, step: int)
    requires
        block.len() == 16,
        within(block, bound),
        0 < step <= dc,
        step <= ac,
        0 <= bound <= 2048 * step,
        step <= 8,
    ensures
        codable(levels(block, plane, dc, ac)),
{
    let z = levels(block, plane, dc, ac);
    assert forall|i: int| 0 <= i < 16 implies -2048 <= #[trigger] z[i] <= 2048 by {
        if i >= first_coeff(plane) {
            let n = ZIGZAG[i] as int;
            assert(0 <= n < 16);
            let q = if n > 0 {
                ac as int
            } else {
                dc as int
            };
            let a = block[n] as int;
            lemma_trunc_div(a, q);
            let t = trunc_div(a, q);
            assert(-2048 <= t <= 2048) by (nonlinear_arith)
                requires
                    a >= 0 ==> 0 <= t && 0 <= t * q <= a,
                    a <= 0 ==> t <= 0 && a <= t * q <= 0,
                    -bound <= a <= bound,
                    bound <= 2048 * step,
                    0 < step <= q,
            ;
        }
    }
}

/// Coefficients of pixel differences can be coded.
pub proof fn lemma_residual_codable(mode: LumaMode, segment: Segment, c: Coeffs)
    requires
        segment.wf(),
        c.y.len() == 256,
        c.u.len() == 64,
        c.v.len() == 64,
        within(c.y, 2040),
        within(c.u, 2040),
        within(c.v, 2040),
    ensures
        residual_codable(mode, segment, c),
{
    reveal(residual_codable);
    let c0 = coeffs0(c.y);
    assert(within(c0, 2040));
    lemma_wht_bound(c0);
    lemma_levels_bound(wht(c0), Plane::Y2, segment.y2dc, segment.y2ac, 16320, 8);
    assert forall|k: int| 0 <= k < 16 implies codable(
        #[trigger] plane_levels(c.y, luma_plane_of(mode), segment.ydc, segment.yac, k),
    ) by {
        let b = block_at(c.y, k);
        assert(within(b, 2040));
        lemma_levels_bound(b, luma_plane_of(mode), segment.ydc, segment.yac, 2040, 4);
    }
    assert forall|k: int| 0 <= k < 4 implies codable(
        #[trigger] plane_levels(c.u, Plane::Chroma, segment.uvdc, segment.uvac, k),
    ) by {
        let b = block_at(c.u, k);
        assert(within(b, 2040));
        lemma_levels_bound(b, Plane::Chroma, segment.uvdc, segment.uvac, 2040, 4);
    }
    assert forall|k: int| 0 <= k < 4 implies codable(
        #[trigger] plane_levels(c.v, Plane::Chroma, segment.uvdc, segment.uvac, k),
    ) by {
        let b = block_at(c.v, k);
        assert(within(b, 2040));
        lemma_levels_bound(b, Plane::Chroma, segment.uvdc, segment.uvac, 2040, 4);
    }
}

/// Bound on the branches of a sequence of blocks.
pub proof fn lemma_jobs_branches_len(jobs: Seq<Job>)
    requires
        forall|i: int| 0 <= i < jobs.len() ==> valid_job(#[trigger] jobs[i]),
    ensures
        jobs_branches(jobs).len() <= 352 * jobs.len(),
    decreases jobs.len(),
{
    if jobs.len() > 0 {
        lemma_jobs_branches_len(jobs.drop_last());
        let job = jobs.last();
        assert(valid_job(jobs[jobs.len() - 1]));
        lemma_block_events_valid(job.z, first_coeff(job.plane), job.context);
        lemma_events_branches_len(job.plane, job_events(job));
    }
}

proof fn lemma_jobs_branches_prefix(jobs: Seq<Job>, n: int)
    requires
        0 <= n <= jobs.len(),
    ensures
        jobs_branches(jobs.take(n)).len() <= jobs_branches(jobs).len(),
    decreases jobs.len(),
{
    if n < jobs.len() {
        lemma_jobs_branches_prefix(jobs.drop_last(), n);
        assert(jobs.drop_last().take(n) =~= jobs.take(n));
    } else {
        assert(jobs.take(n) =~= jobs);
    }
}

impl Vp8Encoder {
    /// Writes the tokens of a block. Returns whether the block has a level
    /// that is not zero.
    pub fn encode_coefficients(
        &mut self,
        block: &[i32; 16],
        partition_index: usize,
        plane: Plane,
        complexity: usize,
        dc_quant: i16,
        ac_quant: i16,
    ) -> (has_coeffs: bool)
        requires
            partition_index < old(self).partitions@.len(),
            old(self).partitions@[partition_index as int].wf(),
            complexity <= 2,
            dc_quant > 0,
            ac_quant > 0,
            codable(levels(block@, plane, dc_quant, ac_quant)),
        ensures
            *final(self) == (Vp8Encoder { partitions: final(self).partitions, ..*old(self) }),
            final(self).partitions@ == old(self).partitions@.update(
                partition_index as int,
                final(self).partitions@[partition_index as int],
            ),
            final(self).partitions@[partition_index as int].wf(),
            final(self).partitions@[partition_index as int]@
                == old(self).partitions@[partition_index as int]@.write_all(
                events_bits(
                    plane,
                    block_events(
                        levels(block@, plane, dc_quant, ac_quant),
                        first_coeff(plane),
                        complexity,
                    ),
                    flat_table(old(self).token_probs),
                ),
            ),
            has_coeffs == has_levels(levels(block@, plane, dc_quant, ac_quant)),
    {
        let (events, has_coeffs) = tokenize_block(block, plane, complexity, dc_quant, ac_quant);
        let ghost start = *self;
        let ghost p = partition_index as int;
        let ghost c = self.partitions@[p]@;
        let ghost probs = flat_table(self.token_probs);
        let ghost all = events@;
        proof {
            lemma_block_events_valid(
                levels(block@, plane, dc_quant, ac_quant),
                first_coeff(plane),
                complexity,
            );
            assert(all.take(0) =~= Seq::<TokenEvent>::empty());
            assert(c.write_all(Seq::<(bool, u8)>::empty()) == c);
        }
        let mut i: usize = 0;
        while i < events.len()
            invariant
                i <= events@.len(),
                all == events@,
                forall|k: int| 0 <= k < all.len() ==> valid_event(#[trigger] all[k]),
                *self == (Vp8Encoder { partitions: self.partitions, ..start }),
                p == partition_index,
                0 <= p < start.partitions@.len(),
                self.partitions@ == start.partitions@.update(p, self.partitions@[p]),
                self.partitions@[p].wf(),
                probs == flat_table(start.token_probs),
                self.partitions@[p]@ == c.write_all(
                    events_bits(plane, all.take(i as int), probs),
                ),
            decreases events@.len() - i,
        {
            proof {
                assert(all.take(i + 1).drop_last() =~= all.take(i as int));
                assert(all.take(i + 1).last() == all[i as int]);
                lemma_write_all_concat(
                    c,
                    events_bits(plane, all.take(i as int), probs),
                    event_bits(plane, all[i as int], probs),
                );
            }
            write_event(
                &mut self.partitions[partition_index],
                &self.token_probs,
                plane,
                &events[i],
            );
            i = i + 1;
        }
        assert(all.take(i as int) =~= all);
        has_coeffs
    }

    /// Writes the coefficients of a macroblock, and leaves its contexts for
    /// the macroblocks that follow.
    pub fn encode_residual_data(
        &mut self,
        macroblock_info: &MacroblockInfo,
        partition_index: usize,
        mbx: usize,
        y_block_data: &[i32; 256],
        u_block_data: &[i32; 64],
        v_block_data: &[i32; 64],
    )
        requires
            macroblock_info.wf(),
            partition_index < old(self).partitions@.len(),
            old(self).partitions@[partition_index as int].wf(),
            mbx < old(self).top_complexity@.len(),
            old(self).left_complexity@.wf(),
            old(self).top_complexity@[mbx as int]@.wf(),
            segment_for(old(self).segments@, macroblock_info.segment_id).wf(),
            residual_codable(
                macroblock_info.luma_mode,
                segment_for(old(self).segments@, macroblock_info.segment_id),
                (Coeffs { y: y_block_data@, u: u_block_data@, v: v_block_data@ }),
            ),
        ensures
            *final(self) == (Vp8Encoder {
                partitions: final(self).partitions,
                left_complexity: final(self).left_complexity,
                top_complexity: final(self).top_complexity,
                ..*old(self)
            }),
            final(self).partitions@ == old(self).partitions@.update(
                partition_index as int,
                final(self).partitions@[partition_index as int],
            ),
            final(self).partitions@[partition_index as int].wf(),
            ({
                let segment = segment_for(old(self).segments@, macroblock_info.segment_id);
                let c = Coeffs { y: y_block_data@, u: u_block_data@, v: v_block_data@ };
                let left = old(self).left_complexity@;
                let top = old(self).top_complexity@[mbx as int]@;
                let mode = macroblock_info.luma_mode;
                &&& final(self).partitions@[partition_index as int]@
                    == old(self).partitions@[partition_index as int]@.write_all(
                    jobs_bits(
                        residual_jobs(mode, segment, c, left, top),
                        flat_table(old(self).token_probs),
                    ),
                )
                &&& final(self).left_complexity@ == left_after(mode, segment, c, left)
                &&& final(self).top_complexity@ == old(self).top_complexity@.update(
                    mbx as int,
                    final(self).top_complexity@[mbx as int],
                )
                &&& final(self).top_complexity@[mbx as int]@ == top_after(mode, segment, c, top)
                &&& final(self).left_complexity@.wf()
                &&& final(self).top_complexity@[mbx as int]@.wf()
            }),
    {
        let segment = self.segment_of(macroblock_info.segment_id);
        let mut left = self.left_complexity;
        let mut top = self.top_complexity[mbx];
        let ghost c = Coeffs { y: y_block_data@, u: u_block_data@, v: v_block_data@ };
        let ghost jobs = residual_jobs(macroblock_info.luma_mode, segment, c, left@, top@);
        proof {
            lemma_residual_jobs_valid(macroblock_info.luma_mode, segment, c, left@, top@);
        }
        let blocks = residual_blocks(
            macroblock_info.luma_mode,
            &segment,
            y_block_data,
            u_block_data,
            v_block_data,
            &mut left,
            &mut top,
        );
        self.left_complexity = left;
        self.top_complexity[mbx] = top;
        let ghost start = *self;
        let ghost p = partition_index as int;
        let ghost coder = self.partitions@[p]@;
        let ghost probs = flat_table(self.token_probs);
        proof {
            assert(jobs.take(0) =~= Seq::<Job>::empty());
            assert(coder.write_all(Seq::<(bool, u8)>::empty()) == coder);
        }
        let mut i: usize = 0;
        while i < blocks.len()
            invariant
                i <= blocks@.len(),
                jobs_of(blocks@) == jobs,
                positive_steps(blocks@),
                forall|k: int| 0 <= k < jobs.len() ==> valid_job(#[trigger] jobs[k]),
                *self == (Vp8Encoder { partitions: self.partitions, ..start }),
                p == partition_index,
                0 <= p < start.partitions@.len(),
                self.partitions@ == start.partitions@.update(p, self.partitions@[p]),
                self.partitions@[p].wf(),
                probs == flat_table(start.token_probs),
                self.partitions@[p]@ == coder.write_all(jobs_bits(jobs.take(i as int), probs)),
            decreases blocks@.len() - i,
        {
            let b = &blocks[i];
            proof {
                assert(jobs_of(blocks@)[i as int] == blocks@[i as int]@);
                assert(valid_job(jobs[i as int]));
                assert(jobs.take(i + 1).drop_last() =~= jobs.take(i as int));
                assert(jobs.take(i + 1).last() == jobs[i as int]);
                lemma_write_all_concat(
                    coder,
                    jobs_bits(jobs.take(i as int), probs),
                    events_bits(jobs[i as int].plane, job_events(jobs[i as int]), probs),
                );
            }
            self.encode_coefficients(
                &b.block,
                partition_index,
                b.plane,
                b.complexity,
                b.dc_quant,
                b.ac_quant,
            );
            i = i + 1;
        }
        assert(jobs.take(i as int) =~= jobs);
    }

    /// Counts the token branches of a macroblock, and leaves its contexts for
    /// the macroblocks that follow, as coding it does.
    pub fn accumulate_residual_token_counts(
        &mut self,
        macroblock_info: &MacroblockInfo,
        mbx: usize,
        y_block_data: &[i32; 256],
        u_block_data: &[i32; 64],
        v_block_data: &[i32; 64],
        counts: &mut TokenCounts,
    )
        requires
            macroblock_info.wf(),
            mbx < old(self).top_complexity@.len(),
            old(self).left_complexity@.wf(),
            old(self).top_complexity@[mbx as int]@.wf(),
            segment_for(old(self).segments@, macroblock_info.segment_id).wf(),
            residual_codable(
                macroblock_info.luma_mode,
                segment_for(old(self).segments@, macroblock_info.segment_id),
                (Coeffs { y: y_block_data@, u: u_block_data@, v: v_block_data@ }),
            ),
            has_room(
                old(counts)@,
                jobs_branches(
                    residual_jobs(
                        macroblock_info.luma_mode,
                        segment_for(old(self).segments@, macroblock_info.segment_id),
                        (Coeffs { y: y_block_data@, u: u_block_data@, v: v_block_data@ }),
                        old(self).left_complexity@,
                        old(self).top_complexity@[mbx as int]@,
                    ),
                ).len(),
            ),
        ensures
            *final(self) == (Vp8Encoder {
                left_complexity: final(self).left_complexity,
                top_complexity: final(self).top_complexity,
                ..*old(self)
            }),
            ({
                let segment = segment_for(old(self).segments@, macroblock_info.segment_id);
                let c = Coeffs { y: y_block_data@, u: u_block_data@, v: v_block_data@ };
                let left = old(self).left_complexity@;
                let top = old(self).top_complexity@[mbx as int]@;
                let mode = macroblock_info.luma_mode;
                &&& final(counts)@ == tallied(
                    old(counts)@,
                    jobs_branches(residual_jobs(mode, segment, c, left, top)),
                )
                &&& final(self).left_complexity@ == left_after(mode, segment, c, left)
                &&& final(self).top_complexity@ == old(self).top_complexity@.update(
                    mbx as int,
                    final(self).top_complexity@[mbx as int],
                )
                &&& final(self).top_complexity@[mbx as int]@ == top_after(mode, segment, c, top)
                &&& final(self).left_complexity@.wf()
                &&& final(self).top_complexity@[mbx as int]@.wf()
            }),
    {
        let segment = self.segment_of(macroblock_info.segment_id);
        let mut left = self.left_complexity;
        let mut top = self.top_complexity[mbx];
        let ghost c = Coeffs { y: y_block_data@, u: u_block_data@, v: v_block_data@ };
        let ghost jobs = residual_jobs(macroblock_info.luma_mode, segment, c, left@, top@);
        proof {
            lemma_residual_jobs_valid(macroblock_info.luma_mode, segment, c, left@, top@);
        }
        let blocks = residual_blocks(
            macroblock_info.luma_mode,
            &segment,
            y_block_data,
            u_block_data,
            v_block_data,
            &mut left,
            &mut top,
        );
        self.left_complexity = left;
        self.top_complexity[mbx] = top;
        let ghost counts0 = counts@;
        proof {
            assert(jobs.take(0) =~= Seq::<Job>::empty());
            assert(tallied(counts0, Seq::<(int, bool)>::empty()) =~= counts0);
        }
        let mut i: usize = 0;
        while i < blocks.len()
            invariant
                i <= blocks@.len(),
                jobs_of(blocks@) == jobs,
                positive_steps(blocks@),
                forall|k: int| 0 <= k < jobs.len() ==> valid_job(#[trigger] jobs[k]),
                has_room(counts0, jobs_branches(jobs).len()),
                counts@ == tallied(counts0, jobs_branches(jobs.take(i as int))),
            decreases blocks@.len() - i,
        {
            let b = &blocks[i];
            let ghost job = jobs[i as int];
            let ghost done = jobs_branches(jobs.take(i as int));
            let ghost next = events_branches(job.plane, job_events(job));
            proof {
                assert(jobs_of(blocks@)[i as int] == blocks@[i as int]@);
                assert(valid_job(job));
                assert(jobs.take(i + 1).drop_last() =~= jobs.take(i as int));
                assert(jobs.take(i + 1).last() == job);
                lemma_block_events_valid(job.z, first_coeff(job.plane), job.context);
                lemma_jobs_branches_prefix(jobs, i + 1);
                assert forall|n: int| 0 <= n < counts0.len() implies #[trigger] counts0[n] + (
                done.len() + next.len()) <= u64::MAX by {
                    assert(counts0[n] + jobs_branches(jobs).len() <= u64::MAX);
                }
                lemma_tallied_concat(counts0, done, next);
            }
            let (events, _has_coeffs) = tokenize_block(
                &b.block,
                b.plane,
                b.complexity,
                b.dc_quant,
                b.ac_quant,
            );
            accumulate_token_events(counts, b.plane, &events);
            i = i + 1;
        }
        assert(jobs.take(i as int) =~= jobs);
    }
}

} // verus!
