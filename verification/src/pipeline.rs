//! The passes over the macroblocks of a frame.
use vstd::prelude::*;

use crate::common::{IntraMode, LumaMode};
use crate::encoder::{Complexity, Contexts, MacroblockInfo, Vp8Encoder};
use crate::model::{
    chroma_coeffs, has_nonzero_dct, luma_coeffs, painted, predicted_chroma, predicted_luma,
    restored_subblocks, segment_for, sub_coeffs, Canvas, Decision, Scene,
};
use crate::passes::{
    coeffs_at, contexts_step, decision_at, decisions, frame_branches, jobs_at, lemma_replay_prefix,
    replay, row_contexts, row_modes, skipped_count, surroundings, walk_step, Surroundings, Walk,
};
use crate::reconstruct::{
    lemma_chroma_blocks_bound, lemma_luma_blocks_bound, lemma_sub_coeffs_bound,
};
use crate::residual::{
    jobs_branches, lemma_jobs_branches_len, lemma_residual_codable, lemma_residual_jobs_valid,
    residual_codable, Coeffs,
};
use crate::segments::lemma_macroblock_position;
use crate::tokens::{lemma_tallied_bound, lemma_tallied_concat, no_counts, tallied, TokenCounts};

verus! {

impl Vp8Encoder {
    /// State of the pass over the macroblocks.
    pub open spec fn walk(&self) -> Walk {
        Walk { canvas: self.canvas(), modes: self.modes() }
    }

    /// Coefficient contexts next to the current macroblock.
    pub open spec fn around(&self) -> Surroundings {
        Surroundings {
            left: self.left_complexity@,
            top: Seq::new(self.top_complexity@.len(), |i: int| self.top_complexity@[i]@),
        }
    }

    /// Number of macroblocks of the frame.
    pub open spec fn count(&self) -> int {
        self.macroblock_width * self.macroblock_height
    }

    /// Every macroblock has a decision.
    pub open spec fn has_decisions(&self) -> bool {
        &&& self.mb_info_cache@.len() == self.count()
        &&& forall|i: int|
            0 <= i < self.mb_info_cache@.len() ==> {
                &&& (#[trigger] self.mb_info_cache@[i]) is Some
                &&& self.mb_info_cache@[i].unwrap().wf()
                &&& self.mb_info_cache@[i].unwrap().segment_id is Some
            }
    }

    /// The decisions.
    pub open spec fn cached(&self) -> Seq<Decision> {
        Seq::new(self.mb_info_cache@.len(), |i: int| self.mb_info_cache@[i].unwrap()@)
    }

    /// Reconstructs a macroblock in the frame. Returns its coefficients and
    /// whether any of them is not zero once quantised.
    pub fn reconstruct_macroblock(&mut self, mbx: usize, mby: usize, info: &MacroblockInfo) -> (r: (
        [i32; 256],
        [i32; 64],
        [i32; 64],
        bool,
    ))
        requires
            old(self).in_frame(),
            old(self).has_macroblock(mbx as int, mby as int),
            info.wf(),
        ensures
            *final(self) == (Vp8Encoder {
                recon_y: final(self).recon_y,
                recon_u: final(self).recon_u,
                recon_v: final(self).recon_v,
                ..*old(self)
            }),
            final(self).canvas() == painted(
                old(self).scene(),
                old(self).canvas(),
                info@,
                mbx as int,
                mby as int,
            ),
            final(self).in_frame(),
            ({
                let (scene, canvas) = (old(self).scene(), old(self).canvas());
                &&& r.0@ == luma_coeffs(scene, canvas, info@, mbx as int, mby as int)
                &&& r.1@ == chroma_coeffs(
                    scene,
                    scene.ubuf,
                    canvas.u,
                    info@,
                    mbx as int,
                    mby as int,
                )
                &&& r.2@ == chroma_coeffs(
                    scene,
                    scene.vbuf,
                    canvas.v,
                    info@,
                    mbx as int,
                    mby as int,
                )
                &&& r.3 == has_nonzero_dct(scene, canvas, info@, mbx as int, mby as int)
            }),
    {
        let ghost scene = self.scene();
        let ghost canvas = self.canvas();
        let ghost target = painted(scene, canvas, info@, mbx as int, mby as int);
        proof {
            reveal(painted);
            reveal(has_nonzero_dct);
        }
        let (y, luma_nonzero) = self.transform_luma_block(mbx, mby, info);
        assert(self.scene() == scene);
        assert(self.canvas().y == target.y);
        assert(target.y.len() == canvas.y.len());
        let (u, v, chroma_nonzero) = self.transform_chroma_blocks(mbx, mby, info);
        assert(self.scene() == scene);
        assert(self.canvas() =~= target);
        (y, u, v, luma_nonzero || chroma_nonzero)
    }

    /// Decides the modes of every macroblock, each from the reconstruction of
    /// those before it. Returns how many can be skipped, and how many there
    /// are.
    pub fn count_skipped_macroblocks(&mut self) -> (r: (u32, u32))
        requires
            old(self).in_frame(),
            old(self).mb_info_cache@.len() == old(self).count(),
        ensures
            *final(self) == (Vp8Encoder {
                left_complexity: final(self).left_complexity,
                top_b_pred: final(self).top_b_pred,
                left_b_pred: final(self).left_b_pred,
                recon_y: final(self).recon_y,
                recon_u: final(self).recon_u,
                recon_v: final(self).recon_v,
                mb_info_cache: final(self).mb_info_cache,
                ..*old(self)
            }),
            final(self).in_frame(),
            final(self).has_decisions(),
            final(self).left_complexity@ == if old(self).count() > 0 {
                Contexts::zero()
            } else {
                old(self).left_complexity@
            },
            ({
                let (scene, start, n) = (old(self).scene(), old(self).walk(), old(self).count());
                let ds = decisions(scene, start, n);
                &&& final(self).cached() == ds
                &&& final(self).walk() == replay(scene, start, ds, n)
                &&& r.0 == skipped_count(ds)
                &&& r.1 == n
            }),
            r.0 <= r.1,
    {
        let ghost first = *self;
        let ghost scene = self.scene();
        let ghost start = self.walk();
        let mbw: usize = self.macroblock_width as usize;
        let n: usize = self.mb_info_cache.len();
        let mut total: u32 = 0;
        let mut skipped: u32 = 0;
        let mut i: usize = 0;
        proof {
            lemma_frame_count(scene.mbw, scene.mbh);
        }
        while i < n
            invariant
                i <= n,
                n == first.count() <= 0x100_0000,
                mbw == scene.mbw,
                scene == first.scene(),
                start == first.walk(),
                *self == (Vp8Encoder {
                    left_complexity: self.left_complexity,
                    top_b_pred: self.top_b_pred,
                    left_b_pred: self.left_b_pred,
                    recon_y: self.recon_y,
                    recon_u: self.recon_u,
                    recon_v: self.recon_v,
                    mb_info_cache: self.mb_info_cache,
                    ..first
                }),
                self.in_frame(),
                self.mb_info_cache@.len() == n,
                i > 0 ==> self.left_complexity@ == Contexts::zero(),
                i == 0 ==> self.left_complexity == first.left_complexity,
                decisions(scene, start, i as int).len() == i,
                self.walk() == replay(scene, start, decisions(scene, start, i as int), i as int),
                forall|j: int|
                    0 <= j < i ==> {
                        &&& (#[trigger] self.mb_info_cache@[j]) is Some
                        &&& self.mb_info_cache@[j].unwrap().wf()
                        &&& self.mb_info_cache@[j].unwrap().segment_id is Some
                        &&& self.mb_info_cache@[j].unwrap()@ == decisions(
                            scene,
                            start,
                            i as int,
                        )[j]
                    },
                total == i,
                skipped == skipped_count(decisions(scene, start, i as int)),
                skipped <= total,
            decreases n - i,
        {
            proof {
                lemma_macroblock_position(i as int, scene.mbw, scene.mbh);
            }
            let ghost ds = decisions(scene, start, i as int);
            let ghost w = self.walk();
            let mbx: usize = i % mbw;
            let mby: usize = i / mbw;
            if mbx == 0 {
                self.left_complexity = Complexity::none();
                self.left_b_pred = [IntraMode::DC;4];
            }
            assert(self.modes() =~= row_modes(w.modes, mbx as int));
            assert(self.canvas() == w.canvas);
            assert(self.scene() == scene);
            let info = self.choose_macroblock_info(mbx, mby);
            let ghost d = decision_at(scene, w, i as int);
            assert(info@ == d);
            self.advance_bpred_context(&info, mbx);
            assert(self.scene() == scene);
            let _ = self.reconstruct_macroblock(mbx, mby, &info);
            assert(self.walk() =~= walk_step(scene, w, d, i as int));
            self.mb_info_cache[i] = Some(info);
            total = total + 1;
            if info.coeffs_skipped {
                skipped = skipped + 1;
            }
            proof {
                let next = decisions(scene, start, i + 1);
                assert(next == ds.push(d));
                assert(next.drop_last() =~= ds);
                lemma_replay_prefix(scene, start, ds, next, i as int);
            }
            i = i + 1;
        }
        assert(self.cached() =~= decisions(scene, start, n as int));
        (skipped, total)
    }
}

impl Vp8Encoder {
    /// Leaves the contexts that a macroblock without coefficients leaves.
    pub fn clear_contexts(&mut self, info: &MacroblockInfo, mbx: usize)
        requires
            old(self).has_contexts(),
            mbx < old(self).top_complexity@.len(),
        ensures
            *final(self) == (Vp8Encoder {
                left_complexity: final(self).left_complexity,
                top_complexity: final(self).top_complexity,
                ..*old(self)
            }),
            final(self).has_contexts(),
            final(self).around() == (Surroundings {
                left: old(self).around().left.cleared(info.luma_mode != LumaMode::B),
                top: old(self).around().top.update(
                    mbx as int,
                    old(self).around().top[mbx as int].cleared(info.luma_mode != LumaMode::B),
                ),
            }),
    {
        let ghost before = self.around();
        let ghost tops = self.top_complexity@;
        let include_y2 = info.luma_mode != LumaMode::B;
        let mut left = self.left_complexity;
        left.clear(include_y2);
        self.left_complexity = left;
        let mut top = self.top_complexity[mbx];
        assert(tops[mbx as int]@.wf());
        top.clear(include_y2);
        self.top_complexity[mbx] = top;
        proof {
            assert(self.around().top =~= before.top.update(
                mbx as int,
                before.top[mbx as int].cleared(include_y2),
            ));
            assert forall|i: int| 0 <= i < self.top_complexity@.len() implies (
            #[trigger] self.top_complexity@[i])@.wf() by {
                if i != mbx {
                    assert(self.top_complexity@[i] == tops[i]);
                }
            }
        }
    }

    /// Counts how often each branch of the token tree is taken when the
    /// coefficients of the frame are coded.
    pub fn collect_token_counts(&mut self) -> (counts: TokenCounts)
        requires
            old(self).in_frame(),
            old(self).has_contexts(),
            old(self).has_decisions(),
        ensures
            *final(self) == (Vp8Encoder {
                left_complexity: final(self).left_complexity,
                top_complexity: final(self).top_complexity,
                top_b_pred: final(self).top_b_pred,
                left_b_pred: final(self).left_b_pred,
                recon_y: final(self).recon_y,
                recon_u: final(self).recon_u,
                recon_v: final(self).recon_v,
                ..*old(self)
            }),
            final(self).in_frame(),
            final(self).has_contexts(),
            ({
                let (scene, start, n) = (old(self).scene(), old(self).walk(), old(self).count());
                let (first, ds) = (old(self).around(), old(self).cached());
                &&& counts@ == tallied(
                    no_counts(),
                    frame_branches(scene, start, first, ds, n),
                )
                &&& final(self).walk() == replay(scene, start, ds, n)
                &&& final(self).around() == surroundings(scene, start, first, ds, n)
            }),
            forall|n: int| 0 <= n < 2112 ==> #[trigger] counts@[n] <= 0x40_0000_0000,
    {
        let ghost initial = *self;
        let ghost scene = self.scene();
        let ghost start = self.walk();
        let ghost first = self.around();
        let ghost ds = self.cached();
        let mbw: usize = self.macroblock_width as usize;
        let n: usize = self.mb_info_cache.len();
        let mut counts: TokenCounts = [0u64; 2112];
        let mut i: usize = 0;
        proof {
            lemma_frame_count(scene.mbw, scene.mbh);
            assert(counts@ =~= tallied(no_counts(), Seq::<(int, bool)>::empty()));
        }
        while i < n
            invariant
                i <= n,
                n == initial.count() <= 0x100_0000,
                mbw == scene.mbw,
                scene == initial.scene(),
                start == initial.walk(),
                first == initial.around(),
                ds == initial.cached(),
                initial.has_decisions(),
                *self == (Vp8Encoder {
                    left_complexity: self.left_complexity,
                    top_complexity: self.top_complexity,
                    top_b_pred: self.top_b_pred,
                    left_b_pred: self.left_b_pred,
                    recon_y: self.recon_y,
                    recon_u: self.recon_u,
                    recon_v: self.recon_v,
                    ..initial
                }),
                self.in_frame(),
                self.has_contexts(),
                self.walk() == replay(scene, start, ds, i as int),
                self.around() == surroundings(scene, start, first, ds, i as int),
                counts@ == tallied(
                    no_counts(),
                    frame_branches(scene, start, first, ds, i as int),
                ),
                frame_branches(scene, start, first, ds, i as int).len() <= 8800 * i,
            decreases n - i,
        {
            proof {
                lemma_macroblock_position(i as int, scene.mbw, scene.mbh);
                assert(initial.mb_info_cache@[i as int] is Some);
            }
            let ghost w = self.walk();
            let ghost around = self.around();
            let ghost done = frame_branches(scene, start, first, ds, i as int);
            let mbx: usize = i % mbw;
            let mby: usize = i / mbw;
            if mbx == 0 {
                self.left_complexity = Complexity::none();
                self.left_b_pred = [IntraMode::DC;4];
            }
            let ghost seen = row_contexts(around, mbx as int);
            assert(self.around() =~= seen);
            assert(self.modes() =~= row_modes(w.modes, mbx as int));
            let info: MacroblockInfo = self.mb_info_cache[i].unwrap();
            let ghost d = ds[i as int];
            assert(info@ == d);
            self.advance_bpred_context(&info, mbx);
            assert(self.scene() == scene);
            assert(self.canvas() == w.canvas);
            let (y_block_data, u_block_data, v_block_data, _nonzero) =
                self.reconstruct_macroblock(mbx, mby, &info);
            assert(self.walk() =~= walk_step(scene, w, d, i as int));
            let ghost c = coeffs_at(scene, start, ds, i as int);
            assert(c == (Coeffs { y: y_block_data@, u: u_block_data@, v: v_block_data@ }));
            let ghost jobs = jobs_at(scene, start, first, ds, i as int);
            assert(self.around() =~= seen);
            if info.coeffs_skipped {
                self.clear_contexts(&info, mbx);
                proof {
                    assert(jobs_branches(jobs) =~= Seq::<(int, bool)>::empty());
                    assert(done + jobs_branches(jobs) =~= done);
                }
            } else {
                let ghost segment = segment_for(scene.segments, d.segment_id);
                let ghost tops = self.top_complexity@;
                proof {
                    lemma_coeffs_codable(scene, w.canvas, d, mbx as int, mby as int);
                    assert(tops[mbx as int]@.wf());
                    assert(seen.top[mbx as int] == tops[mbx as int]@);
                    lemma_residual_jobs_valid(
                        d.luma_mode,
                        segment,
                        c,
                        seen.left,
                        seen.top[mbx as int],
                    );
                    lemma_jobs_branches_len(jobs);
                    lemma_tallied_bound(done + jobs_branches(jobs));
                    lemma_tallied_concat(no_counts(), done, jobs_branches(jobs));
                }
                self.accumulate_residual_token_counts(
                    &info,
                    mbx,
                    &y_block_data,
                    &u_block_data,
                    &v_block_data,
                    &mut counts,
                );
                proof {
                    lemma_top_updated(tops, self.top_complexity@, mbx as int);
                }
            }
            assert(self.around() =~= contexts_step(seen, scene.segments, d, c, mbx as int));
            i = i + 1;
        }
        proof {
            lemma_tallied_bound(frame_branches(scene, start, first, ds, n as int));
        }
        counts
    }
}

/// Replacing one context keeps the others.
pub proof fn lemma_top_updated(before: Seq<Complexity>, after: Seq<Complexity>, mbx: int)
    requires
        0 <= mbx < before.len(),
        after == before.update(mbx, after[mbx]),
        forall|i: int| 0 <= i < before.len() ==> (#[trigger] before[i])@.wf(),
        after[mbx]@.wf(),
    ensures
        forall|i: int| 0 <= i < after.len() ==> (#[trigger] after[i])@.wf(),
        Seq::new(after.len(), |i: int| after[i]@) == Seq::new(
            before.len(),
            |i: int| before[i]@,
        ).update(mbx, after[mbx]@),
{
    assert forall|i: int| 0 <= i < after.len() implies (#[trigger] after[i])@.wf() by {
        if i != mbx {
            assert(after[i] == before[i]);
        }
    }
    assert(Seq::new(after.len(), |i: int| after[i]@) =~= Seq::new(
        before.len(),
        |i: int| before[i]@,
    ).update(mbx, after[mbx]@));
}

/// The coefficients of a macroblock can be coded.
pub proof fn lemma_coeffs_codable(scene: Scene, canvas: Canvas, d: Decision, mbx: int, mby: int)
    requires
        scene.wf(),
        d.wf(),
    ensures
        residual_codable(
            d.luma_mode,
            segment_for(scene.segments, d.segment_id),
            (Coeffs {
                y: luma_coeffs(scene, canvas, d, mbx, mby),
                u: chroma_coeffs(scene, scene.ubuf, canvas.u, d, mbx, mby),
                v: chroma_coeffs(scene, scene.vbuf, canvas.v, d, mbx, mby),
            }),
        ),
        segment_for(scene.segments, d.segment_id).wf(),
{
    reveal(luma_coeffs);
    reveal(chroma_coeffs);
    let segment = segment_for(scene.segments, d.segment_id);
    assert(segment.wf());
    let c = Coeffs {
        y: luma_coeffs(scene, canvas, d, mbx, mby),
        u: chroma_coeffs(scene, scene.ubuf, canvas.u, d, mbx, mby),
        v: chroma_coeffs(scene, scene.vbuf, canvas.v, d, mbx, mby),
    };
    if d.luma_mode == LumaMode::B {
        let modes = d.luma_bpred.unwrap();
        assert forall|n: int| 0 <= n < 256 implies -2040 <= #[trigger] c.y[n] <= 2040 by {
            let ws = restored_subblocks(
                scene,
                canvas,
                modes,
                segment,
                mbx,
                mby,
                n / 16,
            );
            lemma_sub_coeffs_bound(scene, ws, modes[n / 16], mbx, mby, n / 16);
            assert(-2040 <= sub_coeffs(scene, ws, modes[n / 16], mbx, mby, n / 16)[n % 16] <= 2040);
        }
    } else {
        lemma_luma_blocks_bound(
            scene,
            predicted_luma(scene, canvas, d.luma_mode, mbx, mby),
            mbx,
            mby,
        );
    }
    lemma_chroma_blocks_bound(
        scene.mbw,
        scene.ubuf,
        predicted_chroma(scene, canvas.u, d.chroma_mode, mbx, mby),
        mbx,
        mby,
    );
    lemma_chroma_blocks_bound(
        scene.mbw,
        scene.vbuf,
        predicted_chroma(scene, canvas.v, d.chroma_mode, mbx, mby),
        mbx,
        mby,
    );
    lemma_residual_codable(d.luma_mode, segment, c);
}

/// A frame has at most 2^24 macroblocks.
pub proof fn lemma_frame_count(mbw: int, mbh: int)
    requires
        0 <= mbw <= 4095,
        0 <= mbh <= 4096,
    ensures
        0 <= mbw * mbh <= 0x100_0000,
{
    assert(0 <= mbw * mbh <= 0x100_0000) by (nonlinear_arith)
        requires
            0 <= mbw <= 4095,
            0 <= mbh <= 4096,
    ;
}

} // verus!
