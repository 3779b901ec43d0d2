//! The pass that writes the macroblocks of a frame.
use vstd::prelude::*;

use crate::arithmetic_encoder::{lemma_write_all_concat, ArithmeticEncoder, Coder};
use crate::common::{flat_table, IntraMode};
use crate::encoder::{Complexity, MacroblockInfo, Vp8Encoder};
use crate::header::macroblock_header_bits;
use crate::model::{chroma_coeffs, has_nonzero_dct, luma_coeffs, segment_for, Decision};
use crate::passes::{
    completed, contexts_step, frame_mode_bits, frame_partitions, replay, row_contexts, row_modes,
    surroundings, walk_step,
};
use crate::pipeline::{lemma_coeffs_codable, lemma_frame_count, lemma_top_updated};
use crate::residual::{jobs_bits, residual_codable, residual_jobs, Coeffs, Job};
use crate::segments::lemma_macroblock_position;

verus! {

/// Replacing one coder keeps the others.
proof fn lemma_coder_updated(before: Seq<ArithmeticEncoder>, after: Seq<ArithmeticEncoder>, p: int)
    requires
        0 <= p < before.len(),
        after == before.update(p, after[p]),
        forall|i: int| 0 <= i < before.len() ==> (#[trigger] before[i]).wf(),
        after[p].wf(),
    ensures
        forall|i: int| 0 <= i < after.len() ==> (#[trigger] after[i]).wf(),
        Seq::new(after.len(), |i: int| after[i]@) == Seq::new(
            before.len(),
            |i: int| before[i]@,
        ).update(p, after[p]@),
{
    assert forall|i: int| 0 <= i < after.len() implies (#[trigger] after[i]).wf() by {
        if i != p {
            assert(after[i] == before[i]);
        }
    }
    assert(Seq::new(after.len(), |i: int| after[i]@) =~= Seq::new(
        before.len(),
        |i: int| before[i]@,
    ).update(p, after[p]@));
}

impl Vp8Encoder {
    /// The partitions.
    pub open spec fn coders(&self) -> Seq<Coder> {
        Seq::new(self.partitions@.len(), |i: int| self.partitions@[i]@)
    }

    /// Writes the coefficients of a macroblock that is not skipped, or leaves
    /// the contexts of one that is.
    fn encode_macroblock_residual(
        &mut self,
        info: &MacroblockInfo,
        partition_index: usize,
        mbx: usize,
        y_block_data: &[i32; 256],
        u_block_data: &[i32; 64],
        v_block_data: &[i32; 64],
        Ghost(jobs): Ghost<Seq<Job>>,
    )
        requires
            info.wf(),
            old(self).has_contexts(),
            old(self).has_coders(),
            partition_index < old(self).partitions@.len(),
            mbx < old(self).top_complexity@.len(),
            segment_for(old(self).segments@, info.segment_id).wf(),
            residual_codable(
                info.luma_mode,
                segment_for(old(self).segments@, info.segment_id),
                (Coeffs { y: y_block_data@, u: u_block_data@, v: v_block_data@ }),
            ),
            jobs == if info.coeffs_skipped {
                Seq::empty()
            } else {
                residual_jobs(
                    info.luma_mode,
                    segment_for(old(self).segments@, info.segment_id),
                    (Coeffs { y: y_block_data@, u: u_block_data@, v: v_block_data@ }),
                    old(self).around().left,
                    old(self).around().top[mbx as int],
                )
            },
        ensures
            *final(self) == (Vp8Encoder {
                partitions: final(self).partitions,
                left_complexity: final(self).left_complexity,
                top_complexity: final(self).top_complexity,
                ..*old(self)
            }),
            final(self).has_contexts(),
            final(self).has_coders(),
            final(self).partitions@.len() == old(self).partitions@.len(),
            final(self).around() == contexts_step(
                old(self).around(),
                old(self).segments@,
                info@,
                (Coeffs { y: y_block_data@, u: u_block_data@, v: v_block_data@ }),
                mbx as int,
            ),
            final(self).coders() == old(self).coders().update(
                partition_index as int,
                old(self).coders()[partition_index as int].write_all(
                    jobs_bits(jobs, flat_table(old(self).token_probs)),
                ),
            ),
    {
        let ghost coders = self.coders();
        let ghost around = self.around();
        let ghost c = Coeffs { y: y_block_data@, u: u_block_data@, v: v_block_data@ };
        let ghost p = partition_index as int;
        if info.coeffs_skipped {
            self.clear_contexts(info, mbx);
            proof {
                assert(coders[p].write_all(Seq::<(bool, u8)>::empty()) == coders[p]);
                assert(self.coders() =~= coders.update(p, coders[p]));
            }
        } else {
            let ghost tops = self.top_complexity@;
            let ghost parts = self.partitions@;
            assert(tops[mbx as int]@.wf());
            assert(parts[p].wf());
            assert(around.top[mbx as int] == tops[mbx as int]@);
            self.encode_residual_data(
                info,
                partition_index,
                mbx,
                y_block_data,
                u_block_data,
                v_block_data,
            );
            proof {
                lemma_top_updated(tops, self.top_complexity@, mbx as int);
                lemma_coder_updated(parts, self.partitions@, p);
            }
        }
        assert(self.around() =~= contexts_step(around, self.segments@, info@, c, mbx as int));
    }

    /// Writes macroblock `i`: its header, and its coefficients unless it is
    /// skipped. It is reconstructed once more, and what that finds out is added
    /// to its decision.
    fn encode_macroblock(&mut self, i: usize, partition_index: usize)
        requires
            old(self).in_frame(),
            old(self).has_contexts(),
            old(self).has_coders(),
            partition_index < old(self).partitions@.len(),
            i < old(self).count() == old(self).mb_info_cache@.len(),
            old(self).mb_info_cache@[i as int] is Some,
            old(self).mb_info_cache@[i as int].unwrap().wf(),
            old(self).mb_info_cache@[i as int].unwrap().segment_id is Some,
        ensures
            *final(self) == (Vp8Encoder {
                encoder: final(self).encoder,
                partitions: final(self).partitions,
                left_complexity: final(self).left_complexity,
                top_complexity: final(self).top_complexity,
                top_b_pred: final(self).top_b_pred,
                left_b_pred: final(self).left_b_pred,
                recon_y: final(self).recon_y,
                recon_u: final(self).recon_u,
                recon_v: final(self).recon_v,
                mb_info_cache: final(self).mb_info_cache,
                ..*old(self)
            }),
            final(self).in_frame(),
            final(self).has_contexts(),
            final(self).has_coders(),
            final(self).partitions@.len() == old(self).partitions@.len(),
            ({
                let scene = old(self).scene();
                let mbx = i as int % scene.mbw;
                let mby = i as int / scene.mbw;
                let d = old(self).mb_info_cache@[i as int].unwrap()@;
                let p = partition_index as int;
                let c = Coeffs {
                    y: luma_coeffs(scene, old(self).canvas(), d, mbx, mby),
                    u: chroma_coeffs(scene, scene.ubuf, old(self).canvas().u, d, mbx, mby),
                    v: chroma_coeffs(scene, scene.vbuf, old(self).canvas().v, d, mbx, mby),
                };
                let seen = row_contexts(old(self).around(), mbx);
                let jobs = if d.coeffs_skipped {
                    Seq::empty()
                } else {
                    residual_jobs(
                        d.luma_mode,
                        segment_for(scene.segments, d.segment_id),
                        c,
                        seen.left,
                        seen.top[mbx],
                    )
                };
                &&& final(self).walk() == walk_step(scene, old(self).walk(), d, i as int)
                &&& final(self).around() == contexts_step(seen, scene.segments, d, c, mbx)
                &&& final(self).encoder@ == old(self).encoder@.write_all(
                    macroblock_header_bits(
                        old(self).header_params(),
                        row_modes(old(self).modes(), mbx),
                        d,
                        mbx,
                    ),
                )
                &&& final(self).coders() == old(self).coders().update(
                    p,
                    old(self).coders()[p].write_all(
                        jobs_bits(jobs, flat_table(old(self).token_probs)),
                    ),
                )
                &&& final(self).mb_info_cache@ == old(self).mb_info_cache@.update(
                    i as int,
                    final(self).mb_info_cache@[i as int],
                )
                &&& final(self).mb_info_cache@[i as int] is Some
                &&& final(self).mb_info_cache@[i as int].unwrap().wf()
                &&& final(self).mb_info_cache@[i as int].unwrap().segment_id is Some
                &&& final(self).mb_info_cache@[i as int].unwrap()@ == (Decision {
                    non_zero_dct: has_nonzero_dct(scene, old(self).canvas(), d, mbx, mby),
                    ..d
                })
            }),
    {
        let ghost scene = self.scene();
        let ghost w = self.walk();
        let ghost around = self.around();
        let ghost coders = self.coders();
        let ghost cache = self.mb_info_cache@;
        proof {
            lemma_macroblock_position(i as int, scene.mbw, scene.mbh);
        }
        let mbw: usize = self.macroblock_width as usize;
        let mbx: usize = i % mbw;
        let mby: usize = i / mbw;
        if mbx == 0 {
            self.left_complexity = Complexity::none();
            self.left_b_pred = [IntraMode::DC;4];
        }
        let ghost seen = row_contexts(around, mbx as int);
        assert(self.around() =~= seen);
        assert(self.modes() =~= row_modes(w.modes, mbx as int));
        let info: MacroblockInfo = self.mb_info_cache[i].unwrap();
        let ghost d = info@;
        self.write_macroblock_header(&info, mbx);
        assert(self.scene() == scene);
        assert(self.canvas() == w.canvas);
        let (y_block_data, u_block_data, v_block_data, non_zero_dct) = self.reconstruct_macroblock(
            mbx,
            mby,
            &info,
        );
        assert(self.walk() =~= walk_step(scene, w, d, i as int));
        let done = MacroblockInfo { non_zero_dct, ..info };
        self.mb_info_cache[i] = Some(done);
        let ghost c = Coeffs { y: y_block_data@, u: u_block_data@, v: v_block_data@ };
        assert(self.around() =~= seen);
        assert(self.coders() == coders);
        proof {
            lemma_coeffs_codable(scene, w.canvas, d, mbx as int, mby as int);
        }
        let ghost jobs = if d.coeffs_skipped {
            Seq::empty()
        } else {
            residual_jobs(
                d.luma_mode,
                segment_for(scene.segments, d.segment_id),
                c,
                seen.left,
                seen.top[mbx as int],
            )
        };
        self.encode_macroblock_residual(
            &info,
            partition_index,
            mbx,
            &y_block_data,
            &u_block_data,
            &v_block_data,
            Ghost(jobs),
        );
        assert(done@ =~= (Decision {
            non_zero_dct: has_nonzero_dct(scene, w.canvas, d, mbx as int, mby as int),
            ..d
        }));
    }

    /// Writes every macroblock: its header, and its coefficients unless it is
    /// skipped. The macroblocks are reconstructed once more, and what that
    /// finds out is added to their decisions.
    pub fn encode_macroblocks(&mut self)
        requires
            old(self).in_frame(),
            old(self).has_contexts(),
            old(self).has_decisions(),
            old(self).has_coders(),
            old(self).partitions@.len() >= 1,
        ensures
            *final(self) == (Vp8Encoder {
                encoder: final(self).encoder,
                partitions: final(self).partitions,
                left_complexity: final(self).left_complexity,
                top_complexity: final(self).top_complexity,
                top_b_pred: final(self).top_b_pred,
                left_b_pred: final(self).left_b_pred,
                recon_y: final(self).recon_y,
                recon_u: final(self).recon_u,
                recon_v: final(self).recon_v,
                mb_info_cache: final(self).mb_info_cache,
                ..*old(self)
            }),
            final(self).in_frame(),
            final(self).has_contexts(),
            final(self).has_decisions(),
            final(self).has_coders(),
            ({
                let (scene, start, n) = (old(self).scene(), old(self).walk(), old(self).count());
                let (first, ds) = (old(self).around(), old(self).cached());
                &&& final(self).walk() == replay(scene, start, ds, n)
                &&& final(self).around() == surroundings(scene, start, first, ds, n)
                &&& final(self).encoder@ == old(self).encoder@.write_all(
                    frame_mode_bits(old(self).header_params(), scene, start, ds, n),
                )
                &&& final(self).coders() == frame_partitions(
                    scene,
                    start,
                    first,
                    ds,
                    flat_table(old(self).token_probs),
                    old(self).coders(),
                    n,
                )
                &&& final(self).cached() == Seq::new(
                    ds.len(),
                    |j: int| completed(scene, start, ds, j),
                )
            }),
    {
        let ghost initial = *self;
        let ghost scene = self.scene();
        let ghost start = self.walk();
        let ghost first = self.around();
        let ghost ds = self.cached();
        let ghost params = self.header_params();
        let ghost probs = flat_table(self.token_probs);
        let ghost coders0 = self.coders();
        let ghost header0 = self.encoder@;
        let mbw: usize = self.macroblock_width as usize;
        let n: usize = self.mb_info_cache.len();
        let parts: usize = self.partitions.len();
        let mut i: usize = 0;
        proof {
            lemma_frame_count(scene.mbw, scene.mbh);
            assert(header0.write_all(Seq::<(bool, u8)>::empty()) == header0);
        }
        while i < n
            invariant
                i <= n,
                n == initial.count() <= 0x100_0000,
                n == ds.len(),
                mbw == scene.mbw,
                scene == initial.scene(),
                start == initial.walk(),
                first == initial.around(),
                ds == initial.cached(),
                params == initial.header_params(),
                probs == flat_table(initial.token_probs),
                parts == coders0.len() >= 1,
                initial.has_decisions(),
                *self == (Vp8Encoder {
                    encoder: self.encoder,
                    partitions: self.partitions,
                    left_complexity: self.left_complexity,
                    top_complexity: self.top_complexity,
                    top_b_pred: self.top_b_pred,
                    left_b_pred: self.left_b_pred,
                    recon_y: self.recon_y,
                    recon_u: self.recon_u,
                    recon_v: self.recon_v,
                    mb_info_cache: self.mb_info_cache,
                    ..initial
                }),
                self.in_frame(),
                self.has_contexts(),
                self.has_coders(),
                self.partitions@.len() == parts,
                self.walk() == replay(scene, start, ds, i as int),
                self.around() == surroundings(scene, start, first, ds, i as int),
                self.encoder@ == header0.write_all(
                    frame_mode_bits(params, scene, start, ds, i as int),
                ),
                self.coders() == frame_partitions(
                    scene,
                    start,
                    first,
                    ds,
                    probs,
                    coders0,
                    i as int,
                ),
                self.mb_info_cache@.len() == n,
                forall|j: int|
                    i <= j < n ==> #[trigger] self.mb_info_cache@[j] == initial.mb_info_cache@[j],
                forall|j: int|
                    0 <= j < i ==> {
                        &&& (#[trigger] self.mb_info_cache@[j]) is Some
                        &&& self.mb_info_cache@[j].unwrap().wf()
                        &&& self.mb_info_cache@[j].unwrap().segment_id is Some
                        &&& self.mb_info_cache@[j].unwrap()@ == completed(scene, start, ds, j)
                    },
            decreases n - i,
        {
            proof {
                lemma_macroblock_position(i as int, scene.mbw, scene.mbh);
                assert(initial.mb_info_cache@[i as int] is Some);
                assert(self.mb_info_cache@[i as int] == initial.mb_info_cache@[i as int]);
            }
            let mby: usize = i / mbw;
            let partition_index: usize = mby % parts;
            let ghost before = *self;
            assert(self.mb_info_cache@[i as int].unwrap()@ == ds[i as int]);
            proof {
                lemma_write_all_concat(
                    header0,
                    frame_mode_bits(params, scene, start, ds, i as int),
                    macroblock_header_bits(
                        params,
                        row_modes(before.modes(), i as int % scene.mbw),
                        ds[i as int],
                        i as int % scene.mbw,
                    ),
                );
            }
            self.encode_macroblock(i, partition_index);
            assert(before.scene() == scene);
            assert(self.scene() == scene);
            assert(self.mb_info_cache@[i as int].unwrap()@ == completed(
                scene,
                start,
                ds,
                i as int,
            ));
            i = i + 1;
        }
        assert(self.cached() =~= Seq::new(ds.len(), |j: int| completed(scene, start, ds, j)));
    }
}

} // verus!
