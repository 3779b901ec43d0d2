//! What the token statistics count.
use vstd::prelude::*;

use crate::arithmetic_encoder::{flag_bits, lemma_write_all_concat, Coder};
use crate::common::{Plane, DCT_0, DCT_EOB};
use crate::frame_decoding::lemma_surroundings_wf;
use crate::model::{segment_for, Decision, Scene};
use crate::passes::{
    coeffs_at, frame_branches, frame_partitions, jobs_at, lemma_partitions_len, replay,
    row_contexts, surroundings, Surroundings, Walk,
};
use crate::pipeline::{lemma_coeffs_codable, lemma_frame_count};
use crate::residual::{
    job_events, jobs_bits, jobs_branches, lemma_jobs_branches_len, lemma_residual_jobs_valid, Job,
};
use crate::segments::lemma_macroblock_position;
use crate::tokens::{
    event_bits, event_branches, events_bits, events_branches, extra_bits, lemma_occurrences_bound,
    lemma_occurrences_concat, no_counts, occurrences, tallied, tally_index, TokenEvent,
};

verus! {

/// Where the probability of a coded bit comes from.
pub enum Source {
    /// a position in the table of token probabilities
    Table(int),
    /// the format
    Fixed(u8),
}

/// A bit of the coefficients, before the table is known.
pub struct Symbol {
    pub bit: bool,
    pub source: Source,
}

impl Symbol {
    /// The bit, with its probability.
    pub open spec fn coded(self, probs: Seq<u8>) -> (bool, u8) {
        (
            self.bit,
            match self.source {
                Source::Table(slot) => probs[slot],
                Source::Fixed(prob) => prob,
            },
        )
    }
}

/// Bits with their probabilities.
pub open spec fn coded_all(symbols: Seq<Symbol>, probs: Seq<u8>) -> Seq<(bool, u8)> {
    symbols.map_values(|s: Symbol| s.coded(probs))
}

/// Bits of a token: the branches are coded with the table, extra bits and sign
/// are not.
pub open spec fn event_symbols(plane: Plane, e: TokenEvent) -> Seq<Symbol> {
    let branches = event_branches(plane, e).map_values(
        |b: (int, bool)| Symbol { bit: b.1, source: Source::Table(b.0) },
    );
    if e.token == DCT_EOB || e.token == DCT_0 {
        branches
    } else {
        branches + fixed(extra_bits(e.token, e.quantized_value) + flag_bits(e.quantized_value <= 0))
    }
}

/// Bits whose probabilities are fixed.
pub open spec fn fixed(bits: Seq<(bool, u8)>) -> Seq<Symbol> {
    bits.map_values(|b: (bool, u8)| Symbol { bit: b.0, source: Source::Fixed(b.1) })
}

/// Bits of a sequence of tokens.
pub open spec fn events_symbols(plane: Plane, events: Seq<TokenEvent>) -> Seq<Symbol>
    decreases events.len(),
{
    if events.len() == 0 {
        Seq::empty()
    } else {
        events_symbols(plane, events.drop_last()) + event_symbols(plane, events.last())
    }
}

/// Bits of a sequence of blocks.
pub open spec fn jobs_symbols(jobs: Seq<Job>) -> Seq<Symbol>
    decreases jobs.len(),
{
    if jobs.len() == 0 {
        Seq::empty()
    } else {
        jobs_symbols(jobs.drop_last()) + events_symbols(
            jobs.last().plane,
            job_events(jobs.last()),
        )
    }
}

/// Bits of the coefficients of the first `i` macroblocks, in each of `count`
/// partitions.
pub open spec fn frame_symbols(
    scene: Scene,
    start: Walk,
    first: Surroundings,
    ds: Seq<Decision>,
    count: nat,
    i: int,
) -> Seq<Seq<Symbol>>
    decreases i,
{
    if i <= 0 {
        Seq::new(count, |p: int| Seq::empty())
    } else {
        let before = frame_symbols(scene, start, first, ds, count, i - 1);
        let p = ((i - 1) / scene.mbw) % count as int;
        before.update(p, before[p] + jobs_symbols(jobs_at(scene, start, first, ds, i - 1)))
    }
}

/// How many bits take the branch `bit` with the probability at `slot`.
pub open spec fn uses(symbols: Seq<Symbol>, slot: int, bit: bool) -> nat
    decreases symbols.len(),
{
    if symbols.len() == 0 {
        0
    } else {
        uses(symbols.drop_last(), slot, bit) + if symbols.last() == (Symbol {
            bit,
            source: Source::Table(slot),
        }) {
            1nat
        } else {
            0
        }
    }
}

/// The same for all partitions together.
pub open spec fn total_uses(parts: Seq<Seq<Symbol>>, slot: int, bit: bool) -> nat
    decreases parts.len(),
{
    if parts.len() == 0 {
        0
    } else {
        total_uses(parts.drop_last(), slot, bit) + uses(parts.last(), slot, bit)
    }
}

proof fn lemma_uses_concat(a: Seq<Symbol>, b: Seq<Symbol>, slot: int, bit: bool)
    ensures
        uses(a + b, slot, bit) == uses(a, slot, bit) + uses(b, slot, bit),
    decreases b.len(),
{
    if b.len() == 0 {
        assert(a + b =~= a);
    } else {
        assert((a + b).drop_last() =~= a + b.drop_last());
        lemma_uses_concat(a, b.drop_last(), slot, bit);
    }
}

proof fn lemma_fixed_uses(bits: Seq<(bool, u8)>, slot: int, bit: bool)
    ensures
        uses(fixed(bits), slot, bit) == 0,
    decreases bits.len(),
{
    if bits.len() > 0 {
        assert(fixed(bits).drop_last() =~= fixed(bits.drop_last()));
        lemma_fixed_uses(bits.drop_last(), slot, bit);
    }
}

proof fn lemma_branch_uses(branches: Seq<(int, bool)>, slot: int, bit: bool)
    ensures
        uses(
            branches.map_values(|b: (int, bool)| Symbol { bit: b.1, source: Source::Table(b.0) }),
            slot,
            bit,
        ) == occurrences(branches, tally_index((slot, bit))),
    decreases branches.len(),
{
    let f = |b: (int, bool)| Symbol { bit: b.1, source: Source::Table(b.0) };
    if branches.len() > 0 {
        assert(branches.map_values(f).drop_last() =~= branches.drop_last().map_values(f));
        lemma_branch_uses(branches.drop_last(), slot, bit);
    }
}

proof fn lemma_coded_concat(a: Seq<Symbol>, b: Seq<Symbol>, probs: Seq<u8>)
    ensures
        coded_all(a + b, probs) == coded_all(a, probs) + coded_all(b, probs),
{
    assert(coded_all(a + b, probs) =~= coded_all(a, probs) + coded_all(b, probs));
}

proof fn lemma_event(plane: Plane, e: TokenEvent, probs: Seq<u8>, slot: int, bit: bool)
    ensures
        coded_all(event_symbols(plane, e), probs) == event_bits(plane, e, probs),
        uses(event_symbols(plane, e), slot, bit) == occurrences(
            event_branches(plane, e),
            tally_index((slot, bit)),
        ),
{
    let branches = event_branches(plane, e);
    lemma_branch_uses(branches, slot, bit);
    assert(coded_all(event_symbols(plane, e), probs) =~= event_bits(plane, e, probs));
    if e.token != DCT_EOB && e.token != DCT_0 {
        let rest = extra_bits(e.token, e.quantized_value) + flag_bits(e.quantized_value <= 0);
        lemma_fixed_uses(rest, slot, bit);
        lemma_uses_concat(
            branches.map_values(|b: (int, bool)| Symbol { bit: b.1, source: Source::Table(b.0) }),
            fixed(rest),
            slot,
            bit,
        );
    }
}

proof fn lemma_events(plane: Plane, events: Seq<TokenEvent>, probs: Seq<u8>, slot: int, bit: bool)
    ensures
        coded_all(events_symbols(plane, events), probs) == events_bits(plane, events, probs),
        uses(events_symbols(plane, events), slot, bit) == occurrences(
            events_branches(plane, events),
            tally_index((slot, bit)),
        ),
    decreases events.len(),
{
    if events.len() == 0 {
        assert(coded_all(events_symbols(plane, events), probs) =~= Seq::empty());
    } else {
        let (before, last) = (events.drop_last(), events.last());
        lemma_events(plane, before, probs, slot, bit);
        lemma_event(plane, last, probs, slot, bit);
        lemma_coded_concat(events_symbols(plane, before), event_symbols(plane, last), probs);
        lemma_uses_concat(events_symbols(plane, before), event_symbols(plane, last), slot, bit);
        lemma_occurrences_concat(
            events_branches(plane, before),
            event_branches(plane, last),
            tally_index((slot, bit)),
        );
    }
}

proof fn lemma_jobs(jobs: Seq<Job>, probs: Seq<u8>, slot: int, bit: bool)
    ensures
        coded_all(jobs_symbols(jobs), probs) == jobs_bits(jobs, probs),
        uses(jobs_symbols(jobs), slot, bit) == occurrences(
            jobs_branches(jobs),
            tally_index((slot, bit)),
        ),
    decreases jobs.len(),
{
    if jobs.len() == 0 {
        assert(coded_all(jobs_symbols(jobs), probs) =~= Seq::empty());
    } else {
        let (before, plane) = (jobs.drop_last(), jobs.last().plane);
        let events = job_events(jobs.last());
        lemma_jobs(before, probs, slot, bit);
        lemma_events(plane, events, probs, slot, bit);
        lemma_coded_concat(jobs_symbols(before), events_symbols(plane, events), probs);
        lemma_uses_concat(jobs_symbols(before), events_symbols(plane, events), slot, bit);
        lemma_occurrences_concat(
            jobs_branches(before),
            events_branches(plane, events),
            tally_index((slot, bit)),
        );
    }
}

/// Appending to one partition adds to the total.
proof fn lemma_total_appended(
    parts: Seq<Seq<Symbol>>,
    p: int,
    more: Seq<Symbol>,
    slot: int,
    bit: bool,
)
    requires
        0 <= p < parts.len(),
    ensures
        total_uses(parts.update(p, parts[p] + more), slot, bit) == total_uses(parts, slot, bit)
            + uses(more, slot, bit),
    decreases parts.len(),
{
    let after = parts.update(p, parts[p] + more);
    if p == parts.len() - 1 {
        assert(after.drop_last() =~= parts.drop_last());
        lemma_uses_concat(parts[p], more, slot, bit);
    } else {
        assert(after.drop_last() =~= parts.drop_last().update(p, parts.drop_last()[p] + more));
        lemma_total_appended(parts.drop_last(), p, more, slot, bit);
    }
}

proof fn lemma_total_empty(count: nat, slot: int, bit: bool)
    ensures
        total_uses(Seq::new(count, |p: int| Seq::<Symbol>::empty()), slot, bit) == 0,
    decreases count,
{
    if count > 0 {
        let parts = Seq::new(count, |p: int| Seq::<Symbol>::empty());
        let fewer = (count - 1) as nat;
        lemma_total_empty(fewer, slot, bit);
        assert(parts.drop_last() =~= Seq::new(fewer, |p: int| Seq::<Symbol>::empty()));
    }
}

/// The symbols of a frame are what the partitions hold, and their uses of the
/// table are the branches of the frame.
proof fn lemma_frame(
    scene: Scene,
    start: Walk,
    first: Surroundings,
    ds: Seq<Decision>,
    probs: Seq<u8>,
    coders: Seq<Coder>,
    slot: int,
    bit: bool,
    i: int,
)
    requires
        coders.len() >= 1,
    ensures
        ({
            let parts = frame_symbols(scene, start, first, ds, coders.len(), i);
            &&& parts.len() == coders.len()
            &&& frame_partitions(scene, start, first, ds, probs, coders, i) == Seq::new(
                coders.len(),
                |p: int| coders[p].write_all(coded_all(parts[p], probs)),
            )
            &&& total_uses(parts, slot, bit) == occurrences(
                frame_branches(scene, start, first, ds, i),
                tally_index((slot, bit)),
            )
        }),
    decreases i,
{
    let count = coders.len();
    let parts = frame_symbols(scene, start, first, ds, count, i);
    let all = frame_partitions(scene, start, first, ds, probs, coders, i);
    let target = Seq::new(count, |p: int| coders[p].write_all(coded_all(parts[p], probs)));
    if i <= 0 {
        lemma_total_empty(count, slot, bit);
        assert forall|p: int| 0 <= p < count implies #[trigger] all[p] == target[p] by {
            assert(coded_all(parts[p], probs) =~= Seq::<(bool, u8)>::empty());
        }
        assert(all =~= target);
    } else {
        let jobs = jobs_at(scene, start, first, ds, i - 1);
        let before = frame_symbols(scene, start, first, ds, count, i - 1);
        let row = (i - 1) / scene.mbw;
        let p = row % count as int;
        assert(0 <= row % count as int && row % (count as int) < count) by (nonlinear_arith)
            requires
                count >= 1,
        ;
        lemma_frame(scene, start, first, ds, probs, coders, slot, bit, i - 1);
        lemma_partitions_len(scene, start, first, ds, probs, coders, i - 1);
        lemma_jobs(jobs, probs, slot, bit);
        lemma_total_appended(before, p, jobs_symbols(jobs), slot, bit);
        lemma_occurrences_concat(
            frame_branches(scene, start, first, ds, i - 1),
            jobs_branches(jobs),
            tally_index((slot, bit)),
        );
        lemma_coded_concat(before[p], jobs_symbols(jobs), probs);
        lemma_write_all_concat(coders[p], coded_all(before[p], probs), jobs_bits(jobs, probs));
        assert(all =~= target);
    }
}

/// A frame has fewer branches than a count can hold.
proof fn lemma_frame_branches_len(
    scene: Scene,
    start: Walk,
    first: Surroundings,
    ds: Seq<Decision>,
    i: int,
)
    requires
        scene.wf(),
        0 <= i <= scene.mbw * scene.mbh,
        i <= ds.len(),
        forall|j: int| 0 <= j < ds.len() ==> (#[trigger] ds[j]).wf(),
        first.left.wf(),
        first.top.len() == scene.mbw,
        forall|x: int| 0 <= x < first.top.len() ==> (#[trigger] first.top[x]).wf(),
    ensures
        frame_branches(scene, start, first, ds, i).len() <= 8800 * i,
    decreases i,
{
    if i > 0 {
        let j = i - 1;
        lemma_macroblock_position(j, scene.mbw, scene.mbh);
        lemma_frame_branches_len(scene, start, first, ds, j);
        let jobs = jobs_at(scene, start, first, ds, j);
        let d = ds[j];
        if d.coeffs_skipped {
            assert(jobs_branches(jobs) =~= Seq::<(int, bool)>::empty());
        } else {
            let mbx = j % scene.mbw;
            let canvas = replay(scene, start, ds, j).canvas;
            lemma_surroundings_wf(scene, start, first, ds, j);
            let s = row_contexts(surroundings(scene, start, first, ds, j), mbx);
            assert(s.top[mbx].wf());
            lemma_coeffs_codable(scene, canvas, d, mbx, j / scene.mbw);
            lemma_residual_jobs_valid(
                d.luma_mode,
                segment_for(scene.segments, d.segment_id),
                coeffs_at(scene, start, ds, j),
                s.left,
                s.top[mbx],
            );
            lemma_jobs_branches_len(jobs);
        }
    }
}

/// The token statistics of a frame are those of the bits that coding it
/// writes: each count is the number of bits, in all partitions, that take its
/// branch with its probability from the table. The bits that are not counted
/// have fixed probabilities. A skipped macroblock has no bits.
pub proof fn law_statistics_count_what_is_coded(
    scene: Scene,
    start: Walk,
    first: Surroundings,
    ds: Seq<Decision>,
    probs: Seq<u8>,
    coders: Seq<Coder>,
    slot: int,
    bit: bool,
)
    requires
        scene.wf(),
        ds.len() == scene.mbw * scene.mbh,
        forall|j: int| 0 <= j < ds.len() ==> (#[trigger] ds[j]).wf(),
        first.left.wf(),
        first.top.len() == scene.mbw,
        forall|x: int| 0 <= x < first.top.len() ==> (#[trigger] first.top[x]).wf(),
        coders.len() >= 1,
        0 <= slot < 1056,
    ensures
        ({
            let n = ds.len() as int;
            let parts = frame_symbols(scene, start, first, ds, coders.len(), n);
            let counts = tallied(no_counts(), frame_branches(scene, start, first, ds, n));
            &&& frame_partitions(scene, start, first, ds, probs, coders, n) == Seq::new(
                coders.len(),
                |p: int| coders[p].write_all(coded_all(parts[p], probs)),
            )
            &&& counts[tally_index((slot, bit))] == total_uses(parts, slot, bit)
            &&& forall|j: int|
                0 <= j < n && ds[j].coeffs_skipped ==> (#[trigger] jobs_at(
                    scene,
                    start,
                    first,
                    ds,
                    j,
                )).len() == 0
        }),
{
    let n = ds.len() as int;
    let branches = frame_branches(scene, start, first, ds, n);
    lemma_frame(scene, start, first, ds, probs, coders, slot, bit, n);
    lemma_frame_count(scene.mbw, scene.mbh);
    lemma_frame_branches_len(scene, start, first, ds, n);
    lemma_occurrences_bound(branches, tally_index((slot, bit)));
}

} // verus!
