//! Reading of the coefficient levels of a macroblock.
use vstd::prelude::*;

use crate::common::{LumaMode, Plane, Segment};
use crate::encoder::Contexts;
use crate::reading::{after, follows, lemma_follows_concat, lemma_follows_nothing};
use crate::residual::{
    dc_jobs, dc_levels, job_events, jobs_bits, left_after, luma_plane_of, nonzero_flag,
    plane_levels, residual_codable, residual_jobs, square_jobs, top_after, Coeffs, Job,
};
use crate::roundtrip::Reader;
use crate::token_reading::{lemma_read_block, read_block};
use crate::tokens::{codable, events_bits, lemma_end_of_block_facts};

verus! {

/// Levels of a macroblock, each block in coding order. There is no block of DC
/// levels if the macroblock is predicted by sub-blocks.
#[verifier::ext_equal]
pub struct Levels {
    pub y2: Seq<i32>,
    pub y: Seq<Seq<i32>>,
    pub u: Seq<Seq<i32>>,
    pub v: Seq<Seq<i32>>,
}

/// A block of zeros.
pub open spec fn zero_block() -> Seq<i32> {
    Seq::new(16, |i: int| 0i32)
}

/// Levels that are all zero.
pub open spec fn zero_levels(mode: LumaMode) -> Levels {
    Levels {
        y2: if mode == LumaMode::B {
            Seq::empty()
        } else {
            zero_block()
        },
        y: Seq::new(16, |k: int| zero_block()),
        u: Seq::new(4, |k: int| zero_block()),
        v: Seq::new(4, |k: int| zero_block()),
    }
}

/// One if one of the levels of a block is not zero.
#[verifier::opaque]
pub open spec fn some_level(z: Seq<i32>) -> u8 {
    if exists|i: int| 0 <= i < z.len() && #[trigger] z[i] != 0 {
        1
    } else {
        0
    }
}

/// Context of block `k` in a square of `per` by `per` blocks, of which those
/// before it have been read.
pub open spec fn context_of(
    read: Seq<Seq<i32>>,
    left: Seq<u8>,
    top: Seq<u8>,
    per: int,
    k: int,
) -> usize {
    ((if k % per == 0 {
        left[k / per]
    } else {
        some_level(read[k - 1])
    }) + (if k < per {
        top[k]
    } else {
        some_level(read[k - per])
    })) as usize
}

/// The first `k` blocks of a square.
pub open spec fn read_square(
    r: Reader,
    probs: Seq<u8>,
    plane: Plane,
    left: Seq<u8>,
    top: Seq<u8>,
    per: int,
    k: int,
) -> (Seq<Seq<i32>>, Reader)
    decreases k,
{
    if k <= 0 {
        (Seq::empty(), r)
    } else {
        let (read, r1) = read_square(r, probs, plane, left, top, per, k - 1);
        let (z, r2) = read_block(r1, probs, plane, context_of(read, left, top, per, k - 1));
        (read.push(z), r2)
    }
}

/// Levels of a macroblock that is not skipped.
pub open spec fn read_residual(
    r: Reader,
    probs: Seq<u8>,
    mode: LumaMode,
    left: Contexts,
    top: Contexts,
) -> (Levels, Reader) {
    let (y2, r1) = if mode == LumaMode::B {
        (Seq::empty(), r)
    } else {
        read_block(r, probs, Plane::Y2, (left.y2 + top.y2) as usize)
    };
    let (y, r2) = read_square(
        r1,
        probs,
        if mode == LumaMode::B {
            Plane::YCoeff0
        } else {
            Plane::YCoeff1
        },
        left.y,
        top.y,
        4,
        16,
    );
    let (u, r3) = read_square(r2, probs, Plane::Chroma, left.u, top.u, 2, 4);
    let (v, r4) = read_square(r3, probs, Plane::Chroma, left.v, top.v, 2, 4);
    (Levels { y2, y, u, v }, r4)
}

/// Context that a macroblock with given levels leaves to its right.
pub open spec fn left_of(mode: LumaMode, levels: Levels, left: Contexts) -> Contexts {
    Contexts {
        y2: if mode == LumaMode::B {
            left.y2
        } else {
            some_level(levels.y2)
        },
        y: Seq::new(4, |i: int| some_level(levels.y[i * 4 + 3])),
        u: Seq::new(2, |i: int| some_level(levels.u[i * 2 + 1])),
        v: Seq::new(2, |i: int| some_level(levels.v[i * 2 + 1])),
    }
}

/// Context that a macroblock with given levels leaves below.
pub open spec fn top_of(mode: LumaMode, levels: Levels, top: Contexts) -> Contexts {
    Contexts {
        y2: if mode == LumaMode::B {
            top.y2
        } else {
            some_level(levels.y2)
        },
        y: Seq::new(4, |i: int| some_level(levels.y[12 + i])),
        u: Seq::new(2, |i: int| some_level(levels.u[2 + i])),
        v: Seq::new(2, |i: int| some_level(levels.v[2 + i])),
    }
}

/// Levels of the coefficients of a macroblock.
pub open spec fn coded_levels(mode: LumaMode, segment: Segment, c: Coeffs) -> Levels {
    Levels {
        y2: if mode == LumaMode::B {
            Seq::empty()
        } else {
            dc_levels(c.y, segment)
        },
        y: Seq::new(
            16,
            |k: int| plane_levels(c.y, luma_plane_of(mode), segment.ydc, segment.yac, k),
        ),
        u: Seq::new(4, |k: int| plane_levels(c.u, Plane::Chroma, segment.uvdc, segment.uvac, k)),
        v: Seq::new(4, |k: int| plane_levels(c.v, Plane::Chroma, segment.uvdc, segment.uvac, k)),
    }
}

/// The two flags say the same.
proof fn lemma_some_level(z: Seq<i32>)
    ensures
        some_level(z) == nonzero_flag(z),
{
    reveal(some_level);
    lemma_end_of_block_facts(z);
}

proof fn lemma_jobs_bits_concat(a: Seq<Job>, b: Seq<Job>, probs: Seq<u8>)
    ensures
        jobs_bits(a + b, probs) == jobs_bits(a, probs) + jobs_bits(b, probs),
    decreases b.len(),
{
    if b.len() == 0 {
        assert(a + b =~= a);
        assert(jobs_bits(a, probs) + jobs_bits(b, probs) =~= jobs_bits(a, probs));
    } else {
        assert((a + b).drop_last() =~= a + b.drop_last());
        lemma_jobs_bits_concat(a, b.drop_last(), probs);
        assert(jobs_bits(a + b, probs) =~= jobs_bits(a, probs) + jobs_bits(b, probs));
    }
}

/// Reading the first `k` blocks of a square gives their levels.
proof fn lemma_read_square(
    r: Reader,
    probs: Seq<u8>,
    data: Seq<i32>,
    plane: Plane,
    dc: i16,
    ac: i16,
    left: Seq<u8>,
    top: Seq<u8>,
    per: int,
    k: int,
)
    requires
        per == 2 || per == 4,
        0 <= k <= per * per,
        left.len() == per,
        top.len() == per,
        forall|i: int| 0 <= i < per ==> #[trigger] left[i] <= 1,
        forall|i: int| 0 <= i < per ==> #[trigger] top[i] <= 1,
        forall|i: int|
            0 <= i < per * per ==> codable(#[trigger] plane_levels(data, plane, dc, ac, i)),
        follows(
            r,
            jobs_bits(square_jobs(data, plane, dc, ac, left, top, per).take(k), probs),
        ),
    ensures
        read_square(r, probs, plane, left, top, per, k) == (
            Seq::new(k as nat, |i: int| plane_levels(data, plane, dc, ac, i)),
            after(
                r,
                jobs_bits(square_jobs(data, plane, dc, ac, left, top, per).take(k), probs),
            ),
        ),
    decreases k,
{
    let jobs = square_jobs(data, plane, dc, ac, left, top, per);
    let all = Seq::new(k as nat, |i: int| plane_levels(data, plane, dc, ac, i));
    if k > 0 {
        let job = jobs[k - 1];
        let done = jobs_bits(jobs.take(k - 1), probs);
        assert(jobs.take(k).drop_last() =~= jobs.take(k - 1));
        assert(jobs.take(k).last() == job);
        lemma_follows_concat(r, done, events_bits(plane, job_events(job), probs));
        lemma_read_square(r, probs, data, plane, dc, ac, left, top, per, k - 1);
        let read = Seq::new((k - 1) as nat, |i: int| plane_levels(data, plane, dc, ac, i));
        if per == 2 {
            assert(0 <= (k - 1) / 2 < 2);
        } else {
            assert(0 <= (k - 1) / 4 < 4);
        }
        assert(left[(k - 1) / per] <= 1);
        if (k - 1) % per != 0 {
            lemma_some_level(read[k - 2]);
        }
        if k - 1 >= per {
            lemma_some_level(read[k - 1 - per]);
        }
        assert(context_of(read, left, top, per, k - 1) == job.context);
        assert(job.context <= 2);
        lemma_read_block(after(r, done), probs, plane, job.z, job.context);
        assert(read.push(job.z) =~= all);
    } else {
        assert(jobs.take(0) =~= Seq::<Job>::empty());
        lemma_follows_nothing(r);
        assert(read_square(r, probs, plane, left, top, per, k).0 =~= all);
    }
}

/// Reading the coefficients of a macroblock gives its levels.
pub proof fn lemma_read_residual(
    r: Reader,
    probs: Seq<u8>,
    mode: LumaMode,
    segment: Segment,
    c: Coeffs,
    left: Contexts,
    top: Contexts,
)
    requires
        left.wf(),
        top.wf(),
        residual_codable(mode, segment, c),
        follows(r, jobs_bits(residual_jobs(mode, segment, c, left, top), probs)),
    ensures
        read_residual(r, probs, mode, left, top) == (
            coded_levels(mode, segment, c),
            after(r, jobs_bits(residual_jobs(mode, segment, c, left, top), probs)),
        ),
{
    reveal(residual_jobs);
    reveal(residual_codable);
    assert(4int * 4 == 16);
    assert(2int * 2 == 4);
    let d = dc_jobs(mode, segment, c.y, left, top);
    let y = square_jobs(
        c.y,
        luma_plane_of(mode),
        segment.ydc,
        segment.yac,
        left.y,
        top.y,
        4,
    );
    let u = square_jobs(c.u, Plane::Chroma, segment.uvdc, segment.uvac, left.u, top.u, 2);
    let v = square_jobs(c.v, Plane::Chroma, segment.uvdc, segment.uvac, left.v, top.v, 2);
    assert(y.take(16) =~= y);
    assert(u.take(4) =~= u);
    assert(v.take(4) =~= v);
    lemma_jobs_bits_concat(d, y, probs);
    lemma_jobs_bits_concat(d + y, u, probs);
    lemma_jobs_bits_concat(d + y + u, v, probs);
    lemma_follows_concat(r, jobs_bits(d + y + u, probs), jobs_bits(v, probs));
    lemma_follows_concat(r, jobs_bits(d + y, probs), jobs_bits(u, probs));
    lemma_follows_concat(r, jobs_bits(d, probs), jobs_bits(y, probs));
    let r1 = after(r, jobs_bits(d, probs));
    if mode == LumaMode::B {
        assert(d =~= Seq::<Job>::empty());
        lemma_follows_nothing(r);
    } else {
        assert(d.drop_last() =~= Seq::<Job>::empty());
        let job = d[0];
        assert(jobs_bits(d.drop_last(), probs) =~= Seq::<(bool, u8)>::empty());
        assert(jobs_bits(d, probs) =~= events_bits(Plane::Y2, job_events(job), probs));
        lemma_read_block(r, probs, Plane::Y2, job.z, job.context);
    }
    lemma_read_square(
        r1,
        probs,
        c.y,
        luma_plane_of(mode),
        segment.ydc,
        segment.yac,
        left.y,
        top.y,
        4,
        16,
    );
    let r2 = after(r, jobs_bits(d + y, probs));
    lemma_read_square(
        r2,
        probs,
        c.u,
        Plane::Chroma,
        segment.uvdc,
        segment.uvac,
        left.u,
        top.u,
        2,
        4,
    );
    let r3 = after(r, jobs_bits(d + y + u, probs));
    lemma_read_square(
        r3,
        probs,
        c.v,
        Plane::Chroma,
        segment.uvdc,
        segment.uvac,
        left.v,
        top.v,
        2,
        4,
    );
}

/// The contexts that a decoder derives are those of the encoder.
pub proof fn lemma_contexts_of(
    mode: LumaMode,
    segment: Segment,
    c: Coeffs,
    left: Contexts,
    top: Contexts,
)
    ensures
        left_of(mode, coded_levels(mode, segment, c), left) == left_after(mode, segment, c, left),
        top_of(mode, coded_levels(mode, segment, c), top) == top_after(mode, segment, c, top),
{
    reveal(left_after);
    reveal(top_after);
    let levels = coded_levels(mode, segment, c);
    assert forall|z: Seq<i32>| #[trigger] some_level(z) == nonzero_flag(z) by {
        lemma_some_level(z);
    }
    assert(left_of(mode, levels, left) =~= left_after(mode, segment, c, left));
    assert(top_of(mode, levels, top) =~= top_after(mode, segment, c, top));
}

} // verus!
