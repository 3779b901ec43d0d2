//! How a decoder smooths the edges between blocks.
use vstd::prelude::*;

use crate::common::{LumaMode, Segment};
use crate::filter::{
    filter_of, filter_parameters, filtered_columns, filtered_frame,
    filtered_macroblock, filtered_rows, FilterSettings,
    MacroblockFilter,
};
use crate::loop_filter::{
    adjusted, clamp_signed, filtered_edge, filtered_line, inner_adjustment, line_at, share, signed,
    step_across, unsigned, widely_adjusted, with_line, FilterKind, FilterLimits,
};
use crate::model::{Canvas, Decision, Scene};

verus! {

/// How the edges of a macroblock are smoothed.
pub struct Smoothing {
    /// only the pixels next to an edge are looked at and changed
    pub simple: bool,
    /// largest step between neighbours on one side of an edge
    pub interior: int,
    /// step between neighbours above which only the pixels next to the edge change
    pub variance: int,
    /// largest step across an edge between macroblocks
    pub outer: int,
    /// largest step across an edge inside a macroblock
    pub inner: int,
}

/// Filter level of a macroblock: that of the frame, or of its segment.
pub open spec fn level_of(settings: FilterSettings, segment: Segment) -> int {
    let base = settings.filter_level as int;
    let own = segment.loopfilter_level as int;
    let level = if settings.segments_enabled {
        if segment.delta_values {
            base + own
        } else {
            own
        }
    } else {
        base
    };
    if level < 0 {
        0
    } else if level <= 63 {
        level
    } else {
        63
    }
}

/// Smoothing for a filter level and a sharpness.
pub open spec fn smoothing_of(simple: bool, level: int, sharpness: int) -> Smoothing {
    let shifted = if sharpness > 4 {
        level / 4
    } else if sharpness > 0 {
        level / 2
    } else {
        level
    };
    let limited = if sharpness > 0 && shifted > 9 - sharpness {
        9 - sharpness
    } else {
        shifted
    };
    let interior = if limited < 1 {
        1
    } else {
        limited
    };
    Smoothing {
        simple,
        interior,
        variance: if level < 15 {
            0
        } else if level < 40 {
            1
        } else {
            2
        },
        outer: 2 * level + 4 + interior,
        inner: 2 * level + interior,
    }
}

/// `v` limited to what eight bits with a sign can hold.
pub open spec fn held(v: int) -> int {
    if v > 127 {
        127
    } else if v >= -128 {
        v
    } else {
        -128
    }
}

/// How far apart two pixels are.
pub open spec fn gap(a: u8, b: u8) -> int {
    if a < b {
        b - a
    } else {
        a - b
    }
}

/// A pixel moved by `v`.
pub open spec fn moved(p: u8, v: int) -> u8 {
    (held(p - 128 + v) + 128) as u8
}

/// Eight pixels across an edge, four on each side.
pub open spec fn smoothed(s: Seq<u8>, f: Smoothing, outer: bool) -> Seq<u8> {
    let limit = if outer {
        f.outer
    } else {
        f.inner
    };
    let low = gap(s[3], s[4]) * 2 + gap(s[2], s[5]) / 2 <= limit;
    let even = gap(s[0], s[1]) <= f.interior && gap(s[1], s[2]) <= f.interior && gap(s[2], s[3])
        <= f.interior && gap(s[4], s[5]) <= f.interior && gap(s[5], s[6]) <= f.interior && gap(
        s[6],
        s[7],
    ) <= f.interior;
    let rough = gap(s[2], s[3]) > f.variance || gap(s[4], s[5]) > f.variance;
    let far = held(s[2] - s[5]);
    let near = 3 * (s[4] - s[3]);
    let both = held(far + near);
    if !low || (!f.simple && !even) {
        s
    } else if f.simple || rough {
        s.update(3, moved(s[3], held(both + 3) / 8)).update(4, moved(s[4], -(held(both + 4) / 8)))
    } else if outer {
        let part = |weight: int| held((weight * both + 63) / 128);
        seq![
            s[0],
            moved(s[1], part(9)),
            moved(s[2], part(18)),
            moved(s[3], part(27)),
            moved(s[4], -part(27)),
            moved(s[5], -part(18)),
            moved(s[6], -part(9)),
            s[7],
        ]
    } else {
        let up = held(held(near) + 3) / 8;
        let down = held(held(near) + 4) / 8;
        let half = (down + 1) / 2;
        seq![
            s[0],
            s[1],
            moved(s[2], half),
            moved(s[3], up),
            moved(s[4], -down),
            moved(s[5], -half),
            s[6],
            s[7],
        ]
    }
}

/// The plane with the line across an edge smoothed, `at` being the first pixel
/// behind the edge and `step` the distance to the next.
pub open spec fn line_smoothed(
    plane: Seq<u8>,
    f: Smoothing,
    outer: bool,
    at: int,
    step: int,
) -> Seq<u8> {
    let s = smoothed(
        seq![
            plane[at - 4 * step],
            plane[at - 3 * step],
            plane[at - 2 * step],
            plane[at - step],
            plane[at],
            plane[at + step],
            plane[at + 2 * step],
            plane[at + 3 * step],
        ],
        f,
        outer,
    );
    Seq::new(
        plane.len(),
        |n: int|
            if n == at {
                s[4]
            } else if n == at - step {
                s[3]
            } else if n == at + step {
                s[5]
            } else if n == at - 2 * step {
                s[2]
            } else if n == at + 2 * step {
                s[6]
            } else if n == at - 3 * step {
                s[1]
            } else if n == at + 3 * step {
                s[7]
            } else if n == at - 4 * step {
                s[0]
            } else {
                plane[n]
            },
    )
}

/// The plane with an edge that is `n` pixels long smoothed.
pub open spec fn edge_smoothed(
    plane: Seq<u8>,
    f: Smoothing,
    outer: bool,
    at: int,
    step: int,
    along: int,
    n: int,
) -> Seq<u8>
    decreases n,
{
    if n <= 0 {
        plane
    } else {
        line_smoothed(
            edge_smoothed(plane, f, outer, at, step, along, n - 1),
            f,
            outer,
            at + (n - 1) * along,
            step,
        )
    }
}

/// The plane with the first `k` vertical edges inside a block smoothed.
pub open spec fn upright_smoothed(
    plane: Seq<u8>,
    f: Smoothing,
    w: int,
    px: int,
    py: int,
    size: int,
    k: int,
) -> Seq<u8>
    decreases k,
{
    if k <= 0 {
        plane
    } else {
        edge_smoothed(
            upright_smoothed(plane, f, w, px, py, size, k - 1),
            f,
            false,
            py * w + (px + 4 * k),
            1,
            w,
            size,
        )
    }
}

/// The plane with the first `k` horizontal edges inside a block smoothed.
pub open spec fn level_smoothed(
    plane: Seq<u8>,
    f: Smoothing,
    w: int,
    px: int,
    py: int,
    size: int,
    k: int,
) -> Seq<u8>
    decreases k,
{
    if k <= 0 {
        plane
    } else {
        edge_smoothed(
            level_smoothed(plane, f, w, px, py, size, k - 1),
            f,
            false,
            (py + 4 * k) * w + px,
            w,
            1,
            size,
        )
    }
}

/// The plane with a block smoothed: the edge to its left, the vertical edges
/// inside, the edge above, and the horizontal edges inside. There is no edge
/// at the border of the frame.
pub open spec fn block_smoothed(
    plane: Seq<u8>,
    f: Smoothing,
    inside: bool,
    w: int,
    px: int,
    py: int,
    size: int,
) -> Seq<u8> {
    let count = if inside {
        size / 4 - 1
    } else {
        0
    };
    let a = if px > 0 {
        edge_smoothed(plane, f, true, py * w + px, 1, w, size)
    } else {
        plane
    };
    let b = upright_smoothed(a, f, w, px, py, size, count);
    let c = if py > 0 {
        edge_smoothed(b, f, true, py * w + px, w, 1, size)
    } else {
        b
    };
    level_smoothed(c, f, w, px, py, size, count)
}

/// The frame with the first `i` macroblocks smoothed. A macroblock that is
/// predicted as a whole and has no coefficients keeps the edges inside.
pub open spec fn frame_smoothed(
    settings: FilterSettings,
    segments: Seq<Segment>,
    ds: Seq<Decision>,
    mbw: int,
    canvas: Canvas,
    i: int,
) -> Canvas
    decreases i,
{
    if i <= 0 {
        canvas
    } else {
        let before = frame_smoothed(settings, segments, ds, mbw, canvas, i - 1);
        let d = ds[i - 1];
        let segment = segments[match d.segment_id {
            Some(id) => id as int,
            None => 0,
        }];
        let (mbx, mby) = ((i - 1) % mbw, (i - 1) / mbw);
        let level = level_of(settings, segment);
        let f = smoothing_of(settings.filter_type, level, settings.sharpness_level as int);
        let inside = d.luma_mode == LumaMode::B || (!d.coeffs_skipped && d.non_zero_dct);
        if settings.filter_level == 0 || level == 0 {
            before
        } else {
            Canvas {
                y: block_smoothed(before.y, f, inside, mbw * 16, mbx * 16, mby * 16, 16),
                u: if settings.filter_type {
                    before.u
                } else {
                    block_smoothed(before.u, f, inside, mbw * 8, mbx * 8, mby * 8, 8)
                },
                v: if settings.filter_type {
                    before.v
                } else {
                    block_smoothed(before.v, f, inside, mbw * 8, mbx * 8, mby * 8, 8)
                },
            }
        }
    }
}

/// The filter of the encoder.
spec fn matches_kind(f: Smoothing, outer: bool, kind: FilterKind, limits: FilterLimits) -> bool {
    &&& kind == if f.simple {
        FilterKind::Simple
    } else if outer {
        FilterKind::Macroblock
    } else {
        FilterKind::Subblock
    }
    &&& limits.interior_limit == f.interior
    &&& limits.hev_threshold == f.variance
    &&& limits.edge_limit == if outer {
        f.outer
    } else {
        f.inner
    }
}

proof fn lemma_moved(p: u8, v: int)
    ensures
        moved(p, v) == unsigned(signed(p) + v),
        forall|x: int| held(x) == clamp_signed(x),
{
}

proof fn lemma_steps(s: Seq<u8>)
    ensures
        step_across(s, true) == held(held(s[2] - s[5]) + 3 * (s[4] - s[3])),
        step_across(s, false) == held(3 * (s[4] - s[3])),
{
}

/// The pixels next to an edge are moved alike.
proof fn lemma_adjusted(s: Seq<u8>)
    requires
        s.len() == 8,
    ensures
        ({
            let both = held(held(s[2] - s[5]) + 3 * (s[4] - s[3]));
            adjusted(s, true) == s.update(3, moved(s[3], held(both + 3) / 8)).update(
                4,
                moved(s[4], -(held(both + 4) / 8)),
            )
        }),
{
    lemma_steps(s);
    let both = step_across(s, true);
    lemma_moved(s[3], held(both + 3) / 8);
    lemma_moved(s[4], -(held(both + 4) / 8));
    assert(adjusted(s, true) =~= s.update(3, moved(s[3], held(both + 3) / 8)).update(
        4,
        moved(s[4], -(held(both + 4) / 8)),
    ));
}

/// Three pixels on each side of an edge are moved alike.
proof fn lemma_widely(s: Seq<u8>, f: Smoothing)
    requires
        s.len() == 8,
    ensures
        ({
            let both = held(held(s[2] - s[5]) + 3 * (s[4] - s[3]));
            widely_adjusted(s) == seq![
                s[0],
                moved(s[1], held((9 * both + 63) / 128)),
                moved(s[2], held((18 * both + 63) / 128)),
                moved(s[3], held((27 * both + 63) / 128)),
                moved(s[4], -held((27 * both + 63) / 128)),
                moved(s[5], -held((18 * both + 63) / 128)),
                moved(s[6], -held((9 * both + 63) / 128)),
                s[7],
            ]
        }),
{
    lemma_steps(s);
    let both = step_across(s, true);
    assert(share(s, 9) == held((9 * both + 63) / 128));
    assert(share(s, 18) == held((18 * both + 63) / 128));
    assert(share(s, 27) == held((27 * both + 63) / 128));
    lemma_moved(s[1], share(s, 9));
    lemma_moved(s[2], share(s, 18));
    lemma_moved(s[3], share(s, 27));
    lemma_moved(s[4], -share(s, 27));
    lemma_moved(s[5], -share(s, 18));
    lemma_moved(s[6], -share(s, 9));
}

/// Two pixels on each side of an edge are moved alike.
proof fn lemma_narrowly(s: Seq<u8>)
    requires
        s.len() == 8,
    ensures
        ({
            let near = held(3 * (s[4] - s[3]));
            let up = held(near + 3) / 8;
            let down = held(near + 4) / 8;
            let half = (down + 1) / 2;
            let a = (inner_adjustment(s, false) + 1) / 2;
            adjusted(s, false).update(2, unsigned(signed(s[2]) + a)).update(
                5,
                unsigned(signed(s[5]) - a),
            ) == seq![
                s[0],
                s[1],
                moved(s[2], half),
                moved(s[3], up),
                moved(s[4], -down),
                moved(s[5], -half),
                s[6],
                s[7],
            ]
        }),
{
    lemma_steps(s);
    let near = step_across(s, false);
    let down = held(near + 4) / 8;
    let half = (down + 1) / 2;
    assert(inner_adjustment(s, false) == down);
    lemma_moved(s[2], half);
    lemma_moved(s[3], held(near + 3) / 8);
    lemma_moved(s[4], -down);
    lemma_moved(s[5], -half);
    let a = adjusted(s, false).update(2, unsigned(signed(s[2]) + half)).update(
        5,
        unsigned(signed(s[5]) - half),
    );
    assert(a =~= seq![
        s[0],
        s[1],
        moved(s[2], half),
        moved(s[3], held(near + 3) / 8),
        moved(s[4], -down),
        moved(s[5], -half),
        s[6],
        s[7],
    ]);
}

proof fn lemma_smoothed(s: Seq<u8>, f: Smoothing, outer: bool, kind: FilterKind, limits: FilterLimits)
    requires
        s.len() == 8,
        matches_kind(f, outer, kind, limits),
    ensures
        smoothed(s, f, outer) == filtered_line(s, kind, limits),
{
    lemma_adjusted(s);
    lemma_widely(s, f);
    lemma_narrowly(s);
}

proof fn lemma_line(
    plane: Seq<u8>,
    f: Smoothing,
    outer: bool,
    kind: FilterKind,
    limits: FilterLimits,
    at: int,
    step: int,
)
    requires
        matches_kind(f, outer, kind, limits),
        step >= 1,
    ensures
        line_smoothed(plane, f, outer, at, step) == with_line(
            plane,
            at,
            step,
            filtered_line(line_at(plane, at, step), kind, limits),
        ),
{
    let t = line_at(plane, at, step);
    lemma_smoothed(t, f, outer, kind, limits);
    assert(line_smoothed(plane, f, outer, at, step) =~= with_line(
        plane,
        at,
        step,
        filtered_line(t, kind, limits),
    ));
}

proof fn lemma_edge(
    plane: Seq<u8>,
    f: Smoothing,
    outer: bool,
    kind: FilterKind,
    limits: FilterLimits,
    at: int,
    step: int,
    along: int,
    n: int,
)
    requires
        matches_kind(f, outer, kind, limits),
        step >= 1,
    ensures
        edge_smoothed(plane, f, outer, at, step, along, n) == filtered_edge(
            plane,
            kind,
            limits,
            at,
            step,
            along,
            n,
        ),
    decreases n,
{
    if n > 0 {
        lemma_edge(plane, f, outer, kind, limits, at, step, along, n - 1);
        lemma_line(
            edge_smoothed(plane, f, outer, at, step, along, n - 1),
            f,
            outer,
            kind,
            limits,
            at + (n - 1) * along,
            step,
        );
    }
}

proof fn lemma_inside_edges(
    plane: Seq<u8>,
    f: Smoothing,
    kind: FilterKind,
    limits: FilterLimits,
    w: int,
    px: int,
    py: int,
    size: int,
    k: int,
)
    requires
        matches_kind(f, false, kind, limits),
        w >= 1,
    ensures
        upright_smoothed(plane, f, w, px, py, size, k) == filtered_columns(
            plane,
            kind,
            limits,
            w,
            px,
            py,
            size,
            k,
        ),
        level_smoothed(plane, f, w, px, py, size, k) == filtered_rows(
            plane,
            kind,
            limits,
            w,
            px,
            py,
            size,
            k,
        ),
    decreases k,
{
    if k > 0 {
        lemma_inside_edges(plane, f, kind, limits, w, px, py, size, k - 1);
        lemma_edge(
            upright_smoothed(plane, f, w, px, py, size, k - 1),
            f,
            false,
            kind,
            limits,
            py * w + (px + 4 * k),
            1,
            w,
            size,
        );
        lemma_edge(
            level_smoothed(plane, f, w, px, py, size, k - 1),
            f,
            false,
            kind,
            limits,
            (py + 4 * k) * w + px,
            w,
            1,
            size,
        );
    }
}

proof fn lemma_block(
    plane: Seq<u8>,
    f: Smoothing,
    m: MacroblockFilter,
    w: int,
    px: int,
    py: int,
    size: int,
)
    requires
        matches_kind(f, true, m.outer, m.outer_limits),
        matches_kind(f, false, m.inner, m.inner_limits),
        m.left == (px > 0),
        m.top == (py > 0),
        w >= 1,
    ensures
        block_smoothed(plane, f, m.inside, w, px, py, size) == filtered_macroblock(
            plane,
            m,
            w,
            px,
            py,
            size,
        ),
{
    lemma_edge(plane, f, true, m.outer, m.outer_limits, py * w + px, 1, w, size);
    let a = if m.left {
        filtered_edge(plane, m.outer, m.outer_limits, py * w + px, 1, w, size)
    } else {
        plane
    };
    lemma_inside_edges(a, f, m.inner, m.inner_limits, w, px, py, size, size / 4 - 1);
    let b = if m.inside {
        filtered_columns(a, m.inner, m.inner_limits, w, px, py, size, size / 4 - 1)
    } else {
        a
    };
    lemma_edge(b, f, true, m.outer, m.outer_limits, py * w + px, w, 1, size);
    let c = if m.top {
        filtered_edge(b, m.outer, m.outer_limits, py * w + px, w, 1, size)
    } else {
        b
    };
    lemma_inside_edges(c, f, m.inner, m.inner_limits, w, px, py, size, size / 4 - 1);
}

/// The frame is smoothed as the encoder filters it.
pub proof fn lemma_frame_smoothed(
    scene: Scene,
    settings: FilterSettings,
    ds: Seq<Decision>,
    canvas: Canvas,
    i: int,
)
    requires
        scene.mbw >= 1,
        settings.sharpness_level <= 9,
    ensures
        frame_smoothed(settings, scene.segments, ds, scene.mbw, canvas, i) == filtered_frame(
            scene,
            settings,
            ds,
            canvas,
            i,
        ),
    decreases i,
{
    if i > 0 {
        lemma_frame_smoothed(scene, settings, ds, canvas, i - 1);
        let before = filtered_frame(scene, settings, ds, canvas, i - 1);
        let d = ds[i - 1];
        let segment = scene.segments[match d.segment_id {
            Some(id) => id as int,
            None => 0,
        }];
        let mbw = scene.mbw;
        let (mbx, mby) = ((i - 1) % mbw, (i - 1) / mbw);
        assert(0 <= mbx && 0 <= mby) by (nonlinear_arith)
            requires
                mbw >= 1,
                i > 0,
                mbx == (i - 1) % mbw,
                mby == (i - 1) / mbw,
        ;
        let p = filter_parameters(settings, segment);
        let level = level_of(settings, segment);
        let f = smoothing_of(settings.filter_type, level, settings.sharpness_level as int);
        let m = filter_of(settings, p, d, mbx, mby);
        if settings.filter_level != 0 && level != 0 {
            assert(p.0 == level && p.1 == f.interior && p.2 == f.variance);
            lemma_block(before.y, f, m, mbw * 16, mbx * 16, mby * 16, 16);
            lemma_block(before.u, f, m, mbw * 8, mbx * 8, mby * 8, 8);
            lemma_block(before.v, f, m, mbw * 8, mbx * 8, mby * 8, 8);
        }
    }
}

} // verus!
