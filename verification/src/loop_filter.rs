//! The deblocking filter.
//!
//! A filter works on a line of eight pixels across an edge: four before it
//! (`p3` to `p0`, positions 0 to 3) and four behind it (`q0` to `q3`,
//! positions 4 to 7).
use vstd::prelude::*;

verus! {

/// `v` limited to the range of a signed byte.
pub open spec fn clamp_signed(v: int) -> int {
    if v < -128 {
        -128
    } else if v > 127 {
        127
    } else {
        v
    }
}

/// A pixel as a number around zero.
pub open spec fn signed(p: u8) -> int {
    p - 128
}

/// The pixel for a number around zero.
pub open spec fn unsigned(v: int) -> u8 {
    (clamp_signed(v) + 128) as u8
}

/// Distance of two pixels.
pub open spec fn distance(a: u8, b: u8) -> int {
    if a >= b {
        a - b
    } else {
        b - a
    }
}

/// Which filter to apply to an edge.
#[derive(Clone, Copy, PartialEq, Eq, Structural)]
pub enum FilterKind {
    /// the simple filter
    Simple,
    /// the normal filter on the edge of a macroblock
    Macroblock,
    /// the normal filter on the edge of a sub-block
    Subblock,
}

/// Limits of a filter.
#[derive(Clone, Copy, PartialEq, Eq, Structural)]
pub struct FilterLimits {
    pub hev_threshold: u8,
    pub interior_limit: u8,
    pub edge_limit: u8,
}

/// The step across the edge is small enough to be an artefact.
pub open spec fn below_edge_limit(s: Seq<u8>, edge_limit: u8) -> bool {
    distance(s[3], s[4]) * 2 + distance(s[2], s[5]) / 2 <= edge_limit
}

/// The step across the edge and the steps beside it are small enough.
pub open spec fn should_filter(s: Seq<u8>, limits: FilterLimits) -> bool {
    &&& below_edge_limit(s, limits.edge_limit)
    &&& distance(s[0], s[1]) <= limits.interior_limit
    &&& distance(s[1], s[2]) <= limits.interior_limit
    &&& distance(s[2], s[3]) <= limits.interior_limit
    &&& distance(s[7], s[6]) <= limits.interior_limit
    &&& distance(s[6], s[5]) <= limits.interior_limit
    &&& distance(s[5], s[4]) <= limits.interior_limit
}

/// The pixels next to the edge vary too much for a wide filter.
pub open spec fn high_edge_variance(s: Seq<u8>, threshold: u8) -> bool {
    distance(s[2], s[3]) > threshold || distance(s[5], s[4]) > threshold
}

/// Step across the edge, with or without the outer pixels.
pub open spec fn step_across(s: Seq<u8>, use_outer: bool) -> int {
    let outer = if use_outer {
        clamp_signed(signed(s[2]) - signed(s[5]))
    } else {
        0
    };
    clamp_signed(outer + 3 * (signed(s[4]) - signed(s[3])))
}

/// Adjustment of `q0`.
pub open spec fn inner_adjustment(s: Seq<u8>, use_outer: bool) -> int {
    clamp_signed(step_across(s, use_outer) + 4) / 8
}

/// The two pixels next to the edge moved towards each other.
pub open spec fn adjusted(s: Seq<u8>, use_outer: bool) -> Seq<u8> {
    let a = inner_adjustment(s, use_outer);
    let b = clamp_signed(step_across(s, use_outer) + 3) / 8;
    s.update(3, unsigned(signed(s[3]) + b)).update(4, unsigned(signed(s[4]) - a))
}

/// Weighted part of the step for the pixels at a distance from the edge.
pub open spec fn share(s: Seq<u8>, weight: int) -> int {
    clamp_signed((weight * step_across(s, true) + 63) / 128)
}

/// Three pixels on each side moved towards each other.
pub open spec fn widely_adjusted(s: Seq<u8>) -> Seq<u8> {
    seq![
        s[0],
        unsigned(signed(s[1]) + share(s, 9)),
        unsigned(signed(s[2]) + share(s, 18)),
        unsigned(signed(s[3]) + share(s, 27)),
        unsigned(signed(s[4]) - share(s, 27)),
        unsigned(signed(s[5]) - share(s, 18)),
        unsigned(signed(s[6]) - share(s, 9)),
        s[7],
    ]
}

/// A line of pixels after a filter.
pub open spec fn filtered_line(s: Seq<u8>, kind: FilterKind, limits: FilterLimits) -> Seq<u8> {
    match kind {
        FilterKind::Simple => if below_edge_limit(s, limits.edge_limit) {
            adjusted(s, true)
        } else {
            s
        },
        FilterKind::Macroblock => if !should_filter(s, limits) {
            s
        } else if high_edge_variance(s, limits.hev_threshold) {
            adjusted(s, true)
        } else {
            widely_adjusted(s)
        },
        FilterKind::Subblock => if !should_filter(s, limits) {
            s
        } else if high_edge_variance(s, limits.hev_threshold) {
            adjusted(s, true)
        } else {
            let a = (inner_adjustment(s, false) + 1) / 2;
            adjusted(s, false).update(2, unsigned(signed(s[2]) + a)).update(
                5,
                unsigned(signed(s[5]) - a),
            )
        },
    }
}

fn clamp_byte(v: i32) -> (r: i32)
    ensures
        r == clamp_signed(v as int),
{
    if v < -128 {
        -128
    } else if v > 127 {
        127
    } else {
        v
    }
}

fn to_pixel(v: i32) -> (r: u8)
    ensures
        r == unsigned(v as int),
{
    (clamp_byte(v) + 128) as u8
}

fn to_signed(p: u8) -> (r: i32)
    ensures
        r == signed(p),
{
    p as i32 - 128
}

fn apart(a: u8, b: u8) -> (r: u32)
    ensures
        r == distance(a, b),
{
    if a >= b {
        (a - b) as u32
    } else {
        (b - a) as u32
    }
}

/// `v / 2^3`, rounded down.
fn eighth(v: i32) -> (r: i32)
    ensures
        r == v as int / 8,
{
    assert(v >> 3 == v / 8) by (bit_vector);
    v >> 3
}

fn is_below_edge_limit(s: &[u8; 8], edge_limit: u8) -> (r: bool)
    ensures
        r == below_edge_limit(s@, edge_limit),
{
    apart(s[3], s[4]) * 2 + apart(s[2], s[5]) / 2 <= edge_limit as u32
}

fn is_filtered(s: &[u8; 8], limits: &FilterLimits) -> (r: bool)
    ensures
        r == should_filter(s@, *limits),
{
    let interior: u32 = limits.interior_limit as u32;
    is_below_edge_limit(s, limits.edge_limit) && apart(s[0], s[1]) <= interior && apart(s[1], s[2])
        <= interior && apart(s[2], s[3]) <= interior && apart(s[7], s[6]) <= interior && apart(
        s[6],
        s[5],
    ) <= interior && apart(s[5], s[4]) <= interior
}

fn has_high_edge_variance(s: &[u8; 8], threshold: u8) -> (r: bool)
    ensures
        r == high_edge_variance(s@, threshold),
{
    apart(s[2], s[3]) > threshold as u32 || apart(s[5], s[4]) > threshold as u32
}

fn step_of_edge(s: &[u8; 8], use_outer: bool) -> (r: i32)
    ensures
        r == step_across(s@, use_outer),
        -128 <= r <= 127,
{
    let outer: i32 = if use_outer {
        clamp_byte(to_signed(s[2]) - to_signed(s[5]))
    } else {
        0
    };
    clamp_byte(outer + 3 * (to_signed(s[4]) - to_signed(s[3])))
}

fn common_adjust(s: &mut [u8; 8], use_outer: bool) -> (r: i32)
    ensures
        final(s)@ == adjusted(old(s)@, use_outer),
        r == inner_adjustment(old(s)@, use_outer),
        -16 <= r <= 15,
{
    let step: i32 = step_of_edge(s, use_outer);
    let b: i32 = eighth(clamp_byte(step + 3));
    let a: i32 = eighth(clamp_byte(step + 4));
    let q0: u8 = to_pixel(to_signed(s[4]) - a);
    let p0: u8 = to_pixel(to_signed(s[3]) + b);
    s[3] = p0;
    s[4] = q0;
    a
}

fn share_of(step: i32, weight: i32) -> (r: i32)
    requires
        -128 <= step <= 127,
        weight == 9 || weight == 18 || weight == 27,
    ensures
        r == clamp_signed((weight * step + 63) / 128),
        -128 <= r <= 127,
{
    let v: i32 = weight * step + 63;
    assert(v >> 7 == v / 128) by (bit_vector);
    clamp_byte(v >> 7)
}

/// Filters a line of eight pixels.
pub fn filter_line(s: &mut [u8; 8], kind: FilterKind, limits: &FilterLimits)
    ensures
        final(s)@ == filtered_line(old(s)@, kind, *limits),
{
    let ghost b = s@;
    match kind {
        FilterKind::Simple => {
            if is_below_edge_limit(s, limits.edge_limit) {
                common_adjust(s, true);
            }
        },
        FilterKind::Macroblock => {
            if is_filtered(s, limits) {
                if has_high_edge_variance(s, limits.hev_threshold) {
                    common_adjust(s, true);
                } else {
                    let step: i32 = step_of_edge(s, true);
                    let a27: i32 = share_of(step, 27);
                    let a18: i32 = share_of(step, 18);
                    let a9: i32 = share_of(step, 9);
                    s[4] = to_pixel(to_signed(s[4]) - a27);
                    s[3] = to_pixel(to_signed(s[3]) + a27);
                    s[5] = to_pixel(to_signed(s[5]) - a18);
                    s[2] = to_pixel(to_signed(s[2]) + a18);
                    s[6] = to_pixel(to_signed(s[6]) - a9);
                    s[1] = to_pixel(to_signed(s[1]) + a9);
                    assert(s@ =~= widely_adjusted(b));
                }
            }
        },
        FilterKind::Subblock => {
            if is_filtered(s, limits) {
                let hv = has_high_edge_variance(s, limits.hev_threshold);
                let adjustment: i32 = common_adjust(s, hv) + 1;
                if !hv {
                    assert(adjustment >> 1 == adjustment / 2) by (bit_vector);
                    let a: i32 = adjustment >> 1;
                    s[2] = to_pixel(to_signed(s[2]) + a);
                    s[5] = to_pixel(to_signed(s[5]) - a);
                }
            }
        },
    }
}

/// The line across an edge at position `point` whose pixels are `step` apart.
pub open spec fn line_at(plane: Seq<u8>, point: int, step: int) -> Seq<u8> {
    seq![
        plane[point - 4 * step],
        plane[point - 3 * step],
        plane[point - 2 * step],
        plane[point - step],
        plane[point],
        plane[point + step],
        plane[point + 2 * step],
        plane[point + 3 * step],
    ]
}

/// A plane with the line across an edge replaced.
pub open spec fn with_line(plane: Seq<u8>, point: int, step: int, s: Seq<u8>) -> Seq<u8> {
    Seq::new(
        plane.len(),
        |n: int|
            if n == point - 4 * step {
                s[0]
            } else if n == point - 3 * step {
                s[1]
            } else if n == point - 2 * step {
                s[2]
            } else if n == point - step {
                s[3]
            } else if n == point {
                s[4]
            } else if n == point + step {
                s[5]
            } else if n == point + 2 * step {
                s[6]
            } else if n == point + 3 * step {
                s[7]
            } else {
                plane[n]
            },
    )
}

/// A plane after filtering the first `count` lines across an edge; the lines
/// are `along` apart and start at `point`.
pub open spec fn filtered_edge(
    plane: Seq<u8>,
    kind: FilterKind,
    limits: FilterLimits,
    point: int,
    step: int,
    along: int,
    count: int,
) -> Seq<u8>
    decreases count,
{
    if count <= 0 {
        plane
    } else {
        let before = filtered_edge(plane, kind, limits, point, step, along, count - 1);
        let p = point + (count - 1) * along;
        with_line(before, p, step, filtered_line(line_at(before, p, step), kind, limits))
    }
}

pub proof fn lemma_filtered_edge_len(
    plane: Seq<u8>,
    kind: FilterKind,
    limits: FilterLimits,
    point: int,
    step: int,
    along: int,
    count: int,
)
    ensures
        filtered_edge(plane, kind, limits, point, step, along, count).len() == plane.len(),
    decreases count,
{
    if count > 0 {
        lemma_filtered_edge_len(plane, kind, limits, point, step, along, count - 1);
    }
}

fn filter_point(
    plane: &mut Vec<u8>,
    kind: FilterKind,
    limits: &FilterLimits,
    point: usize,
    step: usize,
)
    requires
        step > 0,
        4 * step <= point,
        point + 3 * step < old(plane)@.len(),
    ensures
        final(plane)@ == with_line(
            old(plane)@,
            point as int,
            step as int,
            filtered_line(line_at(old(plane)@, point as int, step as int), kind, *limits),
        ),
{
    let len: usize = plane.len();
    let mut s: [u8; 8] = [
        plane[point - 4 * step],
        plane[point - 3 * step],
        plane[point - 2 * step],
        plane[point - step],
        plane[point],
        plane[point + step],
        plane[point + 2 * step],
        plane[point + 3 * step],
    ];
    let ghost b = plane@;
    assert(s@ =~= line_at(b, point as int, step as int));
    filter_line(&mut s, kind, limits);
    plane[point - 4 * step] = s[0];
    plane[point - 3 * step] = s[1];
    plane[point - 2 * step] = s[2];
    plane[point - step] = s[3];
    plane[point] = s[4];
    plane[point + step] = s[5];
    plane[point + 2 * step] = s[6];
    plane[point + 3 * step] = s[7];
    assert(plane@ =~= with_line(b, point as int, step as int, s@));
}

/// Filters `count` lines across an edge.
pub fn filter_edge(
    plane: &mut Vec<u8>,
    kind: FilterKind,
    limits: &FilterLimits,
    point: usize,
    step: usize,
    along: usize,
    count: usize,
)
    requires
        step > 0,
        count > 0,
        4 * step <= point,
        point + (count - 1) * along + 3 * step < old(plane)@.len(),
    ensures
        final(plane)@ == filtered_edge(
            old(plane)@,
            kind,
            *limits,
            point as int,
            step as int,
            along as int,
            count as int,
        ),
        final(plane)@.len() == old(plane)@.len(),
{
    let ghost b = plane@;
    let len: usize = plane.len();
    let mut p: usize = point;
    let mut i: usize = 0;
    proof {
        assert(0 * along == 0) by (nonlinear_arith);
    }
    while i < count
        invariant
            i <= count,
            step > 0,
            count > 0,
            4 * step <= point <= p,
            point + (count - 1) * along + 3 * step < len,
            len == b.len() == plane@.len(),
            p == point + i * along || i == count,
            plane@ == filtered_edge(
                b,
                kind,
                *limits,
                point as int,
                step as int,
                along as int,
                i as int,
            ),
        decreases count - i,
    {
        proof {
            assert(i * along <= (count - 1) * along) by (nonlinear_arith)
                requires
                    i <= count - 1,
                    0 <= along,
            ;
            assert((i + 1) * along == i * along + along) by (nonlinear_arith);
            lemma_filtered_edge_len(
                b,
                kind,
                *limits,
                point as int,
                step as int,
                along as int,
                i + 1,
            );
        }
        filter_point(plane, kind, limits, p, step);
        i = i + 1;
        if i < count {
            proof {
                assert(i * along <= (count - 1) * along) by (nonlinear_arith)
                    requires
                        i <= count - 1,
                        0 <= along,
                ;
            }
            p = p + along;
        }
    }
}

} // verus!
