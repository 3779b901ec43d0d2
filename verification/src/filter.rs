//! The deblocking of a reconstructed frame.
use vstd::prelude::*;

use crate::blocks::fits;
use crate::common::{LumaMode, Segment};
use crate::encoder::{MacroblockInfo, Vp8Encoder};
use crate::loop_filter::{filter_edge, filtered_edge, FilterKind, FilterLimits};
use crate::model::{segment_for, Canvas, Decision, Scene};
use crate::segments::{lemma_macroblock_fits, lemma_macroblock_position};

verus! {

/// Quantiser indices for each step of the filter level.
pub const FILTER_LEVEL_DIVISOR: u32 = 8;

/// Filter level for a quantiser index: an eighth of it.
pub open spec fn filter_level_for(quant_index: int) -> int {
    if quant_index / 8 < 63 {
        quant_index / 8
    } else {
        63
    }
}

/// Filter level for a quantiser index.
pub fn derive_filter_level(quant_index: u8) -> (level: u8)
    ensures
        level == filter_level_for(quant_index as int),
        8 * level <= quant_index < 8 * level + 8,
        level <= 63,
{
    let level: u32 = quant_index as u32 / FILTER_LEVEL_DIVISOR;
    if level < 63 {
        level as u8
    } else {
        63
    }
}

/// Filter settings of a frame.
pub struct FilterSettings {
    pub filter_type: bool,
    pub filter_level: u8,
    pub sharpness_level: u8,
    pub segments_enabled: bool,
}

/// Filter level of a macroblock, limited to what the format allows.
pub open spec fn macroblock_filter_level(settings: FilterSettings, segment: Segment) -> int {
    let level = if !settings.segments_enabled {
        settings.filter_level as int
    } else if segment.delta_values {
        settings.filter_level + segment.loopfilter_level
    } else {
        segment.loopfilter_level as int
    };
    if level < 0 {
        0
    } else if level > 63 {
        63
    } else {
        level
    }
}

/// Interior limit for a filter level.
pub open spec fn interior_limit_for(level: int, sharpness: u8) -> int {
    let reduced = if sharpness == 0 {
        level
    } else {
        let shifted = if sharpness > 4 {
            level / 4
        } else {
            level / 2
        };
        if shifted > 9 - sharpness {
            9 - sharpness
        } else {
            shifted
        }
    };
    if reduced == 0 {
        1
    } else {
        reduced
    }
}

/// Threshold of high edge variance for a filter level.
pub open spec fn hev_threshold_for(level: int) -> int {
    if level >= 40 {
        2
    } else if level >= 15 {
        1
    } else {
        0
    }
}

/// Filter level, interior limit and variance threshold of a macroblock.
pub open spec fn filter_parameters(settings: FilterSettings, segment: Segment) -> (int, int, int) {
    if settings.filter_level == 0 {
        (0, 0, 0)
    } else {
        let level = macroblock_filter_level(settings, segment);
        (level, interior_limit_for(level, settings.sharpness_level), hev_threshold_for(level))
    }
}

/// Limits for the edges of a macroblock.
pub open spec fn outer_limits(p: (int, int, int)) -> FilterLimits {
    FilterLimits {
        hev_threshold: p.2 as u8,
        interior_limit: p.1 as u8,
        edge_limit: ((p.0 + 2) * 2 + p.1) as u8,
    }
}

/// Limits for the edges of sub-blocks.
pub open spec fn inner_limits(p: (int, int, int)) -> FilterLimits {
    FilterLimits {
        hev_threshold: p.2 as u8,
        interior_limit: p.1 as u8,
        edge_limit: (p.0 * 2 + p.1) as u8,
    }
}

/// A plane after filtering the first `k` vertical edges inside a macroblock.
pub open spec fn filtered_columns(
    plane: Seq<u8>,
    kind: FilterKind,
    limits: FilterLimits,
    w: int,
    px: int,
    py: int,
    size: int,
    k: int,
) -> Seq<u8>
    decreases k,
{
    if k <= 0 {
        plane
    } else {
        filtered_edge(
            filtered_columns(plane, kind, limits, w, px, py, size, k - 1),
            kind,
            limits,
            py * w + (px + 4 * k),
            1,
            w,
            size,
        )
    }
}

/// A plane after filtering the first `k` horizontal edges inside a macroblock.
pub open spec fn filtered_rows(
    plane: Seq<u8>,
    kind: FilterKind,
    limits: FilterLimits,
    w: int,
    px: int,
    py: int,
    size: int,
    k: int,
) -> Seq<u8>
    decreases k,
{
    if k <= 0 {
        plane
    } else {
        filtered_edge(
            filtered_rows(plane, kind, limits, w, px, py, size, k - 1),
            kind,
            limits,
            (py + 4 * k) * w + px,
            w,
            1,
            size,
        )
    }
}

/// Which edges of a macroblock are filtered, and how.
pub struct MacroblockFilter {
    pub outer: FilterKind,
    pub inner: FilterKind,
    pub outer_limits: FilterLimits,
    pub inner_limits: FilterLimits,
    /// the left edge
    pub left: bool,
    /// the top edge
    pub top: bool,
    /// the edges inside
    pub inside: bool,
}

/// A plane with one macroblock filtered: its left edge, the vertical edges
/// inside, its top edge, and the horizontal edges inside.
pub open spec fn filtered_macroblock(
    plane: Seq<u8>,
    f: MacroblockFilter,
    w: int,
    px: int,
    py: int,
    size: int,
) -> Seq<u8> {
    let a = if f.left {
        filtered_edge(plane, f.outer, f.outer_limits, py * w + px, 1, w, size)
    } else {
        plane
    };
    let b = if f.inside {
        filtered_columns(a, f.inner, f.inner_limits, w, px, py, size, size / 4 - 1)
    } else {
        a
    };
    let c = if f.top {
        filtered_edge(b, f.outer, f.outer_limits, py * w + px, w, 1, size)
    } else {
        b
    };
    if f.inside {
        filtered_rows(c, f.inner, f.inner_limits, w, px, py, size, size / 4 - 1)
    } else {
        c
    }
}

/// How a macroblock is filtered. The edges inside are left alone if it is
/// predicted as a whole and has no coefficients.
pub open spec fn filter_of(
    settings: FilterSettings,
    p: (int, int, int),
    d: Decision,
    mbx: int,
    mby: int,
) -> MacroblockFilter {
    MacroblockFilter {
        outer: if settings.filter_type {
            FilterKind::Simple
        } else {
            FilterKind::Macroblock
        },
        inner: if settings.filter_type {
            FilterKind::Simple
        } else {
            FilterKind::Subblock
        },
        outer_limits: outer_limits(p),
        inner_limits: inner_limits(p),
        left: mbx > 0,
        top: mby > 0,
        inside: d.luma_mode == LumaMode::B || (!d.coeffs_skipped && d.non_zero_dct),
    }
}

/// A frame with macroblock `j` filtered. The simple filter leaves chroma alone.
pub open spec fn filter_step(
    scene: Scene,
    settings: FilterSettings,
    ds: Seq<Decision>,
    canvas: Canvas,
    j: int,
) -> Canvas {
    let mbx = j % scene.mbw;
    let mby = j / scene.mbw;
    let d = ds[j];
    let p = filter_parameters(settings, segment_for(scene.segments, d.segment_id));
    let f = filter_of(settings, p, d, mbx, mby);
    if p.0 == 0 {
        canvas
    } else {
        Canvas {
            y: filtered_macroblock(canvas.y, f, scene.mbw * 16, mbx * 16, mby * 16, 16),
            u: if settings.filter_type {
                canvas.u
            } else {
                filtered_macroblock(canvas.u, f, scene.mbw * 8, mbx * 8, mby * 8, 8)
            },
            v: if settings.filter_type {
                canvas.v
            } else {
                filtered_macroblock(canvas.v, f, scene.mbw * 8, mbx * 8, mby * 8, 8)
            },
        }
    }
}

/// A frame with the first `i` macroblocks filtered.
pub open spec fn filtered_frame(
    scene: Scene,
    settings: FilterSettings,
    ds: Seq<Decision>,
    canvas: Canvas,
    i: int,
) -> Canvas
    decreases i,
{
    if i <= 0 {
        canvas
    } else {
        filter_step(
            scene,
            settings,
            ds,
            filtered_frame(scene, settings, ds, canvas, i - 1),
            i - 1,
        )
    }
}

/// Lines across a vertical edge of a macroblock, `dx` pixels from its left.
proof fn lemma_vertical_edge(len: int, w: int, px: int, py: int, size: int, dx: int)
    requires
        fits(len, w, px, py, size),
        0 <= dx <= size - 4,
        px + dx >= 4,
        size == 8 || size == 16,
    ensures
        0 <= py * w,
        4 <= py * w + (px + dx),
        py * w + (px + dx) + (size - 1) * w + 3 < len,
{
    assert(0 <= py * w) by (nonlinear_arith)
        requires
            0 <= py,
            0 <= w,
    ;
    assert(py * w + (size - 1) * w + w == w * (py + size)) by (nonlinear_arith);
}

/// Lines across a horizontal edge of a macroblock, `dy` pixels from its top.
proof fn lemma_horizontal_edge(len: int, w: int, px: int, py: int, size: int, dy: int)
    requires
        fits(len, w, px, py, size),
        0 <= dy <= size - 4,
        py + dy >= 4,
        size == 8 || size == 16,
    ensures
        0 <= (py + dy) * w,
        4 * w <= (py + dy) * w + px,
        (py + dy) * w + px + (size - 1) * 1 + 3 * w < len,
{
    assert(4 * w <= (py + dy) * w) by (nonlinear_arith)
        requires
            4 <= py + dy,
            0 <= w,
    ;
    assert((py + dy) * w + 4 * w <= w * (py + size)) by (nonlinear_arith)
        requires
            dy + 4 <= size,
            0 <= w,
    ;
}

fn filter_columns(
    plane: &mut Vec<u8>,
    kind: FilterKind,
    limits: &FilterLimits,
    w: usize,
    px: usize,
    py: usize,
    size: usize,
)
    requires
        size == 8 || size == 16,
        fits(old(plane)@.len() as int, w as int, px as int, py as int, size as int),
    ensures
        final(plane)@.len() == old(plane)@.len(),
        final(plane)@ == filtered_columns(
            old(plane)@,
            kind,
            *limits,
            w as int,
            px as int,
            py as int,
            size as int,
            size as int / 4 - 1,
        ),
{
    let ghost b = plane@;
    let len: usize = plane.len();
    let last: usize = size / 4 - 1;
    let mut k: usize = 0;
    while k < last
        invariant
            k <= last == size / 4 - 1,
            size == 8 || size == 16,
            len == b.len() == plane@.len(),
            fits(len as int, w as int, px as int, py as int, size as int),
            plane@ == filtered_columns(
                b,
                kind,
                *limits,
                w as int,
                px as int,
                py as int,
                size as int,
                k as int,
            ),
        decreases last - k,
    {
        k = k + 1;
        proof {
            lemma_vertical_edge(
                len as int,
                w as int,
                px as int,
                py as int,
                size as int,
                4 * k as int,
            );
        }
        filter_edge(plane, kind, limits, py * w + (px + 4 * k), 1, w, size);
    }
}

fn filter_rows(
    plane: &mut Vec<u8>,
    kind: FilterKind,
    limits: &FilterLimits,
    w: usize,
    px: usize,
    py: usize,
    size: usize,
)
    requires
        size == 8 || size == 16,
        fits(old(plane)@.len() as int, w as int, px as int, py as int, size as int),
    ensures
        final(plane)@.len() == old(plane)@.len(),
        final(plane)@ == filtered_rows(
            old(plane)@,
            kind,
            *limits,
            w as int,
            px as int,
            py as int,
            size as int,
            size as int / 4 - 1,
        ),
{
    let ghost b = plane@;
    let len: usize = plane.len();
    let last: usize = size / 4 - 1;
    let mut k: usize = 0;
    while k < last
        invariant
            k <= last == size / 4 - 1,
            size == 8 || size == 16,
            len == b.len() == plane@.len(),
            fits(len as int, w as int, px as int, py as int, size as int),
            plane@ == filtered_rows(
                b,
                kind,
                *limits,
                w as int,
                px as int,
                py as int,
                size as int,
                k as int,
            ),
        decreases last - k,
    {
        k = k + 1;
        proof {
            lemma_horizontal_edge(
                len as int,
                w as int,
                px as int,
                py as int,
                size as int,
                4 * k as int,
            );
        }
        filter_edge(plane, kind, limits, (py + 4 * k) * w + px, w, 1, size);
    }
}

/// Filters the edges of a macroblock in a plane.
pub fn filter_macroblock(
    plane: &mut Vec<u8>,
    f: &MacroblockFilter,
    w: usize,
    px: usize,
    py: usize,
    size: usize,
)
    requires
        size == 8 || size == 16,
        fits(old(plane)@.len() as int, w as int, px as int, py as int, size as int),
        f.left ==> px >= 4,
        f.top ==> py >= 4,
    ensures
        final(plane)@.len() == old(plane)@.len(),
        final(plane)@ == filtered_macroblock(
            old(plane)@,
            *f,
            w as int,
            px as int,
            py as int,
            size as int,
        ),
{
    let len: usize = plane.len();
    if f.left {
        proof {
            lemma_vertical_edge(len as int, w as int, px as int, py as int, size as int, 0);
        }
        filter_edge(plane, f.outer, &f.outer_limits, py * w + px, 1, w, size);
    }
    if f.inside {
        filter_columns(plane, f.inner, &f.inner_limits, w, px, py, size);
    }
    if f.top {
        proof {
            lemma_horizontal_edge(len as int, w as int, px as int, py as int, size as int, 0);
        }
        filter_edge(plane, f.outer, &f.outer_limits, py * w + px, w, 1, size);
    }
    if f.inside {
        filter_rows(plane, f.inner, &f.inner_limits, w, px, py, size);
    }
}

impl Vp8Encoder {
    /// Filter settings of the frame.
    pub open spec fn filter_settings(&self) -> FilterSettings {
        FilterSettings {
            filter_type: self.frame.filter_type,
            filter_level: self.frame.filter_level,
            sharpness_level: self.frame.sharpness_level,
            segments_enabled: self.segments_enabled,
        }
    }

    /// Filter level, interior limit and variance threshold of a macroblock, as
    /// a decoder derives them from the frame header.
    pub fn calculate_filter_parameters(&self, segment_id: usize) -> (r: (u8, u8, u8))
        requires
            segment_id < 4,
            self.frame.sharpness_level <= 9,
        ensures
            (r.0 as int, r.1 as int, r.2 as int) == filter_parameters(
                self.filter_settings(),
                self.segments@[segment_id as int],
            ),
            r.0 <= 63,
            r.1 <= 63,
            r.2 <= 2,
    {
        let segment = self.segments[segment_id];
        let frame_level: i32 = self.frame.filter_level as i32;
        if frame_level == 0 {
            return (0, 0, 0);
        }
        let level: i32 = if !self.segments_enabled {
            frame_level
        } else if segment.delta_values {
            frame_level + segment.loopfilter_level as i32
        } else {
            segment.loopfilter_level as i32
        };
        let filter_level: u8 = if level < 0 {
            0
        } else if level > 63 {
            63
        } else {
            level as u8
        };
        let sharpness: u8 = self.frame.sharpness_level;
        let mut interior_limit: u8 = filter_level;
        if sharpness > 0 {
            interior_limit =
            if sharpness > 4 {
                interior_limit / 4
            } else {
                interior_limit / 2
            };
            if interior_limit > 9 - sharpness {
                interior_limit = 9 - sharpness;
            }
        }
        if interior_limit == 0 {
            interior_limit = 1;
        }
        let hev_threshold: u8 = if filter_level >= 40 {
            2
        } else if filter_level >= 15 {
            1
        } else {
            0
        };
        (filter_level, interior_limit, hev_threshold)
    }

    /// How a macroblock is filtered.
    fn macroblock_filter(&self, info: &MacroblockInfo, p: (u8, u8, u8), mbx: usize, mby: usize) -> (f:
        MacroblockFilter)
        requires
            p.0 <= 63,
            p.1 <= 63,
        ensures
            f == filter_of(
                self.filter_settings(),
                (p.0 as int, p.1 as int, p.2 as int),
                info@,
                mbx as int,
                mby as int,
            ),
    {
        let (filter_level, interior_limit, hev_threshold) = p;
        let simple = self.frame.filter_type;
        MacroblockFilter {
            outer: if simple {
                FilterKind::Simple
            } else {
                FilterKind::Macroblock
            },
            inner: if simple {
                FilterKind::Simple
            } else {
                FilterKind::Subblock
            },
            outer_limits: FilterLimits {
                hev_threshold,
                interior_limit,
                edge_limit: (filter_level + 2) * 2 + interior_limit,
            },
            inner_limits: FilterLimits {
                hev_threshold,
                interior_limit,
                edge_limit: filter_level * 2 + interior_limit,
            },
            left: mbx > 0,
            top: mby > 0,
            inside: info.luma_mode == LumaMode::B || (!info.coeffs_skipped && info.non_zero_dct),
        }
    }

    /// The frame has what the filter reads: reconstructed planes of its size,
    /// and a decision for every macroblock. Of a decision the sub-block modes
    /// do not matter, nor whether it names a segment.
    pub open spec fn filterable(&self) -> bool {
        &&& self.canvas().wf(self.macroblock_width as int, self.macroblock_height as int)
        &&& self.frame.sharpness_level <= 9
        &&& self.mb_info_cache@.len() == self.count()
        &&& forall|i: int|
            0 <= i < self.mb_info_cache@.len() ==> {
                &&& (#[trigger] self.mb_info_cache@[i]) is Some
                &&& match self.mb_info_cache@[i].unwrap().segment_id {
                    Some(id) => id < 4,
                    None => true,
                }
            }
    }

    /// Filters macroblock `i` of the frame.
    fn filter_frame_macroblock(&mut self, i: usize)
        requires
            old(self).filterable(),
            i < old(self).count(),
        ensures
            *final(self) == (Vp8Encoder {
                recon_y: final(self).recon_y,
                recon_u: final(self).recon_u,
                recon_v: final(self).recon_v,
                ..*old(self)
            }),
            final(self).filterable(),
            final(self).canvas() == filter_step(
                old(self).scene(),
                old(self).filter_settings(),
                old(self).cached(),
                old(self).canvas(),
                i as int,
            ),
    {
        let ghost scene = self.scene();
        let ghost canvas = self.canvas();
        let ghost settings = self.filter_settings();
        let ghost ds = self.cached();
        proof {
            lemma_macroblock_position(i as int, scene.mbw, scene.mbh);
            assert(self.mb_info_cache@[i as int] is Some);
        }
        let mbw: usize = self.macroblock_width as usize;
        let mbx: usize = i % mbw;
        let mby: usize = i / mbw;
        proof {
            lemma_macroblock_fits(mbx as int, mby as int, scene.mbw, scene.mbh, 16);
            lemma_macroblock_fits(mbx as int, mby as int, scene.mbw, scene.mbh, 8);
        }
        let info: MacroblockInfo = self.mb_info_cache[i].unwrap();
        assert(info@ == ds[i as int]);
        let segment_id: usize = match info.segment_id {
            Some(id) => id,
            None => 0,
        };
        let p = self.calculate_filter_parameters(segment_id);
        if p.0 == 0 {
            return ;
        }
        let f = self.macroblock_filter(&info, p, mbx, mby);
        filter_macroblock(&mut self.recon_y, &f, mbw * 16, mbx * 16, mby * 16, 16);
        if !self.frame.filter_type {
            filter_macroblock(&mut self.recon_u, &f, mbw * 8, mbx * 8, mby * 8, 8);
            filter_macroblock(&mut self.recon_v, &f, mbw * 8, mbx * 8, mby * 8, 8);
        }
        assert(self.canvas() =~= filter_step(scene, settings, ds, canvas, i as int));
    }

    /// Deblocks the reconstructed frame as a decoder will, one macroblock
    /// after the other.
    pub fn apply_loop_filter(&mut self)
        requires
            old(self).frame.filter_level != 0 ==> old(self).filterable(),
        ensures
            *final(self) == (Vp8Encoder {
                recon_y: final(self).recon_y,
                recon_u: final(self).recon_u,
                recon_v: final(self).recon_v,
                ..*old(self)
            }),
            old(self).in_frame() ==> final(self).in_frame(),
            old(self).frame.filter_level == 0 ==> *final(self) == *old(self),
            final(self).canvas() == if old(self).frame.filter_level == 0 {
                old(self).canvas()
            } else {
                filtered_frame(
                    old(self).scene(),
                    old(self).filter_settings(),
                    old(self).cached(),
                    old(self).canvas(),
                    old(self).count(),
                )
            },
    {
        if self.frame.filter_level == 0 {
            return ;
        }
        let ghost initial = *self;
        let ghost scene = self.scene();
        let ghost settings = self.filter_settings();
        let ghost ds = self.cached();
        let ghost canvas = self.canvas();
        let n: usize = self.mb_info_cache.len();
        let mut i: usize = 0;
        while i < n
            invariant
                i <= n,
                n == initial.count(),
                initial.filterable(),
                scene == initial.scene(),
                settings == initial.filter_settings(),
                ds == initial.cached(),
                *self == (Vp8Encoder {
                    recon_y: self.recon_y,
                    recon_u: self.recon_u,
                    recon_v: self.recon_v,
                    ..initial
                }),
                self.filterable(),
                self.canvas() == filtered_frame(scene, settings, ds, canvas, i as int),
            decreases n - i,
        {
            assert(self.scene() == scene);
            assert(self.cached() == ds);
            self.filter_frame_macroblock(i);
            i = i + 1;
        }
    }
}

} // verus!
