use webp_lossy::common::{
    ChromaMode, IntraMode, LumaMode, COEFF_BANDS, DCT_CAT_BASE, DCT_TOKEN_TREE,
    KEYFRAME_BPRED_MODE_TREE, KEYFRAME_UV_MODE_PROBS, KEYFRAME_UV_MODE_TREE, KEYFRAME_YMODE_PROBS,
    KEYFRAME_YMODE_TREE, PROB_DCT_CAT, SEGMENT_ID_TREE, ZIGZAG,
};
use webp_lossy::encoder::{ColorType, Complexity, EncodingError, MacroblockInfo, Vp8Encoder};
use webp_lossy::lossy::{encode_frame_lossy, try_encode_frame_lossy};
use webp_lossy::probabilities::skip_probability;
use webp_lossy::tables::coeff_probs::default_prob_at;
use webp_lossy::tables::mode_probs::bpred_probs_for;
use webp_lossy::tables::quantizers::{ac_step_at, dc_step_at};
use webp_lossy::tables::update_probs::update_flag_prob_at;
use webp_lossy::yuv::convert_image_yuv;

// ---------------------------------------------------------------------------
// A decoder of key frames.

struct Bits {
    bytes: Vec<u8>,
    next: usize,
    value: u32,
    range: u32,
    bit_count: u32,
    /// how often each branch of the token tree has been read
    token_counts: Vec<u64>,
}

impl Bits {
    fn new(bytes: &[u8]) -> Bits {
        let first = u32::from(bytes.first().copied().unwrap_or(0));
        let second = u32::from(bytes.get(1).copied().unwrap_or(0));
        Bits {
            bytes: bytes.to_vec(),
            next: 2,
            value: (first << 8) | second,
            range: 255,
            bit_count: 0,
            token_counts: vec![0; 2112],
        }
    }

    fn bool(&mut self, prob: u8) -> bool {
        let split = 1 + (((self.range - 1) * u32::from(prob)) >> 8);
        let bit = self.value >= split << 8;
        if bit {
            self.range -= split;
            self.value -= split << 8;
        } else {
            self.range = split;
        }
        while self.range < 128 {
            self.value <<= 1;
            self.range <<= 1;
            self.bit_count += 1;
            if self.bit_count == 8 {
                self.bit_count = 0;
                self.value |= u32::from(self.bytes.get(self.next).copied().unwrap_or(0));
                self.next += 1;
            }
        }
        bit
    }

    fn flag(&mut self) -> bool {
        self.bool(128)
    }

    fn literal(&mut self, bits: usize) -> i32 {
        let mut v = 0;
        for _ in 0..bits {
            v = 2 * v + i32::from(self.flag());
        }
        v
    }

    fn signed(&mut self, bits: usize) -> i32 {
        let v = self.literal(bits);
        if self.flag() {
            -v
        } else {
            v
        }
    }

    fn optional(&mut self, bits: usize) -> i32 {
        if self.flag() {
            self.signed(bits)
        } else {
            0
        }
    }

    fn tree(&mut self, tree: &[i8], probs: &[u8], start: usize) -> i32 {
        let mut i = start;
        loop {
            let next = tree[i + usize::from(self.bool(probs[i / 2]))];
            if next <= 0 {
                return -i32::from(next);
            }
            i = next as usize;
        }
    }

    /// Reads a token with the probabilities from `at` on.
    fn token(&mut self, probs: &[u8], at: usize, start: usize) -> i32 {
        let mut i = start;
        loop {
            let slot = at + i / 2;
            let bit = self.bool(probs[slot]);
            self.token_counts[2 * slot + usize::from(bit)] += 1;
            let next = DCT_TOKEN_TREE[i + usize::from(bit)];
            if next <= 0 {
                return -i32::from(next);
            }
            i = next as usize;
        }
    }
}

#[derive(Clone, Copy)]
struct Steps {
    y: [i32; 2],
    y2: [i32; 2],
    uv: [i32; 2],
}

fn steps_of(index: i32) -> Steps {
    let i = index.max(0).min(127) as usize;
    let dc = i32::from(dc_step_at(i));
    let ac = i32::from(ac_step_at(i));
    Steps {
        y: [dc, ac],
        y2: [2 * dc, (155 * ac / 100).max(8)],
        uv: [dc.min(132), ac],
    }
}

#[derive(Clone)]
struct Decoded {
    mbw: usize,
    width: usize,
    height: usize,
    planes: [Vec<u8>; 3],
    filter_level: i32,
    modes: Vec<i32>,
    skips: Vec<bool>,
    token_counts: Vec<u64>,
}

fn clamp(v: i32) -> u8 {
    v.max(0).min(255) as u8
}

fn inverse_wht(b: &[i32; 16]) -> [i32; 16] {
    let mut t = [0i32; 16];
    for i in 0..4 {
        let a1 = b[i] + b[12 + i];
        let b1 = b[4 + i] + b[8 + i];
        let c1 = b[4 + i] - b[8 + i];
        let d1 = b[i] - b[12 + i];
        t[i] = a1 + b1;
        t[4 + i] = c1 + d1;
        t[8 + i] = a1 - b1;
        t[12 + i] = d1 - c1;
    }
    let mut out = [0i32; 16];
    for i in 0..4 {
        let r = &t[4 * i..4 * i + 4];
        let (a1, b1, c1, d1) = (r[0] + r[3], r[1] + r[2], r[1] - r[2], r[0] - r[3]);
        out[4 * i] = (a1 + b1 + 3) >> 3;
        out[4 * i + 1] = (c1 + d1 + 3) >> 3;
        out[4 * i + 2] = (a1 - b1 + 3) >> 3;
        out[4 * i + 3] = (d1 - c1 + 3) >> 3;
    }
    out
}

fn inverse_dct(b: &[i32; 16]) -> [i32; 16] {
    let m1 = |v: i32| v + ((v * 20091) >> 16);
    let m2 = |v: i32| (v * 35468) >> 16;
    let mut t = [0i32; 16];
    for i in 0..4 {
        let (a1, b1) = (b[i] + b[8 + i], b[i] - b[8 + i]);
        let c1 = m2(b[4 + i]) - m1(b[12 + i]);
        let d1 = m1(b[4 + i]) + m2(b[12 + i]);
        t[i] = a1 + d1;
        t[12 + i] = a1 - d1;
        t[4 + i] = b1 + c1;
        t[8 + i] = b1 - c1;
    }
    let mut out = [0i32; 16];
    for i in 0..4 {
        let r = &t[4 * i..4 * i + 4];
        let (a1, b1) = (r[0] + r[2], r[0] - r[2]);
        let c1 = m2(r[1]) - m1(r[3]);
        let d1 = m1(r[1]) + m2(r[3]);
        out[4 * i] = (a1 + d1 + 4) >> 3;
        out[4 * i + 3] = (a1 - d1 + 4) >> 3;
        out[4 * i + 1] = (b1 + c1 + 4) >> 3;
        out[4 * i + 2] = (b1 - c1 + 4) >> 3;
    }
    out
}

/// Pixel of a plane of which only what precedes the macroblock is known.
fn border(plane: &[u8], stride: usize, x: i32, y: i32) -> i32 {
    if y < 0 {
        127
    } else if x < 0 {
        129
    } else {
        i32::from(plane[y as usize * stride + x as usize])
    }
}

fn corner(plane: &[u8], stride: usize, x: i32, y: i32) -> i32 {
    if y < 0 {
        127
    } else {
        border(plane, stride, x, y)
    }
}

fn predict(plane: &mut [u8], stride: usize, size: usize, mbx: usize, mby: usize, mode: i32) {
    let (x0, y0) = (mbx * size, mby * size);
    let above: Vec<i32> =
        (0..size).map(|x| border(plane, stride, (x0 + x) as i32, y0 as i32 - 1)).collect();
    let left: Vec<i32> =
        (0..size).map(|y| border(plane, stride, x0 as i32 - 1, (y0 + y) as i32)).collect();
    let p = corner(plane, stride, x0 as i32 - 1, y0 as i32 - 1);
    let shift = if size == 16 { 3 } else { 2 };
    let mut sum = 0;
    let mut n = shift;
    if mbx > 0 {
        sum += left.iter().sum::<i32>();
        n += 1;
    }
    if mby > 0 {
        sum += above.iter().sum::<i32>();
        n += 1;
    }
    let dc = if n == shift { 128 } else { (sum + (1 << (n - 1))) >> n };
    for y in 0..size {
        for x in 0..size {
            let v = match mode {
                0 => dc,
                1 => above[x],
                2 => left[y],
                _ => left[y] + above[x] - p,
            };
            plane[(y0 + y) * stride + x0 + x] = clamp(v);
        }
    }
}

/// The four by four pixels for an edge: `e[0..4]` is the left side from the
/// bottom, `e[4]` the corner, `e[5..13]` the row above.
fn predict_small(e: &[i32; 13], mode: i32) -> [[i32; 4]; 4] {
    let a = |i: usize| e[5 + i];
    let l = |i: usize| e[3 - i];
    let p = e[4];
    let avg3 = |i: usize| (e[i - 1] + 2 * e[i] + e[i + 1] + 2) >> 2;
    let avg2 = |i: usize| (e[i] + e[i + 1] + 1) >> 1;
    let mut b = [[0i32; 4]; 4];
    for r in 0..4usize {
        for c in 0..4usize {
            b[r][c] = match mode {
                0 => {
                    let mut v = 4;
                    for i in 0..4 {
                        v += a(i) + l(i);
                    }
                    v >> 3
                }
                1 => i32::from(clamp(l(r) + a(c) - p)),
                2 => avg3(5 + c),
                3 => {
                    if r == 3 {
                        (l(2) + 3 * l(3) + 2) >> 2
                    } else {
                        avg3(3 - r)
                    }
                }
                4 => {
                    if r + c == 6 {
                        (a(6) + 3 * a(7) + 2) >> 2
                    } else {
                        avg3(6 + r + c)
                    }
                }
                5 => avg3(4 + c - r),
                6 => match (r, c) {
                    (3, 0) => avg3(2),
                    (2, 0) => avg3(3),
                    (3, 1) | (1, 0) => avg3(4),
                    (2, 1) | (0, 0) => avg2(4),
                    (3, 2) | (1, 1) => avg3(5),
                    (2, 2) | (0, 1) => avg2(5),
                    (3, 3) | (1, 2) => avg3(6),
                    (2, 3) | (0, 2) => avg2(6),
                    (1, 3) => avg3(7),
                    _ => avg2(7),
                },
                7 => match (r, c) {
                    (0, 0) => avg2(5),
                    (1, 0) => avg3(6),
                    (2, 0) | (0, 1) => avg2(6),
                    (1, 1) | (3, 0) => avg3(7),
                    (2, 1) | (0, 2) => avg2(7),
                    (3, 1) | (1, 2) => avg3(8),
                    (2, 2) | (0, 3) => avg2(8),
                    (3, 2) | (1, 3) => avg3(9),
                    (2, 3) => avg3(10),
                    _ => avg3(11),
                },
                8 => match (r, c) {
                    (3, 0) => avg2(0),
                    (3, 1) => avg3(1),
                    (2, 0) | (3, 2) => avg2(1),
                    (2, 1) | (3, 3) => avg3(2),
                    (2, 2) | (1, 0) => avg2(2),
                    (2, 3) | (1, 1) => avg3(3),
                    (1, 2) | (0, 0) => avg2(3),
                    (1, 3) | (0, 1) => avg3(4),
                    (0, 2) => avg3(5),
                    _ => avg3(6),
                },
                _ => match (r, c) {
                    (0, 0) => (l(0) + l(1) + 1) >> 1,
                    (0, 1) => (l(0) + 2 * l(1) + l(2) + 2) >> 2,
                    (0, 2) | (1, 0) => (l(1) + l(2) + 1) >> 1,
                    (0, 3) | (1, 1) => (l(1) + 2 * l(2) + l(3) + 2) >> 2,
                    (1, 2) | (2, 0) => (l(2) + l(3) + 1) >> 1,
                    (1, 3) | (2, 1) => (l(2) + 3 * l(3) + 2) >> 2,
                    _ => l(3),
                },
            };
        }
    }
    b
}

fn add_residue(plane: &mut [u8], stride: usize, x0: usize, y0: usize, residue: &[i32; 16]) {
    for y in 0..4 {
        for x in 0..4 {
            let i = (y0 + y) * stride + x0 + x;
            plane[i] = clamp(i32::from(plane[i]) + residue[4 * y + x]);
        }
    }
}

/// Levels of a block in raster order, and whether there are any.
fn read_block(
    bits: &mut Bits,
    probs: &[u8],
    plane: usize,
    first: usize,
    context: usize,
) -> ([i32; 16], bool) {
    let mut out = [0i32; 16];
    let mut ctx = context;
    let mut skip_eob = false;
    let mut i = first;
    while i < 16 {
        let at = ((plane * 8 + usize::from(COEFF_BANDS[i])) * 3 + ctx) * 11;
        let token = bits.token(probs, at, if skip_eob { 2 } else { 0 });
        if token == 11 {
            break;
        }
        let magnitude = if token <= 4 {
            token
        } else {
            let cat = (token - 5) as usize;
            let mut extra = 0;
            for &p in PROB_DCT_CAT[cat].iter().take_while(|&&p| p != 0) {
                extra = 2 * extra + i32::from(bits.bool(p));
            }
            i32::from(DCT_CAT_BASE[cat]) + extra
        };
        skip_eob = magnitude == 0;
        ctx = magnitude.min(2) as usize;
        if magnitude != 0 {
            out[usize::from(ZIGZAG[i])] = if bits.flag() { -magnitude } else { magnitude };
        }
        i += 1;
    }
    (out, i > first)
}

fn scaled(levels: &[i32; 16], steps: [i32; 2]) -> [i32; 16] {
    let mut out = *levels;
    for (i, v) in out.iter_mut().enumerate() {
        *v *= steps[usize::from(i > 0)];
    }
    out
}

struct Edge {
    hev: i32,
    interior: i32,
    limit: i32,
    whole: bool,
}

fn filter_across(plane: &mut [u8], at: usize, step: usize, e: &Edge) {
    let u = |i: i32| (at as i64 + i64::from(i) * step as i64) as usize;
    let px: Vec<i32> = (-4..4).map(|i| i32::from(plane[u(i)])).collect();
    let diff = |a: usize, b: usize| (px[a] - px[b]).abs();
    if diff(3, 4) * 2 + diff(2, 5) / 2 > e.limit {
        return;
    }
    for i in [0, 1, 2, 4, 5, 6] {
        if diff(i, i + 1) > e.interior {
            return;
        }
    }
    let hev = diff(2, 3) > e.hev || diff(5, 4) > e.hev;
    let c = |v: i32| v.max(-128).min(127);
    let s: Vec<i32> = px.iter().map(|v| v - 128).collect();
    let mut t = s.clone();
    let (p2, p1, p0, q0, q1, q2) = (s[1], s[2], s[3], s[4], s[5], s[6]);
    if e.whole && !hev {
        let w = c(c(p1 - q1) + 3 * (q0 - p0));
        let a = c((27 * w + 63) >> 7);
        t[4] = c(q0 - a);
        t[3] = c(p0 + a);
        let a = c((18 * w + 63) >> 7);
        t[5] = c(q1 - a);
        t[2] = c(p1 + a);
        let a = c((9 * w + 63) >> 7);
        t[6] = c(q2 - a);
        t[1] = c(p2 + a);
    } else {
        let outer = if e.whole || hev { c(p1 - q1) } else { 0 };
        let a = c(outer + 3 * (q0 - p0));
        let b = c(a + 3) >> 3;
        let a = c(a + 4) >> 3;
        t[4] = c(q0 - a);
        t[3] = c(p0 + b);
        if !e.whole && !hev {
            let a = (a + 1) >> 1;
            t[5] = c(q1 - a);
            t[2] = c(p1 + a);
        }
    }
    for i in 0..8 {
        plane[u(i as i32 - 4)] = (t[i] + 128) as u8;
    }
}

fn decode_frame(bytes: &[u8]) -> Decoded {
    decode_with(bytes, true)
}

/// Decodes a frame, with or without the loop filter.
fn decode_with(bytes: &[u8], filtered: bool) -> Decoded {
    let tag = u32::from(bytes[0]) | (u32::from(bytes[1]) << 8) | (u32::from(bytes[2]) << 16);
    assert_eq!(tag & 1, 0, "key frame");
    assert_eq!((tag >> 1) & 7, 0, "version");
    assert_eq!((tag >> 4) & 1, 1, "shown");
    let first_size = (tag >> 5) as usize;
    assert_eq!(&bytes[3..6], &[0x9d, 0x01, 0x2a]);
    let width = usize::from(bytes[6]) | (usize::from(bytes[7]) << 8);
    let height = usize::from(bytes[8]) | (usize::from(bytes[9]) << 8);
    let (mbw, mbh) = ((width + 15) / 16, (height + 15) / 16);
    let mut h = Bits::new(&bytes[10..10 + first_size]);
    let mut tokens = Bits::new(&bytes[10 + first_size..]);

    assert!(!h.flag(), "color space");
    assert!(!h.flag(), "clamping");
    let segmented = h.flag();
    let mut levels = [0i32; 4];
    let mut filter_levels = [0i32; 4];
    let mut tree_probs = [255u8; 3];
    if segmented {
        assert!(h.flag());
        assert!(h.flag());
        assert!(!h.flag(), "delta values");
        for v in levels.iter_mut() {
            *v = h.optional(7);
        }
        for v in filter_levels.iter_mut() {
            *v = h.optional(6);
        }
        for p in tree_probs.iter_mut() {
            if h.flag() {
                *p = h.literal(8) as u8;
            }
        }
    }
    assert!(!h.flag(), "normal filter");
    let filter_level = h.literal(6);
    let sharpness = h.literal(3);
    assert!(!h.flag(), "filter adjustments");
    assert_eq!(h.literal(2), 0, "one partition");
    let base = h.literal(7);
    for _ in 0..5 {
        assert_eq!(h.optional(4), 0);
    }
    h.flag();
    let mut probs = vec![0u8; 1056];
    for (n, p) in probs.iter_mut().enumerate() {
        *p = if h.bool(update_flag_prob_at(n)) { h.literal(8) as u8 } else { default_prob_at(n) };
    }
    assert!(h.flag(), "skipping enabled");
    let prob_skip_false = h.literal(8) as u8;

    let mut planes =
        [vec![0u8; mbw * mbh * 256], vec![0u8; mbw * mbh * 64], vec![0u8; mbw * mbh * 64]];
    let b_modes = [
        IntraMode::DC,
        IntraMode::TM,
        IntraMode::VE,
        IntraMode::HE,
        IntraMode::LD,
        IntraMode::RD,
        IntraMode::VR,
        IntraMode::VL,
        IntraMode::HD,
        IntraMode::HU,
    ];
    // whole modes in the order DC, V, H, TM
    let as_b = [0usize, 2, 3, 1];
    let mut top_b = vec![0usize; 4 * mbw];
    let mut top_ctx = vec![[0usize; 9]; mbw];
    let mut modes = Vec::new();
    let mut skips = Vec::new();
    let mut segments = Vec::new();
    let mut inner = Vec::new();
    for mby in 0..mbh {
        let mut left_b = [0usize; 4];
        let mut left_ctx = [0usize; 9];
        for mbx in 0..mbw {
            let segment =
                if segmented { h.tree(&SEGMENT_ID_TREE, &tree_probs, 0) as usize } else { 0 };
            let skip = h.bool(prob_skip_false);
            let mode = h.tree(&KEYFRAME_YMODE_TREE, &KEYFRAME_YMODE_PROBS, 0);
            let mut sub = [0usize; 16];
            for k in 0..16 {
                let (x, y) = (k % 4, k / 4);
                let m = if mode == 4 {
                    let p = bpred_probs_for(b_modes[top_b[4 * mbx + x]], b_modes[left_b[y]]);
                    h.tree(&KEYFRAME_BPRED_MODE_TREE, &p, 0) as usize
                } else {
                    as_b[mode as usize]
                };
                sub[k] = m;
                top_b[4 * mbx + x] = m;
                left_b[y] = m;
            }
            let chroma = h.tree(&KEYFRAME_UV_MODE_TREE, &KEYFRAME_UV_MODE_PROBS, 0);

            let steps = steps_of(if segmented { base + levels[segment] } else { base });
            let mut residues = [[0i32; 16]; 24];
            let mut any = false;
            if skip {
                let keep = (left_ctx[8], top_ctx[mbx][8]);
                left_ctx = [0; 9];
                top_ctx[mbx] = [0; 9];
                if mode == 4 {
                    left_ctx[8] = keep.0;
                    top_ctx[mbx][8] = keep.1;
                }
            } else {
                let (plane, first) = if mode == 4 { (3, 0) } else { (0, 1) };
                let mut dcs = [0i32; 16];
                if mode != 4 {
                    let ctx = left_ctx[8] + top_ctx[mbx][8];
                    let (b, some) = read_block(&mut tokens, &probs, 1, 0, ctx);
                    left_ctx[8] = usize::from(some);
                    top_ctx[mbx][8] = usize::from(some);
                    any |= b.iter().any(|&v| v != 0);
                    dcs = inverse_wht(&scaled(&b, steps.y2));
                }
                for k in 0..16 {
                    let (x, y) = (k % 4, k / 4);
                    let ctx = left_ctx[y] + top_ctx[mbx][x];
                    let (b, some) = read_block(&mut tokens, &probs, plane, first, ctx);
                    left_ctx[y] = usize::from(some);
                    top_ctx[mbx][x] = usize::from(some);
                    any |= b.iter().any(|&v| v != 0);
                    let mut s = scaled(&b, steps.y);
                    if mode != 4 {
                        s[0] = dcs[k];
                    }
                    residues[k] = inverse_dct(&s);
                }
                for c in 0..2 {
                    for k in 0..4 {
                        let (x, y) = (k % 2, k / 2);
                        let ctx = left_ctx[4 + 2 * c + y] + top_ctx[mbx][4 + 2 * c + x];
                        let (b, some) = read_block(&mut tokens, &probs, 2, 0, ctx);
                        left_ctx[4 + 2 * c + y] = usize::from(some);
                        top_ctx[mbx][4 + 2 * c + x] = usize::from(some);
                        any |= b.iter().any(|&v| v != 0);
                        residues[16 + 4 * c + k] = inverse_dct(&scaled(&b, steps.uv));
                    }
                }
            }

            let stride = 16 * mbw;
            let y_plane = &mut planes[0];
            if mode == 4 {
                // the row above the macroblock, and four pixels more
                let above: Vec<i32> = (0..20)
                    .map(|x| {
                        let px = (16 * mbx + x).min(stride - 1) as i32;
                        border(y_plane, stride, px, 16 * mby as i32 - 1)
                    })
                    .collect();
                for k in 0..16 {
                    let (x0, y0) = (16 * mbx + 4 * (k % 4), 16 * mby + 4 * (k / 4));
                    let mut e = [0i32; 13];
                    for i in 0..4 {
                        e[3 - i] = border(y_plane, stride, x0 as i32 - 1, (y0 + i) as i32);
                    }
                    e[4] = corner(y_plane, stride, x0 as i32 - 1, y0 as i32 - 1);
                    for i in 0..8 {
                        let column = 4 * (k % 4) + i;
                        e[5 + i] = if k / 4 == 0 || column >= 16 {
                            above[column]
                        } else {
                            border(y_plane, stride, (x0 + i) as i32, y0 as i32 - 1)
                        };
                    }
                    let b = predict_small(&e, sub[k] as i32);
                    for y in 0..4 {
                        for x in 0..4 {
                            y_plane[(y0 + y) * stride + x0 + x] = b[y][x] as u8;
                        }
                    }
                    add_residue(y_plane, stride, x0, y0, &residues[k]);
                }
            } else {
                predict(y_plane, stride, 16, mbx, mby, mode);
                for k in 0..16 {
                    let (x0, y0) = (16 * mbx + 4 * (k % 4), 16 * mby + 4 * (k / 4));
                    add_residue(y_plane, stride, x0, y0, &residues[k]);
                }
            }
            for c in 0..2 {
                let plane = &mut planes[1 + c];
                let stride = 8 * mbw;
                predict(plane, stride, 8, mbx, mby, chroma);
                for k in 0..4 {
                    let (x0, y0) = (8 * mbx + 4 * (k % 2), 8 * mby + 4 * (k / 2));
                    add_residue(plane, stride, x0, y0, &residues[16 + 4 * c + k]);
                }
            }
            modes.push(mode);
            skips.push(skip);
            segments.push(segment);
            inner.push(mode == 4 || any);
        }
    }

    if filtered && filter_level > 0 {
        for i in 0..mbw * mbh {
            let (mbx, mby) = (i % mbw, i / mbw);
            let level = (filter_level + filter_levels[segments[i]]).max(0).min(63);
            if level == 0 {
                continue;
            }
            let mut interior = level;
            if sharpness > 0 {
                interior >>= if sharpness > 4 { 2 } else { 1 };
                interior = interior.min(9 - sharpness);
            }
            let interior = interior.max(1);
            let hev = if level >= 40 {
                2
            } else if level >= 15 {
                1
            } else {
                0
            };
            let whole =
                Edge { hev, interior, limit: (level + 2) * 2 + interior, whole: true };
            let part = Edge { hev, interior, limit: level * 2 + interior, whole: false };
            for (c, plane) in planes.iter_mut().enumerate() {
                let size = if c == 0 { 16 } else { 8 };
                let stride = size * mbw;
                let origin = mby * size * stride + mbx * size;
                for n in 0..size / 4 {
                    if (n == 0 && mbx > 0) || (n > 0 && inner[i]) {
                        for k in 0..size {
                            let at = origin + 4 * n + k * stride;
                            filter_across(plane, at, 1, if n == 0 { &whole } else { &part });
                        }
                    }
                }
                for n in 0..size / 4 {
                    if (n == 0 && mby > 0) || (n > 0 && inner[i]) {
                        for k in 0..size {
                            let at = origin + 4 * n * stride + k;
                            filter_across(plane, at, stride, if n == 0 { &whole } else { &part });
                        }
                    }
                }
            }
        }
    }
    let token_counts = tokens.token_counts;
    Decoded { mbw, width, height, planes, filter_level, modes, skips, token_counts }
}

/// Red, green and blue with interpolated chroma.
fn to_rgb(width: usize, height: usize, mbw: usize, planes: &[Vec<u8>; 3]) -> Vec<u8> {
    let (cw, ch) = ((width + 1) / 2, (height + 1) / 2);
    let mut out = Vec::new();
    let mult = |v: i32, c: i32| (v * c) >> 8;
    let clip = |v: i32| clamp(v >> 6);
    for y in 0..height {
        for x in 0..width {
            let (cx, cy) = (x / 2, y / 2);
            let nx = if x % 2 == 1 { (cx + 1).min(cw - 1) } else { cx.max(1) - 1 };
            let ny = if y % 2 == 1 { (cy + 1).min(ch - 1) } else { cy.max(1) - 1 };
            let at = |p: usize, x: usize, y: usize| i32::from(planes[p][y * 8 * mbw + x]);
            let smooth = |p: usize| {
                (9 * at(p, cx, cy) + 3 * at(p, nx, cy) + 3 * at(p, cx, ny) + at(p, nx, ny) + 8) >> 4
            };
            let l = mult(i32::from(planes[0][y * 16 * mbw + x]), 19077);
            let (u, v) = (smooth(1), smooth(2));
            out.push(clip(l + mult(v, 26149) - 14234));
            out.push(clip(l - mult(u, 6419) - mult(v, 13320) + 8708));
            out.push(clip(l + mult(u, 33050) - 17685));
        }
    }
    out
}

/// A file that holds one lossy frame.
fn container(frame: &[u8]) -> Vec<u8> {
    let padding = frame.len() % 2;
    let mut out = Vec::new();
    out.extend_from_slice(b"RIFF");
    out.extend_from_slice(&((12 + frame.len() + padding) as u32).to_le_bytes());
    out.extend_from_slice(b"WEBPVP8 ");
    out.extend_from_slice(&(frame.len() as u32).to_le_bytes());
    out.extend_from_slice(frame);
    if padding == 1 {
        out.push(0);
    }
    out
}

// ---------------------------------------------------------------------------
// Mode decisions

fn encoder_with_top_context(mb_width: u16) -> Vp8Encoder {
    let mut encoder = Vp8Encoder::new();
    encoder.macroblock_width = mb_width;
    encoder.top_b_pred = vec![IntraMode::DC; 4 * usize::from(mb_width)];
    encoder.left_b_pred = [IntraMode::DC; 4];
    encoder
}

fn sample_macroblock_infos() -> Vec<MacroblockInfo> {
    vec![
        MacroblockInfo {
            luma_mode: LumaMode::DC,
            luma_bpred: None,
            chroma_mode: ChromaMode::DC,
            segment_id: Some(0),
            coeffs_skipped: false,
            non_zero_dct: false,
        },
        MacroblockInfo {
            luma_mode: LumaMode::TM,
            luma_bpred: None,
            chroma_mode: ChromaMode::V,
            segment_id: Some(1),
            coeffs_skipped: true,
            non_zero_dct: false,
        },
        MacroblockInfo {
            luma_mode: LumaMode::B,
            luma_bpred: Some([
                IntraMode::DC,
                IntraMode::TM,
                IntraMode::VE,
                IntraMode::HE,
                IntraMode::LD,
                IntraMode::RD,
                IntraMode::VR,
                IntraMode::VL,
                IntraMode::HD,
                IntraMode::HU,
                IntraMode::DC,
                IntraMode::TM,
                IntraMode::VE,
                IntraMode::HE,
                IntraMode::LD,
                IntraMode::RD,
            ]),
            chroma_mode: ChromaMode::H,
            segment_id: Some(2),
            coeffs_skipped: false,
            non_zero_dct: false,
        },
        MacroblockInfo {
            luma_mode: LumaMode::B,
            luma_bpred: Some([IntraMode::HU; 16]),
            chroma_mode: ChromaMode::TM,
            segment_id: Some(3),
            coeffs_skipped: false,
            non_zero_dct: false,
        },
        MacroblockInfo {
            luma_mode: LumaMode::H,
            luma_bpred: None,
            chroma_mode: ChromaMode::DC,
            segment_id: Some(0),
            coeffs_skipped: false,
            non_zero_dct: false,
        },
    ]
}

#[test]
fn advance_bpred_context_matches_write_macroblock_header() {
    let mb_width = 6u16;

    for mbx in 0..usize::from(mb_width) {
        let mut via_write = encoder_with_top_context(mb_width);
        let mut via_advance = encoder_with_top_context(mb_width);

        for info in sample_macroblock_infos() {
            via_write.write_macroblock_header(&info, mbx);
            via_advance.advance_bpred_context(&info, mbx);

            assert_eq!(
                via_write.top_b_pred, via_advance.top_b_pred,
                "top_b_pred diverged for mbx={mbx}"
            );
            assert_eq!(
                via_write.left_b_pred, via_advance.left_b_pred,
                "left_b_pred diverged for mbx={mbx}"
            );
        }
    }
}

struct Xorshift32(u32);

impl Xorshift32 {
    fn next_u8(&mut self) -> u8 {
        let mut x = self.0;
        x ^= x << 13;
        x ^= x >> 17;
        x ^= x << 5;
        self.0 = x;
        (x & 0xff) as u8
    }
}

fn flat_rgb(width: u16, height: u16) -> Vec<u8> {
    let mut pixels = vec![0u8; usize::from(width) * usize::from(height) * 3];
    for chunk in pixels.chunks_exact_mut(3) {
        chunk.copy_from_slice(&[60, 120, 180]);
    }
    pixels
}

fn noisy_rgb(width: u16, height: u16) -> Vec<u8> {
    let mut rng = Xorshift32(0x2222_1111 ^ (u32::from(width) << 16) ^ u32::from(height));
    let mut pixels = vec![0u8; usize::from(width) * usize::from(height) * 3];
    for b in pixels.iter_mut() {
        *b = rng.next_u8();
    }
    pixels
}

fn mixed_rgb(width: u16, height: u16) -> Vec<u8> {
    let mut pixels = vec![0u8; usize::from(width) * usize::from(height) * 3];
    for y in 0..height {
        for x in 0..width {
            let i = (usize::from(y) * usize::from(width) + usize::from(x)) * 3;
            let (r, g, b) = if x < width / 2 {
                let v = (u32::from(x) * 255 / u32::from(width.max(1))) as u8;
                (v, v, v)
            } else if (x / 4 + y / 4) % 2 == 0 {
                (20, 20, 20)
            } else {
                (235, 235, 235)
            };
            pixels[i] = r;
            pixels[i + 1] = g;
            pixels[i + 2] = b;
        }
    }
    pixels
}

/// Codes the macroblocks of a frame with decisions of its own, and returns
/// those.
fn independent_real_pass_infos(encoder: &mut Vp8Encoder) -> Vec<MacroblockInfo> {
    let mut infos = Vec::new();

    for mby in 0..usize::from(encoder.macroblock_height) {
        encoder.left_complexity = Complexity::none();
        encoder.left_b_pred = [IntraMode::DC; 4];

        for mbx in 0..usize::from(encoder.macroblock_width) {
            let info = encoder.choose_macroblock_info(mbx, mby);
            encoder.write_macroblock_header(&info, mbx);

            let (y_block_data, _) = encoder.transform_luma_block(mbx, mby, &info);
            let (u_block_data, v_block_data, _) = encoder.transform_chroma_blocks(mbx, mby, &info);

            if !info.coeffs_skipped {
                encoder.encode_residual_data(
                    &info,
                    0,
                    mbx,
                    &y_block_data,
                    &u_block_data,
                    &v_block_data,
                );
            } else {
                encoder.left_complexity.clear(info.luma_mode != LumaMode::B);
                encoder.top_complexity[mbx].clear(info.luma_mode != LumaMode::B);
            }

            infos.push(info);
        }
    }

    infos
}

type ModeAgreementFixture = (&'static str, u16, u16, u8, fn(u16, u16) -> Vec<u8>);

#[test]
fn all_three_passes_agree_on_mode_decisions() {
    let fixtures: [ModeAgreementFixture; 3] = [
        ("flat", 32, 32, 70, flat_rgb),
        ("noisy", 48, 32, 60, noisy_rgb),
        ("mixed", 64, 48, 75, mixed_rgb),
    ];

    for (name, width, height, quality, make_pixels) in fixtures {
        let pixels = make_pixels(width, height);
        let (y_bytes, u_bytes, v_bytes) = convert_image_yuv::<3>(&pixels, width, height);

        let mut encoder = Vp8Encoder::new();
        encoder.setup_encoding(quality, width, height, y_bytes, u_bytes, v_bytes);

        encoder.count_skipped_macroblocks();
        let pass1: Vec<MacroblockInfo> = encoder
            .mb_info_cache
            .iter()
            .map(|info| info.expect("pass 1 fills every entry"))
            .collect();
        encoder.reset_frame_state();

        encoder.collect_token_counts();
        let pass2: Vec<MacroblockInfo> = encoder
            .mb_info_cache
            .iter()
            .map(|info| info.expect("pass 1 fills every entry"))
            .collect();
        encoder.reset_frame_state();

        let pass3 = independent_real_pass_infos(&mut encoder);

        assert_eq!(pass1, pass2, "fixture '{name}': pass 1/2 disagreed");
        assert_eq!(pass1, pass3, "fixture '{name}': pass 1/3 disagreed");
    }
}

// ---------------------------------------------------------------------------
// Frames

fn max_abs_diff(a: &[u8], b: &[u8]) -> u8 {
    assert_eq!(a.len(), b.len(), "compared buffers have different lengths");
    a.iter().zip(b.iter()).map(|(&x, &y)| x.abs_diff(y)).max().unwrap_or(0)
}

#[test]
fn loop_filter_drift() {
    let fixtures = [
        ("flat", 48u16, 32u16, flat_rgb(48, 32)),
        ("noisy", 67, 51, noisy_rgb(67, 51)),
        ("mixed", 96, 64, mixed_rgb(96, 64)),
    ];
    let qualities = [100u8, 85, 60, 30];

    for (name, width, height, pixels) in &fixtures {
        for &quality in &qualities {
            let mut encoder = Vp8Encoder::new();
            encoder.encode_image(pixels, ColorType::Rgb8, *width, *height, quality);
            let frame = decode_frame(&encoder.writer);
            assert_eq!(frame.filter_level, i32::from(encoder.frame.filter_level));
            let diffs = (
                max_abs_diff(&frame.planes[0], &encoder.recon_y),
                max_abs_diff(&frame.planes[1], &encoder.recon_u),
                max_abs_diff(&frame.planes[2], &encoder.recon_v),
            );
            assert_eq!(diffs, (0, 0, 0), "fixture '{name}' @ q{quality}: decoder diverged");

            let file = container(&encoder.writer);
            let decoded = webp::Decoder::new(&file)
                .decode()
                .unwrap_or_else(|| panic!("libwebp failed to decode '{name}' @ q{quality}"));
            let planes =
                [encoder.recon_y.clone(), encoder.recon_u.clone(), encoder.recon_v.clone()];
            let recon_rgb = to_rgb(
                usize::from(*width),
                usize::from(*height),
                usize::from(encoder.macroblock_width),
                &planes,
            );
            let libwebp: &[u8] = &decoded;
            assert_eq!(libwebp.len(), recon_rgb.len());
            assert_eq!(
                max_abs_diff(libwebp, &recon_rgb),
                0,
                "fixture '{name}' @ q{quality}: libwebp diverged"
            );
        }
    }
}

fn fnv1a_64(bytes: &[u8]) -> u64 {
    let mut hash: u64 = 0xcbf29ce484222325;
    for &b in bytes {
        hash ^= u64::from(b);
        hash = hash.wrapping_mul(0x100000001b3);
    }
    hash
}

struct Fixture {
    name: &'static str,
    width: u32,
    height: u32,
    color: ColorType,
    lossy_quality: u8,
    pixels: Vec<u8>,
}

fn flat_fixture(name: &'static str, width: u32, height: u32, lossy_quality: u8) -> Fixture {
    let mut pixels = vec![0u8; (width * height * 3) as usize];
    for chunk in pixels.chunks_exact_mut(3) {
        chunk.copy_from_slice(&[40, 90, 160]);
    }
    Fixture { name, width, height, color: ColorType::Rgb8, lossy_quality, pixels }
}

fn noisy_fixture(name: &'static str, width: u32, height: u32, lossy_quality: u8) -> Fixture {
    let mut rng = Xorshift32(0x1234_5678 ^ (width << 16) ^ height);
    let mut pixels = vec![0u8; (width * height * 3) as usize];
    for b in pixels.iter_mut() {
        *b = rng.next_u8();
    }
    Fixture { name, width, height, color: ColorType::Rgb8, lossy_quality, pixels }
}

fn gradient_checkerboard_fixture(
    name: &'static str,
    width: u32,
    height: u32,
    lossy_quality: u8,
) -> Fixture {
    let mut pixels = vec![0u8; (width * height * 3) as usize];
    for y in 0..height {
        for x in 0..width {
            let i = ((y * width + x) * 3) as usize;
            let (r, g, b) = if x < width / 2 {
                let v = ((x * 255) / width.max(1)) as u8;
                (v, v.wrapping_add((y % 255) as u8), 128)
            } else {
                let v = if (x / 4 + y / 4) % 2 == 0 { 20 } else { 235 };
                (v, v, v)
            };
            pixels[i] = r;
            pixels[i + 1] = g;
            pixels[i + 2] = b;
        }
    }
    Fixture { name, width, height, color: ColorType::Rgb8, lossy_quality, pixels }
}

fn alpha_fixture(name: &'static str, width: u32, height: u32, lossy_quality: u8) -> Fixture {
    let mut rng = Xorshift32(0x9e37_79b9 ^ (width << 16) ^ height);
    let mut pixels = vec![0u8; (width * height * 4) as usize];
    for y in 0..height {
        for x in 0..width {
            let i = ((y * width + x) * 4) as usize;
            pixels[i] = rng.next_u8();
            pixels[i + 1] = rng.next_u8();
            pixels[i + 2] = rng.next_u8();
            pixels[i + 3] = ((x * 255) / width.max(1)) as u8;
        }
    }
    Fixture { name, width, height, color: ColorType::Rgba8, lossy_quality, pixels }
}

/// The colors of an image with opacity.
fn without_alpha(fixture: &Fixture) -> Fixture {
    let pixels =
        fixture.pixels.chunks_exact(4).flat_map(|p| p[..3].iter().copied()).collect();
    Fixture { pixels, color: ColorType::Rgb8, ..*fixture }
}

fn encode(fixture: &Fixture) -> Vec<u8> {
    match encode_frame_lossy(
        &fixture.pixels,
        fixture.width,
        fixture.height,
        fixture.color,
        fixture.lossy_quality,
    ) {
        Ok(bytes) => bytes,
        Err(e) => panic!("encode failed for fixture {}: {e:?}", fixture.name),
    }
}

#[test]
fn stage1_plumbing_is_byte_identical_to_817951e() {
    let fixtures = [
        flat_fixture("flat_multiple16", 64, 48, 100),
        flat_fixture("flat_nonmultiple16", 53, 39, 100),
        noisy_fixture("noisy_nonmultiple16", 131, 97, 100),
        gradient_checkerboard_fixture("gradient_checkerboard_nonmultiple16", 200, 150, 100),
        noisy_fixture("tiny_subblock_nonmultiple16", 10, 9, 100),
        noisy_fixture("single_macroblock", 16, 16, 100),
    ];
    let expected: [(&str, usize, u64); 6] = [
        ("flat_multiple16", 94, 0x1c1c35ecf2d911c1),
        ("flat_nonmultiple16", 244, 0xf022ad9e29f0c4fa),
        ("noisy_nonmultiple16", 14732, 0x3ffda3d4cb7c5f6a),
        ("gradient_checkerboard_nonmultiple16", 3820, 0x572d9d26db1bad26),
        ("tiny_subblock_nonmultiple16", 316, 0x788cca14137c99e3),
        ("single_macroblock", 600, 0xb8ae48f6213c6d13),
    ];
    assert_eq!(fixtures.len(), expected.len(), "fixture list changed size");

    for (fixture, &(expected_name, expected_len, expected_hash)) in
        fixtures.iter().zip(expected.iter())
    {
        assert_eq!(fixture.name, expected_name, "fixture order changed");
        let bytes = container(&encode(fixture));
        assert_eq!(
            (bytes.len(), fnv1a_64(&bytes)),
            (expected_len, expected_hash),
            "fixture '{}': the encoded bytes changed",
            fixture.name,
        );
    }

    // The container of this fixture has a chunk for the opacity beside the
    // frame; the frame is that of the opaque image.
    let fixture = alpha_fixture("alpha_rgba_nonmultiple16", 90, 70, 100);
    assert_eq!(encode(&fixture), encode(&without_alpha(&fixture)), "fixture '{}'", fixture.name);
}

fn mixed_quality_fixtures() -> Vec<Fixture> {
    vec![
        flat_fixture("flat_multiple16", 64, 48, 80),
        flat_fixture("flat_nonmultiple16", 53, 39, 40),
        noisy_fixture("noisy_nonmultiple16", 131, 97, 60),
        gradient_checkerboard_fixture("gradient_checkerboard_nonmultiple16", 200, 150, 75),
        alpha_fixture("alpha_rgba_nonmultiple16", 90, 70, 50),
        noisy_fixture("tiny_subblock_nonmultiple16", 10, 9, 90),
    ]
}

/// The pixels of a decoded frame, with the opacity of the source.
fn pixels_of(fixture: &Fixture, frame: &Decoded) -> Vec<u8> {
    let rgb = to_rgb(frame.width, frame.height, frame.mbw, &frame.planes);
    if fixture.color == ColorType::Rgba8 {
        rgb.chunks_exact(3)
            .zip(fixture.pixels.chunks_exact(4))
            .flat_map(|(c, p)| [c[0], c[1], c[2], p[3]])
            .collect()
    } else {
        rgb
    }
}

/// The loop filter is left out: prediction never sees what it changes, so the
/// pixels without it tell whether the decisions and coefficients are the same.
#[test]
fn byte_identity_matches_pre_cache_baseline() {
    let fixtures = mixed_quality_fixtures();
    let expected: [(&str, usize, u64); 6] = [
        ("flat_multiple16", 9216, 0xafc3bbf9d4331725),
        ("flat_nonmultiple16", 6201, 0x0eb251ad576ac798),
        ("noisy_nonmultiple16", 38121, 0x59f6fd8c6d7a6752),
        ("gradient_checkerboard_nonmultiple16", 90000, 0xf2fe7570cbb253bf),
        ("alpha_rgba_nonmultiple16", 25200, 0x6e41fde0cbf41f00),
        ("tiny_subblock_nonmultiple16", 270, 0x01b6e0963fad0adb),
    ];
    assert_eq!(fixtures.len(), expected.len(), "fixture list changed size");

    for (fixture, &(expected_name, expected_decoded_len, expected_pixel_hash)) in
        fixtures.iter().zip(expected.iter())
    {
        assert_eq!(fixture.name, expected_name, "fixture order changed");
        let decoded = pixels_of(fixture, &decode_with(&encode(fixture), false));
        assert_eq!(
            (decoded.len(), fnv1a_64(&decoded)),
            (expected_decoded_len, expected_pixel_hash),
            "fixture '{}' decoded to different pixels",
            fixture.name,
        );
    }
}

#[test]
fn bpred_context_fix_keeps_pixel_buffer_size_stable() {
    let fixtures = mixed_quality_fixtures();
    let expected: [(&str, usize); 6] = [
        ("flat_multiple16", 9216),
        ("flat_nonmultiple16", 6201),
        ("noisy_nonmultiple16", 38121),
        ("gradient_checkerboard_nonmultiple16", 90000),
        ("alpha_rgba_nonmultiple16", 25200),
        ("tiny_subblock_nonmultiple16", 270),
    ];
    assert_eq!(fixtures.len(), expected.len(), "fixture list changed size");

    for (fixture, &(expected_name, expected_decoded_len)) in fixtures.iter().zip(expected.iter()) {
        assert_eq!(fixture.name, expected_name, "fixture order changed");
        let decoded = pixels_of(fixture, &decode_frame(&encode(fixture)));
        assert_eq!(decoded.len(), expected_decoded_len, "fixture '{}'", fixture.name);
    }
}

#[test]
fn alpha_does_not_change_the_frame() {
    let fixture = alpha_fixture("alpha", 90, 70, 50);
    assert_eq!(encode(&fixture), encode(&without_alpha(&fixture)));
}

#[test]
fn gray_images_decode_to_gray() {
    let mut rng = Xorshift32(77);
    let gray: Vec<u8> = (0..40 * 24).map(|_| rng.next_u8()).collect();
    let bytes = encode_frame_lossy(&gray, 40, 24, ColorType::L8, 90).unwrap();
    let frame = decode_frame(&bytes);
    assert!(frame.planes[1].iter().chain(frame.planes[2].iter()).all(|&c| c.abs_diff(128) <= 1));
    let with_alpha: Vec<u8> = gray.iter().flat_map(|&v| [v, rng.next_u8()]).collect();
    assert_eq!(encode_frame_lossy(&with_alpha, 40, 24, ColorType::La8, 90), Ok(bytes));
}

#[test]
fn large_dimensions_are_refused() {
    assert_eq!(
        encode_frame_lossy(&[], 65536, 1, ColorType::L8, 50),
        Err(EncodingError::InvalidDimensions)
    );
    assert_eq!(
        encode_frame_lossy(&[], 1, 65536, ColorType::Rgb8, 50),
        Err(EncodingError::InvalidDimensions)
    );
    assert_eq!(
        try_encode_frame_lossy(&[], 0x1_0000, 0x1_0000, ColorType::Rgba8, 50),
        Err(EncodingError::InvalidDimensions)
    );
}

#[test]
fn empty_images_have_headers_only() {
    let bytes = encode_frame_lossy(&[], 0, 0, ColorType::Rgb8, 75).unwrap();
    let frame = decode_frame(&bytes);
    assert_eq!((frame.width, frame.height), (0, 0));
    assert!(frame.modes.is_empty());
}

#[test]
fn frames_start_with_their_dimensions() {
    let fixture = noisy_fixture("tiny", 10, 9, 90);
    let bytes = encode(&fixture);
    let first = usize::from(bytes[0] >> 5)
        | (usize::from(bytes[1]) << 3)
        | (usize::from(bytes[2]) << 11);
    assert_eq!(bytes[0] & 0x1f, 0x10);
    assert!(10 + first < bytes.len());
    assert_eq!(&bytes[3..10], &[0x9d, 0x01, 0x2a, 10, 0, 9, 0]);
}

#[test]
fn every_frame_that_is_tried_is_the_frame_that_is_encoded() {
    let fixture = gradient_checkerboard_fixture("gradient", 70, 40, 35);
    let tried =
        try_encode_frame_lossy(&fixture.pixels, 70, 40, ColorType::Rgb8, 35).unwrap().unwrap();
    assert_eq!(tried, encode(&fixture));
}

#[test]
fn decisions_reach_the_decoder() {
    let pixels = mixed_rgb(96, 64);
    let mut encoder = Vp8Encoder::new();
    encoder.encode_image(&pixels, ColorType::Rgb8, 96, 64, 60);
    let frame = decode_frame(&encoder.writer);
    for (i, info) in encoder.mb_info_cache.iter().enumerate() {
        let info = info.unwrap();
        assert_eq!(frame.modes[i], i32::from(info.luma_mode.to_i8()));
        assert_eq!(frame.skips[i], info.coeffs_skipped);
    }
    assert!(frame.modes.iter().any(|&m| m == 4));
    assert!(encoder.partitions.is_empty());
}

#[test]
fn statistics_are_those_of_the_frame() {
    for (width, height, quality) in [(48u16, 32u16, 60u8), (70, 40, 15), (64, 64, 95)] {
        let pixels = mixed_rgb(width, height);
        let (y, u, v) = convert_image_yuv::<3>(&pixels, width, height);
        let mut encoder = Vp8Encoder::new();
        encoder.setup_encoding(quality, width, height, y, u, v);
        encoder.count_skipped_macroblocks();
        encoder.reset_frame_state();
        let cache = encoder.mb_info_cache.clone();
        let counts = encoder.collect_token_counts();
        assert_eq!(encoder.mb_info_cache, cache);
        let frame =
            encode_frame_lossy(&pixels, width.into(), height.into(), ColorType::Rgb8, quality)
                .unwrap();
        assert_eq!(decode_frame(&frame).token_counts, counts.to_vec());
    }
}

#[test]
fn the_encoder_describes_the_frame_it_has_written() {
    let pixels = mixed_rgb(64, 48);
    let (y, u, v) = convert_image_yuv::<3>(&pixels, 64, 48);
    let mut expected = Vp8Encoder::new();
    expected.setup_encoding(20, 64, 48, y, u, v);
    for tried in [false, true] {
        let mut encoder = Vp8Encoder::new();
        if tried {
            assert!(encoder.try_encode_image(&pixels, ColorType::Rgb8, 64, 48, 20));
        } else {
            encoder.encode_image(&pixels, ColorType::Rgb8, 64, 48, 20);
        }
        assert_eq!((encoder.frame.width, encoder.frame.height), (64, 48));
        assert_eq!(encoder.frame.filter_level, 12);
        assert_eq!(encoder.frame.sharpness_level, 7);
        assert_eq!(encoder.frame.ybuf, expected.frame.ybuf);
        assert_eq!(encoder.frame.ubuf, expected.frame.ubuf);
        assert_eq!(encoder.frame.vbuf, expected.frame.vbuf);
        assert_eq!(encoder.segments, expected.segments);
        assert_eq!(encoder.mb_segment_ids, expected.mb_segment_ids);
        assert_eq!(encoder.segment_tree_probs, expected.segment_tree_probs);
        assert!(encoder.segments_enabled);
        let skips = encoder.mb_info_cache.iter().filter(|i| i.unwrap().coeffs_skipped).count();
        assert_eq!(
            encoder.macroblock_no_skip_coeff,
            Some(skip_probability(skips as u32, 12)),
        );
    }
}
