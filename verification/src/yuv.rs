//! Conversion of images to luma and chroma planes.
//!
//! The planes cover whole macroblocks; what lies beyond the image is zero.
use vstd::prelude::*;

use crate::prediction::lemma_inside;

verus! {

/// Number of macroblocks that cover `n` pixels.
pub open spec fn macroblocks(n: int) -> int {
    (n + 15) / 16
}

/// Number of macroblocks that cover `n` pixels.
pub fn macroblock_count(n: u16) -> (r: u16)
    ensures
        r as int == macroblocks(n as int),
        r <= 4096,
{
    ((n as u32 + 15) / 16) as u16
}

/// Channel `c` of the pixel in column `x` and row `y`.
pub open spec fn channel(data: Seq<u8>, bpp: int, w: int, x: int, y: int, c: int) -> u8 {
    data[(y * w + x) * bpp + c]
}

/// Luma of a pixel.
pub open spec fn luma_value(data: Seq<u8>, bpp: int, w: int, x: int, y: int) -> u8 {
    let r = channel(data, bpp, w, x, y, 0);
    let g = channel(data, bpp, w, x, y, 1);
    let b = channel(data, bpp, w, x, y, 2);
    ((16839 * r + 33059 * g + 6420 * b + 32768 + 16 * 65536) / 65536) as u8
}

/// Blue difference of a pixel, times 65536.
pub open spec fn raw_u(data: Seq<u8>, bpp: int, w: int, x: int, y: int) -> int {
    let r = channel(data, bpp, w, x, y, 0);
    let g = channel(data, bpp, w, x, y, 1);
    let b = channel(data, bpp, w, x, y, 2);
    -9719 * r - 19081 * g + 28800 * b + 128 * 65536
}

/// Red difference of a pixel, times 65536.
pub open spec fn raw_v(data: Seq<u8>, bpp: int, w: int, x: int, y: int) -> int {
    let r = channel(data, bpp, w, x, y, 0);
    let g = channel(data, bpp, w, x, y, 1);
    let b = channel(data, bpp, w, x, y, 2);
    28800 * r - 24116 * g - 4684 * b + 128 * 65536
}

/// Luma plane of a colour image: pixels are converted in squares of four, and
/// an odd last column or row is left out.
pub open spec fn luma_plane(data: Seq<u8>, bpp: int, w: int, h: int) -> Seq<u8> {
    let stride = macroblocks(w) * 16;
    Seq::new(
        (stride * (macroblocks(h) * 16)) as nat,
        |n: int|
            {
                let x = n % stride;
                let y = n / stride;
                if x < w / 2 * 2 && y < h / 2 * 2 {
                    luma_value(data, bpp, w, x, y)
                } else {
                    0
                }
            },
    )
}

/// Mean of the blue differences of a square of four pixels.
pub open spec fn u_value(data: Seq<u8>, bpp: int, w: int, x: int, y: int) -> u8 {
    ((raw_u(data, bpp, w, 2 * x, 2 * y) + raw_u(data, bpp, w, 2 * x + 1, 2 * y) + raw_u(
        data,
        bpp,
        w,
        2 * x,
        2 * y + 1,
    ) + raw_u(data, bpp, w, 2 * x + 1, 2 * y + 1)) / 262144) as u8
}

/// Mean of the red differences of a square of four pixels.
pub open spec fn v_value(data: Seq<u8>, bpp: int, w: int, x: int, y: int) -> u8 {
    ((raw_v(data, bpp, w, 2 * x, 2 * y) + raw_v(data, bpp, w, 2 * x + 1, 2 * y) + raw_v(
        data,
        bpp,
        w,
        2 * x,
        2 * y + 1,
    ) + raw_v(data, bpp, w, 2 * x + 1, 2 * y + 1)) / 262144) as u8
}

/// Chroma planes of a colour image: one value for each square of four pixels.
pub open spec fn u_plane(data: Seq<u8>, bpp: int, w: int, h: int) -> Seq<u8> {
    let stride = macroblocks(w) * 8;
    Seq::new(
        (stride * (macroblocks(h) * 8)) as nat,
        |n: int|
            if n % stride < w / 2 && n / stride < h / 2 {
                u_value(data, bpp, w, n % stride, n / stride)
            } else {
                0
            },
    )
}

pub open spec fn v_plane(data: Seq<u8>, bpp: int, w: int, h: int) -> Seq<u8> {
    let stride = macroblocks(w) * 8;
    Seq::new(
        (stride * (macroblocks(h) * 8)) as nat,
        |n: int|
            if n % stride < w / 2 && n / stride < h / 2 {
                v_value(data, bpp, w, n % stride, n / stride)
            } else {
                0
            },
    )
}

/// Luma plane of a grey image.
pub open spec fn gray_plane(data: Seq<u8>, bpp: int, w: int, h: int) -> Seq<u8> {
    let stride = macroblocks(w) * 16;
    Seq::new(
        (stride * (macroblocks(h) * 16)) as nat,
        |n: int|
            if n % stride < w && n / stride < h {
                channel(data, bpp, w, n % stride, n / stride, 0)
            } else {
                0
            },
    )
}

/// Chroma plane of a grey image.
pub open spec fn neutral_plane(w: int, h: int) -> Seq<u8> {
    Seq::new((macroblocks(w) * 8 * (macroblocks(h) * 8)) as nat, |n: int| 127u8)
}

proof fn lemma_channel(len: int, bpp: int, w: int, h: int, x: int, y: int)
    requires
        1 <= bpp <= 4,
        0 <= x < w,
        0 <= y < h,
        len == w * h * bpp,
    ensures
        0 <= y * w,
        0 <= (y * w + x) * bpp,
        (y * w + x) * bpp + bpp <= len,
{
    lemma_inside(x, y, w, h, w * h);
    assert(0 <= (y * w + x) * bpp && (y * w + x) * bpp + bpp <= w * h * bpp) by (nonlinear_arith)
        requires
            0 <= y * w,
            0 <= x,
            y * w + x + 1 <= w * h,
            bpp >= 1,
    ;
}

fn rgb_at(data: &[u8], bpp: usize, w: usize, h: usize, x: usize, y: usize) -> (r: (i32, i32, i32))
    requires
        3 <= bpp <= 4,
        x < w,
        y < h,
        data@.len() == w * h * bpp,
    ensures
        r.0 == channel(data@, bpp as int, w as int, x as int, y as int, 0),
        r.1 == channel(data@, bpp as int, w as int, x as int, y as int, 1),
        r.2 == channel(data@, bpp as int, w as int, x as int, y as int, 2),
        0 <= r.0 <= 255,
        0 <= r.1 <= 255,
        0 <= r.2 <= 255,
{
    let len: usize = data.len();
    proof {
        lemma_channel(len as int, bpp as int, w as int, h as int, x as int, y as int);
        assert(y * w + x <= (y * w + x) * bpp) by (nonlinear_arith)
            requires
                0 <= y * w + x,
                bpp >= 1,
        ;
    }
    let start: usize = (y * w + x) * bpp;
    (data[start] as i32, data[start + 1] as i32, data[start + 2] as i32)
}

fn luma_at(data: &[u8], bpp: usize, w: usize, h: usize, x: usize, y: usize) -> (v: u8)
    requires
        3 <= bpp <= 4,
        x < w,
        y < h,
        data@.len() == w * h * bpp,
    ensures
        v == luma_value(data@, bpp as int, w as int, x as int, y as int),
{
    let (r, g, b) = rgb_at(data, bpp, w, h, x, y);
    ((16839 * r + 33059 * g + 6420 * b + 32768 + 16 * 65536) / 65536) as u8
}

fn raws_at(data: &[u8], bpp: usize, w: usize, h: usize, x: usize, y: usize) -> (r: (i32, i32))
    requires
        3 <= bpp <= 4,
        x < w,
        y < h,
        data@.len() == w * h * bpp,
    ensures
        r.0 == raw_u(data@, bpp as int, w as int, x as int, y as int),
        r.1 == raw_v(data@, bpp as int, w as int, x as int, y as int),
        0 <= r.0 <= 0xff_ffff,
        0 <= r.1 <= 0xff_ffff,
{
    let (r, g, b) = rgb_at(data, bpp, w, h, x, y);
    (
        28800 * b - 9719 * r - 19081 * g + 128 * 65536,
        28800 * r - 24116 * g - 4684 * b + 128 * 65536,
    )
}

fn chroma_at(data: &[u8], bpp: usize, w: usize, h: usize, x: usize, y: usize) -> (r: (u8, u8))
    requires
        3 <= bpp <= 4,
        x < w / 2,
        y < h / 2,
        data@.len() == w * h * bpp,
    ensures
        r.0 == u_value(data@, bpp as int, w as int, x as int, y as int),
        r.1 == v_value(data@, bpp as int, w as int, x as int, y as int),
{
    let (u0, v0) = raws_at(data, bpp, w, h, 2 * x, 2 * y);
    let (u1, v1) = raws_at(data, bpp, w, h, 2 * x + 1, 2 * y);
    let (u2, v2) = raws_at(data, bpp, w, h, 2 * x, 2 * y + 1);
    let (u3, v3) = raws_at(data, bpp, w, h, 2 * x + 1, 2 * y + 1);
    (((u0 + u1 + u2 + u3) / 262144) as u8, ((v0 + v1 + v2 + v3) / 262144) as u8)
}

/// Size of a plane.
proof fn lemma_plane_size(w: u16, h: u16, size: int)
    requires
        size == 8 || size == 16,
    ensures
        0 <= macroblocks(w as int) * size <= 65536,
        0 <= (macroblocks(w as int) * size) * (macroblocks(h as int) * size),
        w <= 65520 ==> (macroblocks(w as int) * size) * (macroblocks(h as int) * size) <= 65520
            * 65536,
{
    let a = macroblocks(w as int) * size;
    let b = macroblocks(h as int) * size;
    assert(0 <= a * b) by (nonlinear_arith)
        requires
            0 <= a,
            0 <= b,
    ;
    if w <= 65520 {
        assert(a * b <= 65520 * 65536) by (nonlinear_arith)
            requires
                0 <= a <= 65520,
                0 <= b <= 65536,
        ;
    }
}

/// Converts a colour image with `BPP` bytes for each pixel, the first three of
/// which are red, green and blue.
pub fn convert_image_yuv<const BPP: usize>(data: &[u8], width: u16, height: u16) -> (planes: (
    Vec<u8>,
    Vec<u8>,
    Vec<u8>,
))
    requires
        3 <= BPP <= 4,
        width <= 65520,
        data@.len() == width * height * BPP,
    ensures
        planes.0@ == luma_plane(data@, BPP as int, width as int, height as int),
        planes.1@ == u_plane(data@, BPP as int, width as int, height as int),
        planes.2@ == v_plane(data@, BPP as int, width as int, height as int),
{
    let w: usize = width as usize;
    let h: usize = height as usize;
    let mbw: usize = macroblock_count(width) as usize;
    let mbh: usize = macroblock_count(height) as usize;
    proof {
        lemma_plane_size(width, height, 16);
        lemma_plane_size(width, height, 8);
    }
    let luma_width: usize = mbw * 16;
    let luma_size: usize = luma_width * (mbh * 16);
    let mut y_bytes: Vec<u8> = Vec::new();
    let mut n: usize = 0;
    while n < luma_size
        invariant
            n <= luma_size == luma_width * (macroblocks(height as int) * 16),
            luma_width == macroblocks(width as int) * 16,
            3 <= BPP <= 4,
            w == width,
            h == height,
            data@.len() == w * h * BPP,
            y_bytes@.len() == n,
            forall|i: int|
                0 <= i < n ==> #[trigger] y_bytes@[i] == luma_plane(
                    data@,
                    BPP as int,
                    width as int,
                    height as int,
                )[i],
        decreases luma_size - n,
    {
        proof {
            lemma_stride_positive(n as int, luma_width as int, macroblocks(height as int) * 16);
        }
        let x: usize = n % luma_width;
        let y: usize = n / luma_width;
        let v: u8 = if x < w / 2 * 2 && y < h / 2 * 2 {
            luma_at(data, BPP, w, h, x, y)
        } else {
            0
        };
        y_bytes.push(v);
        n = n + 1;
    }
    assert(y_bytes@ =~= luma_plane(data@, BPP as int, width as int, height as int));
    let chroma_width: usize = mbw * 8;
    let chroma_size: usize = chroma_width * (mbh * 8);
    let mut u_bytes: Vec<u8> = Vec::new();
    let mut v_bytes: Vec<u8> = Vec::new();
    let mut m: usize = 0;
    while m < chroma_size
        invariant
            m <= chroma_size == chroma_width * (macroblocks(height as int) * 8),
            chroma_width == macroblocks(width as int) * 8,
            3 <= BPP <= 4,
            w == width,
            h == height,
            data@.len() == w * h * BPP,
            u_bytes@.len() == m,
            v_bytes@.len() == m,
            forall|i: int|
                0 <= i < m ==> #[trigger] u_bytes@[i] == u_plane(
                    data@,
                    BPP as int,
                    width as int,
                    height as int,
                )[i],
            forall|i: int|
                0 <= i < m ==> #[trigger] v_bytes@[i] == v_plane(
                    data@,
                    BPP as int,
                    width as int,
                    height as int,
                )[i],
        decreases chroma_size - m,
    {
        proof {
            lemma_stride_positive(m as int, chroma_width as int, macroblocks(height as int) * 8);
        }
        let x: usize = m % chroma_width;
        let y: usize = m / chroma_width;
        let (u, v): (u8, u8) = if x < w / 2 && y < h / 2 {
            chroma_at(data, BPP, w, h, x, y)
        } else {
            (0, 0)
        };
        u_bytes.push(u);
        v_bytes.push(v);
        m = m + 1;
    }
    assert(u_bytes@ =~= u_plane(data@, BPP as int, width as int, height as int));
    assert(v_bytes@ =~= v_plane(data@, BPP as int, width as int, height as int));
    (y_bytes, u_bytes, v_bytes)
}

proof fn lemma_stride_positive(n: int, stride: int, rows: int)
    requires
        0 <= n < stride * rows,
        0 <= stride,
    ensures
        stride > 0,
{
    assert(stride != 0) by (nonlinear_arith)
        requires
            0 <= n < stride * rows,
    ;
}

/// Converts a grey image with `BPP` bytes for each pixel, the first of which
/// is its brightness.
pub fn convert_image_y<const BPP: usize>(data: &[u8], width: u16, height: u16) -> (planes: (
    Vec<u8>,
    Vec<u8>,
    Vec<u8>,
))
    requires
        1 <= BPP <= 2,
        width <= 65520,
        data@.len() == width * height * BPP,
    ensures
        planes.0@ == gray_plane(data@, BPP as int, width as int, height as int),
        planes.1@ == neutral_plane(width as int, height as int),
        planes.2@ == neutral_plane(width as int, height as int),
{
    let w: usize = width as usize;
    let h: usize = height as usize;
    let mbw: usize = macroblock_count(width) as usize;
    let mbh: usize = macroblock_count(height) as usize;
    let len: usize = data.len();
    proof {
        lemma_plane_size(width, height, 16);
        lemma_plane_size(width, height, 8);
    }
    let luma_width: usize = mbw * 16;
    let luma_size: usize = luma_width * (mbh * 16);
    let mut y_bytes: Vec<u8> = Vec::new();
    let mut n: usize = 0;
    while n < luma_size
        invariant
            n <= luma_size == luma_width * (macroblocks(height as int) * 16),
            luma_width == macroblocks(width as int) * 16,
            1 <= BPP <= 2,
            w == width,
            h == height,
            len == data@.len() == w * h * BPP,
            y_bytes@.len() == n,
            forall|i: int|
                0 <= i < n ==> #[trigger] y_bytes@[i] == gray_plane(
                    data@,
                    BPP as int,
                    width as int,
                    height as int,
                )[i],
        decreases luma_size - n,
    {
        proof {
            lemma_stride_positive(n as int, luma_width as int, macroblocks(height as int) * 16);
        }
        let x: usize = n % luma_width;
        let y: usize = n / luma_width;
        let v: u8 = if x < w && y < h {
            proof {
                lemma_channel(len as int, BPP as int, w as int, h as int, x as int, y as int);
                assert(y * w + x <= (y * w + x) * BPP) by (nonlinear_arith)
                    requires
                        0 <= y * w + x,
                        BPP >= 1,
                ;
            }
            data[(y * w + x) * BPP]
        } else {
            0
        };
        y_bytes.push(v);
        n = n + 1;
    }
    assert(y_bytes@ =~= gray_plane(data@, BPP as int, width as int, height as int));
    let chroma_size: usize = mbw * 8 * (mbh * 8);
    let u_bytes: Vec<u8> = vec![127u8; chroma_size];
    let v_bytes: Vec<u8> = vec![127u8; chroma_size];
    assert(u_bytes@ =~= neutral_plane(width as int, height as int));
    assert(v_bytes@ =~= neutral_plane(width as int, height as int));
    (y_bytes, u_bytes, v_bytes)
}

} // verus!
