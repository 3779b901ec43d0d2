//! What the frame of an image has to do with the image.
use vstd::prelude::*;

use crate::encoder::ColorType;
use crate::frame::Image;
use crate::prediction::{chroma_border, lemma_inside, lemma_position, luma_border};

verus! {

/// The pixel in column `x` and row `y` of a plane of macroblocks that are
/// `size` wide, over an image that is `width` by `height`.
proof fn lemma_in_plane(width: int, height: int, size: int, x: int, y: int)
    requires
        size == 8 || size == 16,
        0 <= x < (width + 15) / 16 * size,
        0 <= y < (height + 15) / 16 * size,
    ensures
        ({
            let stride = (width + 15) / 16 * size;
            let n = y * stride + x;
            &&& 0 <= n < stride * ((height + 15) / 16 * size)
            &&& n % stride == x
            &&& n / stride == y
        }),
{
    let stride = (width + 15) / 16 * size;
    let rows = (height + 15) / 16 * size;
    lemma_position(x, y, stride);
    lemma_inside(x, y, stride, rows, stride * rows);
}

/// Each sample of a grey image stands in the luma plane at its own place; the
/// opacity beside it is left out, and the rest of the plane is zero.
pub proof fn law_gray_samples_are_the_luma(image: Image, x: int, y: int)
    requires
        image.color == ColorType::L8 || image.color == ColorType::La8,
        0 <= x < (image.width + 15) / 16 * 16,
        0 <= y < (image.height + 15) / 16 * 16,
    ensures
        ({
            let stride = (image.width + 15) / 16 * 16;
            let pixel = image.planes().0[y * stride + x];
            let samples = if image.color == ColorType::La8 {
                2int
            } else {
                1
            };
            &&& x < image.width && y < image.height ==> pixel == image.data[(y * image.width + x)
                * samples]
            &&& x >= image.width || y >= image.height ==> pixel == 0
        }),
        image.scene().ybuf == image.planes().0,
{
    lemma_in_plane(image.width as int, image.height as int, 16, x, y);
}

/// A grey image has the same chroma everywhere.
pub proof fn law_gray_has_no_color(image: Image, x: int, y: int)
    requires
        image.color == ColorType::L8 || image.color == ColorType::La8,
        0 <= x < (image.width + 15) / 16 * 8,
        0 <= y < (image.height + 15) / 16 * 8,
    ensures
        ({
            let n = y * ((image.width + 15) / 16 * 8) + x;
            &&& image.planes().1[n] == 127
            &&& image.planes().2[n] == 127
        }),
        image.scene().ubuf == image.planes().1,
        image.scene().vbuf == image.planes().2,
{
    lemma_in_plane(image.width as int, image.height as int, 8, x, y);
}

/// Sample `c` of the pixel in column `x` and row `y` of a colour image.
pub open spec fn color_sample(image: Image, x: int, y: int, c: int) -> int {
    let samples = if image.color == ColorType::Rgba8 {
        4int
    } else {
        3
    };
    image.data[(y * image.width + x) * samples + c] as int
}

/// The luma of a pixel is the weighted mean of its colours, from 16 for black
/// to 235 for white, rounded to the nearest number. It stands at the place of
/// the pixel. An odd last column or row is left out, and the rest of the plane
/// is zero.
pub proof fn law_luma_weighs_the_colors(image: Image, x: int, y: int)
    requires
        image.color == ColorType::Rgb8 || image.color == ColorType::Rgba8,
        0 <= x < (image.width + 15) / 16 * 16,
        0 <= y < (image.height + 15) / 16 * 16,
    ensures
        ({
            let pixel = image.planes().0[y * ((image.width + 15) / 16 * 16) + x];
            let (r, g, b) = (
                color_sample(image, x, y, 0),
                color_sample(image, x, y, 1),
                color_sample(image, x, y, 2),
            );
            let inside = x < image.width - image.width % 2 && y < image.height - image.height % 2;
            let exact = 16839 * r + 33059 * g + 6420 * b;
            &&& inside ==> 65536 * (pixel - 16) - 32768 <= exact < 65536 * (pixel - 16) + 32768
            &&& !inside ==> pixel == 0
        }),
        image.scene().ybuf == image.planes().0,
{
    lemma_in_plane(image.width as int, image.height as int, 16, x, y);
}

/// Sum of a sample over a square of four pixels.
pub open spec fn square_sum(image: Image, x: int, y: int, c: int) -> int {
    color_sample(image, 2 * x, 2 * y, c) + color_sample(image, 2 * x + 1, 2 * y, c) + color_sample(
        image,
        2 * x,
        2 * y + 1,
        c,
    ) + color_sample(image, 2 * x + 1, 2 * y + 1, c)
}

/// The chroma of a square of four pixels is the mean of their blue and red
/// differences, 128 for grey, rounded down. It stands at the place of the
/// square, and the rest of the planes is zero.
pub proof fn law_chroma_is_the_mean_of_a_square(image: Image, x: int, y: int)
    requires
        image.color == ColorType::Rgb8 || image.color == ColorType::Rgba8,
        0 <= x < (image.width + 15) / 16 * 8,
        0 <= y < (image.height + 15) / 16 * 8,
    ensures
        ({
            let n = y * ((image.width + 15) / 16 * 8) + x;
            let (u, v) = (image.planes().1[n], image.planes().2[n]);
            let (r, g, b) = (
                square_sum(image, x, y, 0),
                square_sum(image, x, y, 1),
                square_sum(image, x, y, 2),
            );
            let inside = 2 * x + 1 < image.width && 2 * y + 1 < image.height;
            &&& inside ==> 262144 * (u - 128) <= 28800 * b - 9719 * r - 19081 * g < 262144 * (u
                - 127)
            &&& inside ==> 262144 * (v - 128) <= 28800 * r - 24116 * g - 4684 * b < 262144 * (v
                - 127)
            &&& !inside ==> u == 0 && v == 0
        }),
        image.scene().ubuf == image.planes().1,
        image.scene().vbuf == image.planes().2,
{
    lemma_in_plane(image.width as int, image.height as int, 8, x, y);
}

/// The quantiser index in the frame header falls in equal parts from 127 at
/// quality 0 to 0 at quality 100, and applies to all coefficients alike.
pub proof fn law_quality_maps_to_the_quantizer(image: Image, partitions: int)
    requires
        image.quality <= 100,
    ensures
        ({
            let indices = image.frame_header(partitions).indices;
            let coarse = 127 - indices.yac_abs;
            &&& 100 * coarse <= 127 * image.quality < 100 * coarse + 100
            &&& indices.ydc_delta is None
            &&& indices.y2dc_delta is None
            &&& indices.y2ac_delta is None
            &&& indices.uvdc_delta is None
            &&& indices.uvac_delta is None
        }),
{
}

/// The filter is as strong as the quantiser is coarse: its level in the frame
/// header, which is the one that the reconstruction is filtered with, is an
/// eighth of the quantiser index.
pub proof fn law_filter_level_follows_the_quantizer(image: Image, partitions: int)
    requires
        image.quality <= 100,
    ensures
        ({
            let h = image.frame_header(partitions);
            let level = h.filter_level as int;
            &&& 8 * level <= h.indices.yac_abs < 8 * level + 8
            &&& image.filter_settings().filter_level == level
            &&& image.filter_settings().sharpness_level == h.sharpness_level == 7
            &&& !image.filter_settings().filter_type && !h.filter_type
            &&& image.filter_settings().segments_enabled && h.segments_enabled
        }),
{
}

/// What stands in the border of the luma macroblock in column `mbx` and row
/// `mby`: the row above is taken from the plane and is 127 only above the
/// frame, the column to the left is taken from the plane and is 129 only to the
/// left of it. The corner belongs to the row above where there is none, and to
/// the column else. To the right of the frame its last pixel is repeated.
pub proof fn law_luma_border_is_taken_from_the_plane(
    plane: Seq<u8>,
    mbw: int,
    mbx: int,
    mby: int,
    i: int,
)
    requires
        0 <= mbx < mbw,
        0 <= mby,
    ensures
        ({
            let b = luma_border(mbx, mby, mbw, plane);
            let at = |x: int, y: int| plane[y * (16 * mbw) + x];
            let above = |x: int| at(x, 16 * mby - 1);
            &&& mby == 0 && 0 <= i <= 20 ==> b[i] == 127
            &&& mby > 0 && 1 <= i <= 16 ==> b[i] == above(16 * mbx + i - 1)
            &&& mby > 0 && 17 <= i <= 20 ==> b[i] == above(
                if mbx < mbw - 1 {
                    16 * mbx + i - 1
                } else {
                    16 * mbw - 1
                },
            )
            &&& mby > 0 ==> b[0] == if mbx > 0 {
                above(16 * mbx - 1)
            } else {
                129
            }
            &&& 1 <= i <= 16 ==> b[21 * i] == if mbx > 0 {
                at(16 * mbx - 1, 16 * mby + i - 1)
            } else {
                129
            }
            &&& 17 <= i <= 20 ==> b[84 + i] == b[i] && b[168 + i] == b[i] && b[252 + i] == b[i]
        }),
{
    assert(16 * mbw == mbw * 16 && 16 * mby == mby * 16 && 16 * mbx == mbx * 16);
    if 1 <= i <= 16 {
        assert((21 * i) / 21 == i && (21 * i) % 21 == 0);
    }
    if 17 <= i <= 20 {
        assert((84 + i) / 21 == 4 && (84 + i) % 21 == i);
        assert((168 + i) / 21 == 8 && (168 + i) % 21 == i);
        assert((252 + i) / 21 == 12 && (252 + i) % 21 == i);
        assert(i / 21 == 0 && i % 21 == i);
    }
}

/// What stands in the border of the chroma macroblock in column `mbx` and row
/// `mby`.
pub proof fn law_chroma_border_is_taken_from_the_plane(
    plane: Seq<u8>,
    mbw: int,
    mbx: int,
    mby: int,
    i: int,
)
    requires
        0 <= mbx < mbw,
        0 <= mby,
    ensures
        ({
            let b = chroma_border(mbx, mby, mbw, plane);
            let at = |x: int, y: int| plane[y * (8 * mbw) + x];
            &&& mby == 0 && 0 <= i <= 8 ==> b[i] == 127
            &&& mby > 0 && 1 <= i <= 8 ==> b[i] == at(8 * mbx + i - 1, 8 * mby - 1)
            &&& mby > 0 ==> b[0] == if mbx > 0 {
                at(8 * mbx - 1, 8 * mby - 1)
            } else {
                129
            }
            &&& 1 <= i <= 8 ==> b[9 * i] == if mbx > 0 {
                at(8 * mbx - 1, 8 * mby + i - 1)
            } else {
                129
            }
        }),
{
    assert(8 * mbw == mbw * 8 && 8 * mby == mby * 8 && 8 * mbx == mbx * 8);
    if 1 <= i <= 8 {
        assert((9 * i) / 9 == i && (9 * i) % 9 == 0);
    }
}

} // verus!
