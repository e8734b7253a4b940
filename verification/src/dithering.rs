use vstd::prelude::*;

use crate::raster::Image;
use crate::minify::DitheringMode;
use crate::sorting::{sort_u64, sorted_u64};

verus! {

/// Image characteristics that help determine optimal dithering.
/// All ratios are held as exact integers: per-mille (thousandths) for the
/// densities, thousandths of a channel level for the gradient, and
/// millionths of a squared luma level for the variance, so every threshold
/// comparison is exact.
#[derive(Debug, Clone, Copy, PartialEq, Eq, Structural)]
pub struct ImageAnalysis {
    /// Average horizontal color difference, in thousandths of a level
    /// (0..=765000). Lower = smoother.
    pub gradient_smoothness: u32,
    /// Fraction of sampled pixels on a strong edge, in thousandths
    /// (0..=1000). Higher = more complex/detailed.
    pub edge_density: u32,
    /// Number of distinct colors after bucketing each channel to 16 levels.
    pub color_diversity: u32,
    /// Median local luma variance over 8x8 blocks, in millionths of a
    /// squared luma level. Lower = more uniform.
    pub local_variance: u64,
    /// Fraction of sampled pixels with high-frequency detail, in
    /// thousandths (0..=1000). Higher = more photo-like.
    pub detail_frequency: u32,
}

/// The absolute value of an integer.
pub open spec fn abs_i(a: int) -> int {
    if a < 0 {
        -a
    } else {
        a
    }
}

/// The L1 color difference between two pixels, over red, green and blue.
pub open spec fn l1_diff(img: Image, x1: int, y1: int, x2: int, y2: int) -> int {
    abs_i(img.pix(x2, y2, 0) as int - img.pix(x1, y1, 0) as int) + abs_i(
        img.pix(x2, y2, 1) as int - img.pix(x1, y1, 1) as int,
    ) + abs_i(img.pix(x2, y2, 2) as int - img.pix(x1, y1, 2) as int)
}

/// Luma of a pixel in thousandths of a level: `0.299 R + 0.587 G + 0.114 B`.
pub open spec fn spec_luma(img: Image, x: int, y: int) -> int {
    299 * img.pix(x, y, 0) + 587 * img.pix(x, y, 1) + 114 * img.pix(x, y, 2)
}

/// Sum of horizontal L1 differences over the sampled columns of one row.
pub open spec fn grad_sum_row(img: Image, y: int, x: int) -> int
    decreases img.width + 4 - x when x >= 0
{
    if x < 0 || x >= img.width {
        0int
    } else {
        (if x + 1 < img.width {
            l1_diff(img, x, y, x + 1, y)
        } else {
            0int
        }) + grad_sum_row(img, y, x + 4)
    }
}

/// Number of sampled columns of one row that have a right neighbor.
pub open spec fn grad_cnt_row(img: Image, x: int) -> int
    decreases img.width + 4 - x when x >= 0
{
    if x < 0 || x >= img.width {
        0int
    } else {
        (if x + 1 < img.width {
            1int
        } else {
            0int
        }) + grad_cnt_row(img, x + 4)
    }
}

/// Sum of horizontal L1 differences over the sampled rows.
pub open spec fn grad_sum_rows(img: Image, y: int) -> int
    decreases img.height + 4 - y when y >= 0
{
    if y < 0 || y >= img.height {
        0int
    } else {
        grad_sum_row(img, y, 0) + grad_sum_rows(img, y + 4)
    }
}

/// Number of samples the gradient metric takes.
pub open spec fn grad_cnt_rows(img: Image, y: int) -> int
    decreases img.height + 4 - y when y >= 0
{
    if y < 0 || y >= img.height {
        0int
    } else {
        grad_cnt_row(img, 0) + grad_cnt_rows(img, y + 4)
    }
}

/// Mean horizontal L1 difference over the sparse sample grid, in
/// thousandths of a level; zero when nothing was sampled.
pub open spec fn spec_gradient_smoothness(img: Image) -> int {
    let s = grad_sum_rows(img, 0);
    let c = grad_cnt_rows(img, 0);
    if c == 0 {
        0int
    } else {
        1000 * s / c
    }
}

/// Mean absolute horizontal color difference between each sampled pixel and
/// its right neighbor, sampled every fourth row and column, in thousandths
/// of a level. Lower values mean smoother gradients.
pub fn calculate_gradient_smoothness(img: &Image) -> (r: u32)
    requires
        img.wf(),
    ensures
        r as int == spec_gradient_smoothness(*img),
        r <= 765000,
{
    let w: u64 = img.width as u64;
    let h: u64 = img.height as u64;
    let mut total: u128 = 0;
    let mut count: u64 = 0;
    let mut y: u64 = 0;
    while y < h
        invariant
            img.wf(),
            w == img.width,
            h == img.height,
            y < h + 4,
            total == grad_sum_rows(*img, 0) - grad_sum_rows(*img, y as int),
            count == grad_cnt_rows(*img, 0) - grad_cnt_rows(*img, y as int),
            total <= 765 * count,
            4 * count <= y * (w + 4) + 8,
        decreases h + 4 - y,
    {
        let mut x: u64 = 0;
        let ghost total0 = total;
        let ghost count0 = count;
        while x < w
            invariant
                img.wf(),
                w == img.width,
                h == img.height,
                y < h,
                x < w + 4,
                total == total0 + (grad_sum_row(*img, y as int, 0) - grad_sum_row(
                    *img,
                    y as int,
                    x as int,
                )),
                count == count0 + (grad_cnt_row(*img, 0) - grad_cnt_row(*img, x as int)),
                total0 == grad_sum_rows(*img, 0) - grad_sum_rows(*img, y as int),
                count0 == grad_cnt_rows(*img, 0) - grad_cnt_rows(*img, y as int),
                total <= 765 * count,
                4 * count0 <= y * (w + 4) + 8,
                4 * count <= y * (w + 4) + x + 8,
            decreases w + 4 - x,
        {
            proof {
                assert(y * (w + 4) <= 0x1_0000_0003u64 * 0x1_0000_0004u64) by (nonlinear_arith)
                    requires
                        0 <= y <= 0x1_0000_0003u64,
                        0 <= w + 4 <= 0x1_0000_0004u64,
                ;
            }
            if x + 1 < w {
                let p1r: u8 = img.get(x as u32, y as u32, 0);
                let p1g: u8 = img.get(x as u32, y as u32, 1);
                let p1b: u8 = img.get(x as u32, y as u32, 2);
                let p2r: u8 = img.get(x as u32 + 1, y as u32, 0);
                let p2g: u8 = img.get(x as u32 + 1, y as u32, 1);
                let p2b: u8 = img.get(x as u32 + 1, y as u32, 2);
                let dr: u64 = if p2r >= p1r {
                    (p2r - p1r) as u64
                } else {
                    (p1r - p2r) as u64
                };
                let dg: u64 = if p2g >= p1g {
                    (p2g - p1g) as u64
                } else {
                    (p1g - p2g) as u64
                };
                let db: u64 = if p2b >= p1b {
                    (p2b - p1b) as u64
                } else {
                    (p1b - p2b) as u64
                };
                proof {
                    assert(dr + dg + db == l1_diff(*img, x as int, y as int, x as int + 1, y as int));
                }
                total = total + ((dr + dg + db) as u128);
                count = count + 1;
            }
            proof {
                assert(grad_sum_row(*img, y as int, x as int) == (if x as int + 1 < img.width {
                    l1_diff(*img, x as int, y as int, x as int + 1, y as int)
                } else {
                    0int
                }) + grad_sum_row(*img, y as int, x as int + 4));
                assert(grad_cnt_row(*img, x as int) == (if x as int + 1 < img.width {
                    1int
                } else {
                    0int
                }) + grad_cnt_row(*img, x as int + 4));
            }
            x = x + 4;
        }
        proof {
            assert(grad_sum_row(*img, y as int, x as int) == 0);
            assert(grad_cnt_row(*img, x as int) == 0);
            assert(grad_sum_rows(*img, y as int) == grad_sum_row(*img, y as int, 0)
                + grad_sum_rows(*img, y as int + 4));
            assert(grad_cnt_rows(*img, y as int) == grad_cnt_row(*img, 0) + grad_cnt_rows(
                *img,
                y as int + 4,
            ));
            assert((y + 4) * (w + 4) == y * (w + 4) + 4 * (w + 4)) by (nonlinear_arith);
        }
        y = y + 4;
    }
    proof {
        assert(grad_sum_rows(*img, y as int) == 0);
        assert(grad_cnt_rows(*img, y as int) == 0);
    }
    if count == 0 {
        return 0;
    }
    let r128: u128 = 1000u128 * total / (count as u128);
    proof {
        assert(1000 * (total as int) / (count as int) <= 765000) by (nonlinear_arith)
            requires
                0 < count as int,
                total as int <= 765 * (count as int),
        ;
    }
    r128 as u32
}

/// The horizontal Sobel response at an interior pixel, on the scaled luma.
pub open spec fn sobel_gx(img: Image, x: int, y: int) -> int {
    -spec_luma(img, x - 1, y - 1) - 2 * spec_luma(img, x - 1, y) - spec_luma(img, x - 1, y + 1)
        + spec_luma(img, x + 1, y - 1) + 2 * spec_luma(img, x + 1, y) + spec_luma(img, x + 1, y + 1)
}

/// The vertical Sobel response at an interior pixel, on the scaled luma.
pub open spec fn sobel_gy(img: Image, x: int, y: int) -> int {
    -spec_luma(img, x - 1, y - 1) - 2 * spec_luma(img, x, y - 1) - spec_luma(img, x + 1, y - 1)
        + spec_luma(img, x - 1, y + 1) + 2 * spec_luma(img, x, y + 1) + spec_luma(img, x + 1, y + 1)
}

/// A sampled pixel counts as an edge when its Sobel magnitude exceeds the
/// threshold of 30 luma levels (squares compared in scaled units).
pub open spec fn is_edge(img: Image, x: int, y: int) -> bool {
    sobel_gx(img, x, y) * sobel_gx(img, x, y) + sobel_gy(img, x, y) * sobel_gy(img, x, y)
        > 900000000
}

/// Number of edge pixels among the sampled columns of one row.
pub open spec fn edge_sum_row(img: Image, y: int, x: int) -> int
    decreases img.width + 4 - x when x >= 0
{
    if x < 0 || x + 1 >= img.width {
        0int
    } else {
        (if is_edge(img, x, y) {
            1int
        } else {
            0int
        }) + edge_sum_row(img, y, x + 4)
    }
}

/// Number of sampled interior columns of one row.
pub open spec fn edge_cnt_row(img: Image, x: int) -> int
    decreases img.width + 4 - x when x >= 0
{
    if x < 0 || x + 1 >= img.width {
        0int
    } else {
        1 + edge_cnt_row(img, x + 4)
    }
}

/// Number of edge pixels over the sampled rows.
pub open spec fn edge_sum_rows(img: Image, y: int) -> int
    decreases img.height + 4 - y when y >= 0
{
    if y < 0 || y + 1 >= img.height {
        0int
    } else {
        edge_sum_row(img, y, 1) + edge_sum_rows(img, y + 4)
    }
}

/// Number of samples the edge metric takes.
pub open spec fn edge_cnt_rows(img: Image, y: int) -> int
    decreases img.height + 4 - y when y >= 0
{
    if y < 0 || y + 1 >= img.height {
        0int
    } else {
        edge_cnt_row(img, 1) + edge_cnt_rows(img, y + 4)
    }
}

/// Fraction of sampled interior pixels on a strong edge, in thousandths;
/// zero when nothing was sampled.
pub open spec fn spec_edge_density(img: Image) -> int {
    let s = edge_sum_rows(img, 1);
    let c = edge_cnt_rows(img, 1);
    if c == 0 {
        0int
    } else {
        1000 * s / c
    }
}

/// The scaled luma of a pixel.
fn luma_scaled(img: &Image, x: u32, y: u32) -> (l: u64)
    requires
        img.wf(),
        x < img.width,
        y < img.height,
    ensures
        l as int == spec_luma(*img, x as int, y as int),
        l <= 255000,
{
    299 * (img.get(x, y, 0) as u64) + 587 * (img.get(x, y, 1) as u64) + 114 * (img.get(x, y, 2)
        as u64)
}

/// Whether the sampled interior pixel at `(x, y)` sits on a strong edge,
/// by the 3x3 Sobel operator on the luma.
fn pixel_is_edge(img: &Image, x: u32, y: u32) -> (e: bool)
    requires
        img.wf(),
        1 <= x,
        x + 1 < img.width,
        1 <= y,
        y + 1 < img.height,
    ensures
        e == is_edge(*img, x as int, y as int),
{
    let l00: i64 = luma_scaled(img, x - 1, y - 1) as i64;
    let l10: i64 = luma_scaled(img, x, y - 1) as i64;
    let l20: i64 = luma_scaled(img, x + 1, y - 1) as i64;
    let l01: i64 = luma_scaled(img, x - 1, y) as i64;
    let l21: i64 = luma_scaled(img, x + 1, y) as i64;
    let l02: i64 = luma_scaled(img, x - 1, y + 1) as i64;
    let l12: i64 = luma_scaled(img, x, y + 1) as i64;
    let l22: i64 = luma_scaled(img, x + 1, y + 1) as i64;
    let gx: i64 = -l00 - 2 * l01 - l02 + l20 + 2 * l21 + l22;
    let gy: i64 = -l00 - 2 * l10 - l20 + l02 + 2 * l12 + l22;
    proof {
        assert(gx as int == sobel_gx(*img, x as int, y as int));
        assert(gy as int == sobel_gy(*img, x as int, y as int));
        assert(0 <= gx * gx <= 0xF_4240_0000_0000i64 && 0 <= gy * gy <= 0xF_4240_0000_0000i64)
            by (nonlinear_arith)
            requires
                -1020000 <= gx <= 1020000,
                -1020000 <= gy <= 1020000,
        ;
    }
    gx * gx + gy * gy > 900000000
}

/// Fraction of sampled interior pixels whose Sobel magnitude exceeds the
/// edge threshold, sampled every fourth row and column with a one-pixel
/// border excluded, in thousandths.
pub fn calculate_edge_density(img: &Image) -> (r: u32)
    requires
        img.wf(),
    ensures
        r as int == spec_edge_density(*img),
        r <= 1000,
{
    let w: u64 = img.width as u64;
    let h: u64 = img.height as u64;
    let mut edges: u64 = 0;
    let mut count: u64 = 0;
    let mut y: u64 = 1;
    while y + 1 < h
        invariant
            img.wf(),
            w == img.width,
            h == img.height,
            1 <= y < h + 4,
            edges == edge_sum_rows(*img, 1) - edge_sum_rows(*img, y as int),
            count == edge_cnt_rows(*img, 1) - edge_cnt_rows(*img, y as int),
            edges <= count,
            4 * count <= y * (w + 4) + 8,
        decreases h + 4 - y,
    {
        let mut x: u64 = 1;
        let ghost edges0 = edges;
        let ghost count0 = count;
        while x + 1 < w
            invariant
                img.wf(),
                w == img.width,
                h == img.height,
                1 <= y,
                y + 1 < h,
                1 <= x < w + 4,
                edges == edges0 + (edge_sum_row(*img, y as int, 1) - edge_sum_row(
                    *img,
                    y as int,
                    x as int,
                )),
                count == count0 + (edge_cnt_row(*img, 1) - edge_cnt_row(*img, x as int)),
                edges0 == edge_sum_rows(*img, 1) - edge_sum_rows(*img, y as int),
                count0 == edge_cnt_rows(*img, 1) - edge_cnt_rows(*img, y as int),
                edges <= count,
                4 * count0 <= y * (w + 4) + 8,
                4 * count <= y * (w + 4) + x + 8,
            decreases w + 4 - x,
        {
            proof {
                assert(y * (w + 4) <= 0x1_0000_0003u64 * 0x1_0000_0004u64) by (nonlinear_arith)
                    requires
                        0 <= y <= 0x1_0000_0003u64,
                        0 <= w + 4 <= 0x1_0000_0004u64,
                ;
            }
            if pixel_is_edge(img, x as u32, y as u32) {
                edges = edges + 1;
            }
            count = count + 1;
            proof {
                assert(edge_sum_row(*img, y as int, x as int) == (if is_edge(
                    *img,
                    x as int,
                    y as int,
                ) {
                    1int
                } else {
                    0int
                }) + edge_sum_row(*img, y as int, x as int + 4));
                assert(edge_cnt_row(*img, x as int) == 1 + edge_cnt_row(*img, x as int + 4));
            }
            x = x + 4;
        }
        proof {
            assert(edge_sum_row(*img, y as int, x as int) == 0);
            assert(edge_cnt_row(*img, x as int) == 0);
            assert(edge_sum_rows(*img, y as int) == edge_sum_row(*img, y as int, 1)
                + edge_sum_rows(*img, y as int + 4));
            assert(edge_cnt_rows(*img, y as int) == edge_cnt_row(*img, 1) + edge_cnt_rows(
                *img,
                y as int + 4,
            ));
            assert((y + 4) * (w + 4) == y * (w + 4) + 4 * (w + 4)) by (nonlinear_arith);
        }
        y = y + 4;
    }
    proof {
        assert(edge_sum_rows(*img, y as int) == 0);
        assert(edge_cnt_rows(*img, y as int) == 0);
    }
    if count == 0 {
        return 0;
    }
    let r128: u128 = 1000u128 * (edges as u128) / (count as u128);
    proof {
        assert(1000 * (edges as int) / (count as int) <= 1000) by (nonlinear_arith)
            requires
                0 < count as int,
                0 <= edges as int <= count as int,
        ;
    }
    r128 as u32
}

/// The bucket a pixel's color falls in: each channel reduced to 16 levels.
pub open spec fn bucket_at(img: Image, x: int, y: int) -> (int, int, int) {
    (img.pix(x, y, 0) as int / 16, img.pix(x, y, 1) as int / 16, img.pix(x, y, 2) as int / 16)
}

/// The buckets of one row's pixels from column `x` on.
pub open spec fn bucket_row_from(img: Image, y: int, x: int) -> Seq<(int, int, int)>
    decreases img.width - x when x >= 0
{
    if x < 0 || x >= img.width {
        Seq::empty()
    } else {
        seq![bucket_at(img, x, y)] + bucket_row_from(img, y, x + 1)
    }
}

/// The buckets of every pixel from row `y` on, in scan order.
pub open spec fn bucket_rows_from(img: Image, y: int) -> Seq<(int, int, int)>
    decreases img.height - y when y >= 0
{
    if y < 0 || y >= img.height {
        Seq::empty()
    } else {
        bucket_row_from(img, y, 0) + bucket_rows_from(img, y + 1)
    }
}

/// The number of distinct buckets in a sequence.
pub open spec fn distinct_buckets(s: Seq<(int, int, int)>) -> int
    decreases s.len(),
{
    if s.len() == 0 {
        0int
    } else {
        distinct_buckets(s.drop_last()) + if s.drop_last().contains(s.last()) {
            0int
        } else {
            1int
        }
    }
}

/// Number of distinct colors over every pixel after bucketing each channel
/// to 16 levels.
pub open spec fn spec_color_diversity(img: Image) -> int {
    distinct_buckets(bucket_rows_from(img, 0))
}

/// The mark-table slot of a bucket.
pub open spec fn bucket_slot(b: (int, int, int)) -> int {
    b.0 * 256 + b.1 * 16 + b.2
}

/// Number of marked slots.
pub open spec fn num_marked(s: Seq<bool>) -> int
    decreases s.len(),
{
    if s.len() == 0 {
        0int
    } else {
        num_marked(s.drop_last()) + if s.last() {
            1int
        } else {
            0int
        }
    }
}

proof fn lemma_num_marked_le(s: Seq<bool>)
    ensures
        0 <= num_marked(s) <= s.len(),
    decreases s.len(),
{
    if s.len() > 0 {
        lemma_num_marked_le(s.drop_last());
    }
}

proof fn lemma_num_marked_all_false(s: Seq<bool>)
    requires
        forall|i: int| 0 <= i < s.len() ==> !s[i],
    ensures
        num_marked(s) == 0,
    decreases s.len(),
{
    if s.len() > 0 {
        lemma_num_marked_all_false(s.drop_last());
    }
}

proof fn lemma_num_marked_update(s: Seq<bool>, i: int)
    requires
        0 <= i < s.len(),
        !s[i],
    ensures
        num_marked(s.update(i, true)) == num_marked(s) + 1,
    decreases s.len(),
{
    if i == s.len() - 1 {
        assert(s.update(i, true).drop_last() =~= s.drop_last());
    } else {
        assert(s.update(i, true).drop_last() =~= s.drop_last().update(i, true));
        assert(s.update(i, true).last() == s.last());
        lemma_num_marked_update(s.drop_last(), i);
    }
}

/// Count the distinct bucketed colors over every pixel, by marking each
/// bucket's slot in a table of all 4096 buckets.
pub fn calculate_color_diversity(img: &Image) -> (r: u32)
    requires
        img.wf(),
    ensures
        r as int == spec_color_diversity(*img),
        r <= 4096,
{
    let w: u64 = img.width as u64;
    let h: u64 = img.height as u64;
    let mut marks: Vec<bool> = vec![false; 4096];
    let mut count: u32 = 0;
    let ghost mut seen: Seq<(int, int, int)> = Seq::empty();
    proof {
        lemma_num_marked_all_false(marks@);
    }
    let mut y: u64 = 0;
    while y < h
        invariant
            img.wf(),
            w == img.width,
            h == img.height,
            y <= h,
            marks@.len() == 4096,
            bucket_rows_from(*img, 0) == seen + bucket_rows_from(*img, y as int),
            count == distinct_buckets(seen),
            count == num_marked(marks@),
            forall|b: (int, int, int)|
                0 <= b.0 < 16 && 0 <= b.1 < 16 && 0 <= b.2 < 16 ==> (seen.contains(b)
                    <==> marks@[#[trigger] bucket_slot(b)]),
            forall|idx: int|
                0 <= idx < seen.len() ==> {
                    let b = #[trigger] seen[idx];
                    0 <= b.0 < 16 && 0 <= b.1 < 16 && 0 <= b.2 < 16
                },
        decreases h - y,
    {
        let mut x: u64 = 0;
        while x < w
            invariant
                img.wf(),
                w == img.width,
                h == img.height,
                y < h,
                x <= w,
                marks@.len() == 4096,
                bucket_rows_from(*img, 0) == seen + (bucket_row_from(*img, y as int, x as int)
                    + bucket_rows_from(*img, y as int + 1)),
                count == distinct_buckets(seen),
                count == num_marked(marks@),
                forall|b: (int, int, int)|
                    0 <= b.0 < 16 && 0 <= b.1 < 16 && 0 <= b.2 < 16 ==> (seen.contains(b)
                        <==> marks@[#[trigger] bucket_slot(b)]),
                forall|idx: int|
                    0 <= idx < seen.len() ==> {
                        let b = #[trigger] seen[idx];
                        0 <= b.0 < 16 && 0 <= b.1 < 16 && 0 <= b.2 < 16
                    },
            decreases w - x,
        {
            let br: usize = (img.get(x as u32, y as u32, 0) / 16) as usize;
            let bg: usize = (img.get(x as u32, y as u32, 1) / 16) as usize;
            let bb: usize = (img.get(x as u32, y as u32, 2) / 16) as usize;
            let slot: usize = br * 256 + bg * 16 + bb;
            let ghost b = bucket_at(*img, x as int, y as int);
            proof {
                assert(b == (br as int, bg as int, bb as int));
                assert(slot as int == bucket_slot(b));
                assert(bucket_row_from(*img, y as int, x as int) == seq![b] + bucket_row_from(
                    *img,
                    y as int,
                    x as int + 1,
                ));
                assert(seen + (bucket_row_from(*img, y as int, x as int) + bucket_rows_from(
                    *img,
                    y as int + 1,
                )) =~= seen.push(b) + (bucket_row_from(*img, y as int, x as int + 1)
                    + bucket_rows_from(*img, y as int + 1)));
                assert(seen.push(b).drop_last() =~= seen);
                lemma_num_marked_le(marks@);
            }
            if !marks[slot] {
                proof {
                    if seen.contains(b) {
                        assert(marks@[bucket_slot(b)]);
                        assert(false);
                    }
                    lemma_num_marked_update(marks@, slot as int);
                }
                marks[slot] = true;
                count = count + 1;
                proof {
                    assert forall|b2: (int, int, int)|
                        0 <= b2.0 < 16 && 0 <= b2.1 < 16 && 0 <= b2.2 < 16 implies (seen.push(
                        b,
                    ).contains(b2) <==> marks@[#[trigger] bucket_slot(b2)]) by {
                        if b2 == b {
                            assert(seen.push(b)[seen.len() as int] == b);
                        } else {
                            assert(bucket_slot(b2) != bucket_slot(b));
                            if seen.push(b).contains(b2) {
                                let ix = choose|ix: int|
                                    0 <= ix < seen.push(b).len() && seen.push(b)[ix] == b2;
                                assert(seen[ix] == b2);
                            }
                            if seen.contains(b2) {
                                let ix = choose|ix: int| 0 <= ix < seen.len() && seen[ix] == b2;
                                assert(seen.push(b)[ix] == b2);
                            }
                        }
                    }
                }
            } else {
                proof {
                    assert(marks@[bucket_slot(b)]);
                    assert(seen.contains(b));
                    assert forall|b2: (int, int, int)|
                        0 <= b2.0 < 16 && 0 <= b2.1 < 16 && 0 <= b2.2 < 16 implies (seen.push(
                        b,
                    ).contains(b2) <==> marks@[#[trigger] bucket_slot(b2)]) by {
                        if b2 == b {
                            assert(seen.push(b)[seen.len() as int] == b);
                        } else {
                            if seen.push(b).contains(b2) {
                                let ix = choose|ix: int|
                                    0 <= ix < seen.push(b).len() && seen.push(b)[ix] == b2;
                                assert(seen[ix] == b2);
                            }
                            if seen.contains(b2) {
                                let ix = choose|ix: int| 0 <= ix < seen.len() && seen[ix] == b2;
                                assert(seen.push(b)[ix] == b2);
                            }
                        }
                    }
                }
            }
            proof {
                seen = seen.push(b);
            }
            x = x + 1;
        }
        proof {
            assert(bucket_row_from(*img, y as int, x as int) =~= Seq::<(int, int, int)>::empty());
            assert(seen + (bucket_row_from(*img, y as int, x as int) + bucket_rows_from(
                *img,
                y as int + 1,
            )) =~= seen + bucket_rows_from(*img, y as int + 1));
        }
        y = y + 1;
    }
    proof {
        assert(bucket_rows_from(*img, y as int) =~= Seq::<(int, int, int)>::empty());
        assert(seen + bucket_rows_from(*img, y as int) =~= seen);
        lemma_num_marked_le(marks@);
    }
    count
}

/// Number of the four axis-aligned neighbors that differ from the center
/// by more than 20 levels in summed RGB difference.
pub open spec fn detail_changes(img: Image, x: int, y: int) -> int {
    (if l1_diff(img, x, y, x - 1, y) > 20 {
        1int
    } else {
        0int
    }) + (if l1_diff(img, x, y, x + 1, y) > 20 {
        1int
    } else {
        0int
    }) + (if l1_diff(img, x, y, x, y - 1) > 20 {
        1int
    } else {
        0int
    }) + (if l1_diff(img, x, y, x, y + 1) > 20 {
        1int
    } else {
        0int
    })
}

/// A sampled pixel has high-frequency detail when at least two neighbors
/// differ from it significantly.
pub open spec fn is_detail(img: Image, x: int, y: int) -> bool {
    detail_changes(img, x, y) >= 2
}

/// Number of high-frequency pixels among the sampled columns of one row.
pub open spec fn detail_sum_row(img: Image, y: int, x: int) -> int
    decreases img.width + 4 - x when x >= 0
{
    if x < 0 || x + 2 >= img.width {
        0int
    } else {
        (if is_detail(img, x, y) {
            1int
        } else {
            0int
        }) + detail_sum_row(img, y, x + 4)
    }
}

/// Number of sampled columns of one row for the detail metric.
pub open spec fn detail_cnt_row(img: Image, x: int) -> int
    decreases img.width + 4 - x when x >= 0
{
    if x < 0 || x + 2 >= img.width {
        0int
    } else {
        1 + detail_cnt_row(img, x + 4)
    }
}

/// Number of high-frequency pixels over the sampled rows.
pub open spec fn detail_sum_rows(img: Image, y: int) -> int
    decreases img.height + 4 - y when y >= 0
{
    if y < 0 || y + 2 >= img.height {
        0int
    } else {
        detail_sum_row(img, y, 2) + detail_sum_rows(img, y + 4)
    }
}

/// Number of samples the detail metric takes.
pub open spec fn detail_cnt_rows(img: Image, y: int) -> int
    decreases img.height + 4 - y when y >= 0
{
    if y < 0 || y + 2 >= img.height {
        0int
    } else {
        detail_cnt_row(img, 2) + detail_cnt_rows(img, y + 4)
    }
}

/// Fraction of sampled pixels with high-frequency detail, in thousandths;
/// zero when nothing was sampled.
pub open spec fn spec_detail_frequency(img: Image) -> int {
    let s = detail_sum_rows(img, 2);
    let c = detail_cnt_rows(img, 2);
    if c == 0 {
        0int
    } else {
        1000 * s / c
    }
}

/// The summed RGB difference between two pixels exceeds 20 levels.
fn l1_exceeds_20(img: &Image, x1: u32, y1: u32, x2: u32, y2: u32) -> (e: bool)
    requires
        img.wf(),
        x1 < img.width,
        y1 < img.height,
        x2 < img.width,
        y2 < img.height,
    ensures
        e == (l1_diff(*img, x1 as int, y1 as int, x2 as int, y2 as int) > 20),
{
    let mut d: u32 = 0;
    let p1r: u8 = img.get(x1, y1, 0);
    let p2r: u8 = img.get(x2, y2, 0);
    d = d + (if p2r >= p1r {
        (p2r - p1r) as u32
    } else {
        (p1r - p2r) as u32
    });
    let p1g: u8 = img.get(x1, y1, 1);
    let p2g: u8 = img.get(x2, y2, 1);
    d = d + (if p2g >= p1g {
        (p2g - p1g) as u32
    } else {
        (p1g - p2g) as u32
    });
    let p1b: u8 = img.get(x1, y1, 2);
    let p2b: u8 = img.get(x2, y2, 2);
    d = d + (if p2b >= p1b {
        (p2b - p1b) as u32
    } else {
        (p1b - p2b) as u32
    });
    d > 20
}

/// Whether the sampled pixel at `(x, y)` has high-frequency detail.
fn pixel_is_detail(img: &Image, x: u32, y: u32) -> (e: bool)
    requires
        img.wf(),
        2 <= x,
        x + 2 < img.width,
        2 <= y,
        y + 2 < img.height,
    ensures
        e == is_detail(*img, x as int, y as int),
{
    let mut changes: u32 = 0;
    if l1_exceeds_20(img, x, y, x - 1, y) {
        changes = changes + 1;
    }
    if l1_exceeds_20(img, x, y, x + 1, y) {
        changes = changes + 1;
    }
    if l1_exceeds_20(img, x, y, x, y - 1) {
        changes = changes + 1;
    }
    if l1_exceeds_20(img, x, y, x, y + 1) {
        changes = changes + 1;
    }
    changes >= 2
}

/// Fraction of sparsely sampled pixels where at least two of the four
/// axis-aligned neighbors differ from the center by more than the detail
/// threshold, in thousandths.
pub fn calculate_detail_frequency(img: &Image) -> (r: u32)
    requires
        img.wf(),
    ensures
        r as int == spec_detail_frequency(*img),
        r <= 1000,
{
    let w: u64 = img.width as u64;
    let h: u64 = img.height as u64;
    let mut hits: u64 = 0;
    let mut count: u64 = 0;
    let mut y: u64 = 2;
    while y + 2 < h
        invariant
            img.wf(),
            w == img.width,
            h == img.height,
            2 <= y < h + 4,
            hits == detail_sum_rows(*img, 2) - detail_sum_rows(*img, y as int),
            count == detail_cnt_rows(*img, 2) - detail_cnt_rows(*img, y as int),
            hits <= count,
            4 * count <= y * (w + 4) + 8,
        decreases h + 4 - y,
    {
        let mut x: u64 = 2;
        let ghost hits0 = hits;
        let ghost count0 = count;
        while x + 2 < w
            invariant
                img.wf(),
                w == img.width,
                h == img.height,
                2 <= y,
                y + 2 < h,
                2 <= x < w + 4,
                hits == hits0 + (detail_sum_row(*img, y as int, 2) - detail_sum_row(
                    *img,
                    y as int,
                    x as int,
                )),
                count == count0 + (detail_cnt_row(*img, 2) - detail_cnt_row(*img, x as int)),
                hits0 == detail_sum_rows(*img, 2) - detail_sum_rows(*img, y as int),
                count0 == detail_cnt_rows(*img, 2) - detail_cnt_rows(*img, y as int),
                hits <= count,
                4 * count0 <= y * (w + 4) + 8,
                4 * count <= y * (w + 4) + x + 8,
            decreases w + 4 - x,
        {
            proof {
                assert(y * (w + 4) <= 0x1_0000_0003u64 * 0x1_0000_0004u64) by (nonlinear_arith)
                    requires
                        0 <= y <= 0x1_0000_0003u64,
                        0 <= w + 4 <= 0x1_0000_0004u64,
                ;
            }
            if pixel_is_detail(img, x as u32, y as u32) {
                hits = hits + 1;
            }
            count = count + 1;
            proof {
                assert(detail_sum_row(*img, y as int, x as int) == (if is_detail(
                    *img,
                    x as int,
                    y as int,
                ) {
                    1int
                } else {
                    0int
                }) + detail_sum_row(*img, y as int, x as int + 4));
                assert(detail_cnt_row(*img, x as int) == 1 + detail_cnt_row(*img, x as int + 4));
            }
            x = x + 4;
        }
        proof {
            assert(detail_sum_row(*img, y as int, x as int) == 0);
            assert(detail_cnt_row(*img, x as int) == 0);
            assert(detail_sum_rows(*img, y as int) == detail_sum_row(*img, y as int, 2)
                + detail_sum_rows(*img, y as int + 4));
            assert(detail_cnt_rows(*img, y as int) == detail_cnt_row(*img, 2) + detail_cnt_rows(
                *img,
                y as int + 4,
            ));
            assert((y + 4) * (w + 4) == y * (w + 4) + 4 * (w + 4)) by (nonlinear_arith);
        }
        y = y + 4;
    }
    proof {
        assert(detail_sum_rows(*img, y as int) == 0);
        assert(detail_cnt_rows(*img, y as int) == 0);
    }
    if count == 0 {
        return 0;
    }
    let r128: u128 = 1000u128 * (hits as u128) / (count as u128);
    proof {
        assert(1000 * (hits as int) / (count as int) <= 1000) by (nonlinear_arith)
            requires
                0 < count as int,
                0 <= hits as int <= count as int,
        ;
    }
    r128 as u32
}

/// Sum of scaled lumas over one block row, columns `x .. x1`.
pub open spec fn blk_lum_row(img: Image, y: int, x: int, x1: int) -> int
    decreases x1 - x when x <= x1
{
    if x >= x1 {
        0int
    } else {
        spec_luma(img, x, y) + blk_lum_row(img, y, x + 1, x1)
    }
}

/// Sum of scaled lumas over a block, rows `y .. y1`, columns `x0 .. x1`.
pub open spec fn blk_lum(img: Image, x0: int, x1: int, y: int, y1: int) -> int
    decreases y1 - y when y <= y1
{
    if y >= y1 {
        0int
    } else {
        blk_lum_row(img, y, x0, x1) + blk_lum(img, x0, x1, y + 1, y1)
    }
}

/// Sum of squared deviations from `mean` over one block row.
pub open spec fn blk_dev_row(img: Image, y: int, x: int, x1: int, mean: int) -> int
    decreases x1 - x when x <= x1
{
    if x >= x1 {
        0int
    } else {
        (spec_luma(img, x, y) - mean) * (spec_luma(img, x, y) - mean) + blk_dev_row(
            img,
            y,
            x + 1,
            x1,
            mean,
        )
    }
}

/// Sum of squared deviations from `mean` over a block.
pub open spec fn blk_dev(img: Image, x0: int, x1: int, y: int, y1: int, mean: int) -> int
    decreases y1 - y when y <= y1
{
    if y >= y1 {
        0int
    } else {
        blk_dev_row(img, y, x0, x1, mean) + blk_dev(img, x0, x1, y + 1, y1, mean)
    }
}

/// Luma variance of the 8x8 block anchored at `(x0, y0)`, clipped to the
/// image, in millionths of a squared level: the mean squared deviation from
/// the integer mean of the block's scaled lumas.
pub open spec fn spec_block_variance(img: Image, x0: int, y0: int) -> int {
    let x1 = if x0 + 8 <= img.width {
        x0 + 8
    } else {
        img.width as int
    };
    let y1 = if y0 + 8 <= img.height {
        y0 + 8
    } else {
        img.height as int
    };
    let n = (x1 - x0) * (y1 - y0);
    if n <= 0 {
        0int
    } else {
        let mean = blk_lum(img, x0, x1, y0, y1) / n;
        blk_dev(img, x0, x1, y0, y1, mean) / n
    }
}

/// The variances of one block row, anchors `x0, x0 + 8, ...`.
pub open spec fn blocks_row_from(img: Image, y0: int, x0: int) -> Seq<u64>
    decreases img.width + 8 - x0 when x0 >= 0
{
    if x0 < 0 || x0 >= img.width {
        Seq::empty()
    } else {
        seq![spec_block_variance(img, x0, y0) as u64] + blocks_row_from(img, y0, x0 + 8)
    }
}

/// The variances of every 8x8 block, in scan order.
pub open spec fn blocks_rows_from(img: Image, y0: int) -> Seq<u64>
    decreases img.height + 8 - y0 when y0 >= 0
{
    if y0 < 0 || y0 >= img.height {
        Seq::empty()
    } else {
        blocks_row_from(img, y0, 0) + blocks_rows_from(img, y0 + 8)
    }
}

/// The block variances of the whole image.
pub open spec fn spec_block_variances(img: Image) -> Seq<u64> {
    blocks_rows_from(img, 0)
}

/// `v` is the upper-median element of `s`: the element a sorted
/// rearrangement of `s` holds at index `len / 2`; zero for an empty `s`.
pub open spec fn is_median_variance(v: u64, s: Seq<u64>) -> bool {
    if s.len() == 0 {
        v == 0
    } else {
        exists|t: Seq<u64>|
            #![trigger t.to_multiset()]
            t.to_multiset() == s.to_multiset() && sorted_u64(t) && t.len() == s.len() && v == t[
                s.len() as int / 2
            ]
    }
}

/// Luma variance of one clipped 8x8 block.
fn block_variance(img: &Image, x0: u32, y0: u32) -> (v: u64)
    requires
        img.wf(),
        x0 < img.width,
        y0 < img.height,
    ensures
        v as int == spec_block_variance(*img, x0 as int, y0 as int),
        v <= 0xF_4240_0000_0000,
{
    let x1: u32 = if (x0 as u64) + 8 <= (img.width as u64) {
        x0 + 8
    } else {
        img.width
    };
    let y1: u32 = if (y0 as u64) + 8 <= (img.height as u64) {
        y0 + 8
    } else {
        img.height
    };
    proof {
        assert(x1 as int == if x0 as int + 8 <= img.width {
            x0 as int + 8
        } else {
            img.width as int
        });
        assert(y1 as int == if y0 as int + 8 <= img.height {
            y0 as int + 8
        } else {
            img.height as int
        });
    }
    let cols: u64 = (x1 - x0) as u64;
    let rows: u64 = (y1 - y0) as u64;
    proof {
        assert(1 <= cols * rows <= 64) by (nonlinear_arith)
            requires
                1 <= cols <= 8,
                1 <= rows <= 8,
        ;
    }
    let n: u64 = cols * rows;
    // First pass: sum of scaled lumas.
    let mut sum: u64 = 0;
    let mut y: u32 = y0;
    while y < y1
        invariant
            img.wf(),
            x0 < img.width,
            x0 <= x1 <= img.width,
            x1 as int - x0 as int <= 8,
            y0 <= y <= y1,
            y1 <= img.height,
            y1 as int - y0 as int <= 8,
            sum == blk_lum(*img, x0 as int, x1 as int, y0 as int, y as int),
            sum <= (y as int - y0 as int) * ((x1 as int - x0 as int) * 255000),
        decreases y1 - y,
    {
        let mut x: u32 = x0;
        let ghost sum0 = sum;
        while x < x1
            invariant
                img.wf(),
                x0 <= x <= x1,
                x1 <= img.width,
                x1 as int - x0 as int <= 8,
                y0 <= y < y1,
                y1 <= img.height,
                y1 as int - y0 as int <= 8,
                sum == sum0 + blk_lum_row(*img, y as int, x0 as int, x as int),
                sum - sum0 <= (x as int - x0 as int) * 255000,
                sum0 <= (y as int - y0 as int) * ((x1 as int - x0 as int) * 255000),
            decreases x1 - x,
        {
            let l: u64 = luma_scaled(img, x, y);
            proof {
                assert(sum0 <= 16320000 && sum - sum0 <= 2040000) by (nonlinear_arith)
                    requires
                        sum0 <= (y as int - y0 as int) * ((x1 as int - x0 as int) * 255000),
                        sum - sum0 <= (x as int - x0 as int) * 255000,
                        0 <= y as int - y0 as int <= 8,
                        0 <= x1 as int - x0 as int <= 8,
                        0 <= x as int - x0 as int <= 8,
                ;
                assert(blk_lum_row(*img, y as int, x0 as int, x as int + 1) == blk_lum_row(
                    *img,
                    y as int,
                    x0 as int,
                    x as int,
                ) + spec_luma(*img, x as int, y as int)) by {
                    lemma_blk_lum_row_snoc(*img, y as int, x0 as int, x as int);
                }
            }
            sum = sum + l;
            x = x + 1;
        }
        proof {
            assert(blk_lum(*img, x0 as int, x1 as int, y0 as int, y as int + 1) == blk_lum(
                *img,
                x0 as int,
                x1 as int,
                y0 as int,
                y as int,
            ) + blk_lum_row(*img, y as int, x0 as int, x1 as int)) by {
                lemma_blk_lum_snoc(*img, x0 as int, x1 as int, y0 as int, y as int);
            }
            assert((y as int + 1 - y0 as int) * ((x1 as int - x0 as int) * 255000) == (y as int
                - y0 as int) * ((x1 as int - x0 as int) * 255000) + (x1 as int - x0 as int)
                * 255000) by (nonlinear_arith);
        }
        y = y + 1;
    }
    proof {
        assert(sum <= n * 255000) by (nonlinear_arith)
            requires
                sum <= rows * (cols * 255000),
                n == cols * rows,
                0 <= cols,
                0 <= rows,
        ;
    }
    let mean: u64 = sum / n;
    proof {
        assert(mean <= 255000) by (nonlinear_arith)
            requires
                1 <= n,
                sum <= n * 255000,
                mean == sum / n,
        ;
        assert(mean as int == blk_lum(*img, x0 as int, x1 as int, y0 as int, y1 as int) / n as int);
    }
    // Second pass: sum of squared deviations from the integer mean.
    let mut dev: u64 = 0;
    let mut y2: u32 = y0;
    while y2 < y1
        invariant
            img.wf(),
            x0 < img.width,
            x0 <= x1 <= img.width,
            x1 as int - x0 as int <= 8,
            y0 <= y2 <= y1,
            y1 <= img.height,
            y1 as int - y0 as int <= 8,
            mean <= 255000,
            dev == blk_dev(*img, x0 as int, x1 as int, y0 as int, y2 as int, mean as int),
            dev <= (y2 as int - y0 as int) * ((x1 as int - x0 as int) * 0xF_4240_0000),
        decreases y1 - y2,
    {
        let mut x: u32 = x0;
        let ghost dev0 = dev;
        while x < x1
            invariant
                img.wf(),
                x0 <= x <= x1,
                x1 <= img.width,
                x1 as int - x0 as int <= 8,
                y0 <= y2 < y1,
                y1 <= img.height,
                y1 as int - y0 as int <= 8,
                mean <= 255000,
                dev == dev0 + blk_dev_row(*img, y2 as int, x0 as int, x as int, mean as int),
                dev - dev0 <= (x as int - x0 as int) * 0xF_4240_0000,
                dev0 <= (y2 as int - y0 as int) * ((x1 as int - x0 as int) * 0xF_4240_0000),
            decreases x1 - x,
        {
            let l: u64 = luma_scaled(img, x, y2);
            let d: i64 = l as i64 - mean as i64;
            proof {
                assert(0 <= d * d <= 0xF_4240_0000) by (nonlinear_arith)
                    requires
                        -255000 <= d <= 255000,
                ;
                assert(dev0 <= 64 * 0xF_4240_0000 && dev - dev0 <= 8 * 0xF_4240_0000)
                    by (nonlinear_arith)
                    requires
                        dev0 <= (y2 as int - y0 as int) * ((x1 as int - x0 as int)
                            * 0xF_4240_0000),
                        dev - dev0 <= (x as int - x0 as int) * 0xF_4240_0000,
                        0 <= y2 as int - y0 as int <= 8,
                        0 <= x1 as int - x0 as int <= 8,
                        0 <= x as int - x0 as int <= 8,
                ;
                assert(blk_dev_row(*img, y2 as int, x0 as int, x as int + 1, mean as int)
                    == blk_dev_row(*img, y2 as int, x0 as int, x as int, mean as int) + (spec_luma(
                    *img,
                    x as int,
                    y2 as int,
                ) - mean as int) * (spec_luma(*img, x as int, y2 as int) - mean as int)) by {
                    lemma_blk_dev_row_snoc(*img, y2 as int, x0 as int, x as int, mean as int);
                }
            }
            dev = dev + ((d * d) as u64);
            x = x + 1;
        }
        proof {
            assert(blk_dev(*img, x0 as int, x1 as int, y0 as int, y2 as int + 1, mean as int)
                == blk_dev(*img, x0 as int, x1 as int, y0 as int, y2 as int, mean as int)
                + blk_dev_row(*img, y2 as int, x0 as int, x1 as int, mean as int)) by {
                lemma_blk_dev_snoc(*img, x0 as int, x1 as int, y0 as int, y2 as int, mean as int);
            }
            assert((y2 as int + 1 - y0 as int) * ((x1 as int - x0 as int) * 0xF_4240_0000) == (
            y2 as int - y0 as int) * ((x1 as int - x0 as int) * 0xF_4240_0000) + (x1 as int
                - x0 as int) * 0xF_4240_0000) by (nonlinear_arith);
        }
        y2 = y2 + 1;
    }
    let v: u64 = dev / n;
    proof {
        assert(v as int == blk_dev(*img, x0 as int, x1 as int, y0 as int, y1 as int, mean as int)
            / n as int);
        assert(dev <= n * 0xF_4240_0000) by (nonlinear_arith)
            requires
                dev <= rows * (cols * 0xF_4240_0000),
                n == cols * rows,
                0 <= cols,
                0 <= rows,
        ;
        assert(v <= 0xF_4240_0000_0000) by (nonlinear_arith)
            requires
                1 <= n,
                v == dev / n,
                dev <= n * 0xF_4240_0000,
                n <= 64,
        ;
    }
    v
}

proof fn lemma_blk_lum_row_snoc(img: Image, y: int, x0: int, x: int)
    requires
        x0 <= x,
    ensures
        blk_lum_row(img, y, x0, x + 1) == blk_lum_row(img, y, x0, x) + spec_luma(img, x, y),
    decreases x - x0,
{
    if x0 < x {
        lemma_blk_lum_row_snoc(img, y, x0 + 1, x);
        assert(blk_lum_row(img, y, x0, x + 1) == spec_luma(img, x0, y) + blk_lum_row(
            img,
            y,
            x0 + 1,
            x + 1,
        ));
        assert(blk_lum_row(img, y, x0, x) == spec_luma(img, x0, y) + blk_lum_row(img, y, x0 + 1, x));
    } else {
        assert(blk_lum_row(img, y, x0, x + 1) == spec_luma(img, x0, y) + blk_lum_row(
            img,
            y,
            x0 + 1,
            x + 1,
        ));
        assert(blk_lum_row(img, y, x0 + 1, x + 1) == 0);
        assert(blk_lum_row(img, y, x0, x) == 0);
    }
}

proof fn lemma_blk_lum_snoc(img: Image, x0: int, x1: int, y0: int, y: int)
    requires
        y0 <= y,
    ensures
        blk_lum(img, x0, x1, y0, y + 1) == blk_lum(img, x0, x1, y0, y) + blk_lum_row(
            img,
            y,
            x0,
            x1,
        ),
    decreases y - y0,
{
    if y0 < y {
        lemma_blk_lum_snoc(img, x0, x1, y0 + 1, y);
        assert(blk_lum(img, x0, x1, y0, y + 1) == blk_lum_row(img, y0, x0, x1) + blk_lum(
            img,
            x0,
            x1,
            y0 + 1,
            y + 1,
        ));
        assert(blk_lum(img, x0, x1, y0, y) == blk_lum_row(img, y0, x0, x1) + blk_lum(
            img,
            x0,
            x1,
            y0 + 1,
            y,
        ));
    } else {
        assert(blk_lum(img, x0, x1, y0, y + 1) == blk_lum_row(img, y0, x0, x1) + blk_lum(
            img,
            x0,
            x1,
            y0 + 1,
            y + 1,
        ));
        assert(blk_lum(img, x0, x1, y0 + 1, y + 1) == 0);
        assert(blk_lum(img, x0, x1, y0, y) == 0);
    }
}

proof fn lemma_blk_dev_row_snoc(img: Image, y: int, x0: int, x: int, mean: int)
    requires
        x0 <= x,
    ensures
        blk_dev_row(img, y, x0, x + 1, mean) == blk_dev_row(img, y, x0, x, mean) + (spec_luma(
            img,
            x,
            y,
        ) - mean) * (spec_luma(img, x, y) - mean),
    decreases x - x0,
{
    if x0 < x {
        lemma_blk_dev_row_snoc(img, y, x0 + 1, x, mean);
        assert(blk_dev_row(img, y, x0, x + 1, mean) == (spec_luma(img, x0, y) - mean) * (spec_luma(
            img,
            x0,
            y,
        ) - mean) + blk_dev_row(img, y, x0 + 1, x + 1, mean));
        assert(blk_dev_row(img, y, x0, x, mean) == (spec_luma(img, x0, y) - mean) * (spec_luma(
            img,
            x0,
            y,
        ) - mean) + blk_dev_row(img, y, x0 + 1, x, mean));
    } else {
        assert(blk_dev_row(img, y, x0, x + 1, mean) == (spec_luma(img, x0, y) - mean) * (spec_luma(
            img,
            x0,
            y,
        ) - mean) + blk_dev_row(img, y, x0 + 1, x + 1, mean));
        assert(blk_dev_row(img, y, x0 + 1, x + 1, mean) == 0);
        assert(blk_dev_row(img, y, x0, x, mean) == 0);
    }
}

proof fn lemma_blk_dev_snoc(img: Image, x0: int, x1: int, y0: int, y: int, mean: int)
    requires
        y0 <= y,
    ensures
        blk_dev(img, x0, x1, y0, y + 1, mean) == blk_dev(img, x0, x1, y0, y, mean) + blk_dev_row(
            img,
            y,
            x0,
            x1,
            mean,
        ),
    decreases y - y0,
{
    if y0 < y {
        lemma_blk_dev_snoc(img, x0, x1, y0 + 1, y, mean);
        assert(blk_dev(img, x0, x1, y0, y + 1, mean) == blk_dev_row(img, y0, x0, x1, mean)
            + blk_dev(img, x0, x1, y0 + 1, y + 1, mean));
        assert(blk_dev(img, x0, x1, y0, y, mean) == blk_dev_row(img, y0, x0, x1, mean) + blk_dev(
            img,
            x0,
            x1,
            y0 + 1,
            y,
            mean,
        ));
    } else {
        assert(blk_dev(img, x0, x1, y0, y + 1, mean) == blk_dev_row(img, y0, x0, x1, mean)
            + blk_dev(img, x0, x1, y0 + 1, y + 1, mean));
        assert(blk_dev(img, x0, x1, y0 + 1, y + 1, mean) == 0);
        assert(blk_dev(img, x0, x1, y0, y, mean) == 0);
    }
}

/// The median of the per-block luma variances over 8x8 blocks, in
/// millionths of a squared level. The median, not the mean, so a single
/// high-contrast region cannot dominate the statistic.
pub fn calculate_local_variance(img: &Image) -> (r: u64)
    requires
        img.wf(),
    ensures
        is_median_variance(r, spec_block_variances(*img)),
{
    let w: u64 = img.width as u64;
    let h: u64 = img.height as u64;
    let mut vars: Vec<u64> = Vec::new();
    let mut y: u64 = 0;
    while y < h
        invariant
            img.wf(),
            w == img.width,
            h == img.height,
            y < h + 8,
            spec_block_variances(*img) == vars@ + blocks_rows_from(*img, y as int),
        decreases h + 8 - y,
    {
        let mut x: u64 = 0;
        while x < w
            invariant
                img.wf(),
                w == img.width,
                h == img.height,
                y < h,
                x < w + 8,
                spec_block_variances(*img) == vars@ + (blocks_row_from(*img, y as int, x as int)
                    + blocks_rows_from(*img, y as int + 8)),
            decreases w + 8 - x,
        {
            let v: u64 = block_variance(img, x as u32, y as u32);
            proof {
                assert(blocks_row_from(*img, y as int, x as int) == seq![
                    spec_block_variance(*img, x as int, y as int) as u64,
                ] + blocks_row_from(*img, y as int, x as int + 8));
                assert(vars@ + (blocks_row_from(*img, y as int, x as int) + blocks_rows_from(
                    *img,
                    y as int + 8,
                )) =~= vars@.push(v) + (blocks_row_from(*img, y as int, x as int + 8)
                    + blocks_rows_from(*img, y as int + 8)));
            }
            vars.push(v);
            x = x + 8;
        }
        proof {
            assert(blocks_row_from(*img, y as int, x as int) =~= Seq::<u64>::empty());
            assert(vars@ + (blocks_row_from(*img, y as int, x as int) + blocks_rows_from(
                *img,
                y as int + 8,
            )) =~= vars@ + blocks_rows_from(*img, y as int + 8));
        }
        y = y + 8;
    }
    proof {
        assert(blocks_rows_from(*img, y as int) =~= Seq::<u64>::empty());
        assert(vars@ + blocks_rows_from(*img, y as int) =~= vars@);
    }
    if vars.len() == 0 {
        return 0;
    }
    let ghost unsorted = vars@;
    sort_u64(&mut vars);
    let mid: usize = vars.len() / 2;
    let r: u64 = vars[mid];
    proof {
        assert(is_median_variance(r, spec_block_variances(*img))) by {
            broadcast use vstd::seq_lib::group_to_multiset_ensures;

            assert(vars@.to_multiset() == unsorted.to_multiset());
            assert(vars@.to_multiset().len() == unsorted.to_multiset().len());
            assert(vars@.len() == unsorted.len());
        }
    }
    r
}

/// Everything `analyze_image` promises about its result.
pub open spec fn spec_analysis_ok(img: Image, a: ImageAnalysis) -> bool {
    if img.width == 0 || img.height == 0 {
        a == (ImageAnalysis {
            gradient_smoothness: 0,
            edge_density: 0,
            color_diversity: 0,
            local_variance: 0,
            detail_frequency: 0,
        })
    } else {
        &&& a.gradient_smoothness as int == spec_gradient_smoothness(img)
        &&& a.edge_density as int == spec_edge_density(img)
        &&& a.color_diversity as int == spec_color_diversity(img)
        &&& is_median_variance(a.local_variance, spec_block_variances(img))
        &&& a.detail_frequency as int == spec_detail_frequency(img)
    }
}

/// Analyze the characteristics of an image. An image with a zero dimension
/// degenerates to all-zero metrics.
pub fn analyze_image(img: &Image) -> (a: ImageAnalysis)
    requires
        img.wf(),
    ensures
        spec_analysis_ok(*img, a),
{
    if img.width == 0 || img.height == 0 {
        return ImageAnalysis {
            gradient_smoothness: 0,
            edge_density: 0,
            color_diversity: 0,
            local_variance: 0,
            detail_frequency: 0,
        };
    }
    let gradient_smoothness: u32 = calculate_gradient_smoothness(img);
    let edge_density: u32 = calculate_edge_density(img);
    let color_diversity: u32 = calculate_color_diversity(img);
    let local_variance: u64 = calculate_local_variance(img);
    let detail_frequency: u32 = calculate_detail_frequency(img);
    ImageAnalysis { gradient_smoothness, edge_density, color_diversity, local_variance, detail_frequency }
}

/// The dithering mode the decision list selects for a set of metrics.
/// Thresholds are in the metrics' scaled units: thousandths for ratios and
/// the gradient, millionths for the variance.
pub open spec fn spec_select_mode(a: ImageAnalysis) -> DitheringMode {
    if a.gradient_smoothness < 5000 && a.edge_density < 150 && a.local_variance < 200000000 {
        DitheringMode::Flat
    } else if a.color_diversity < 100 && a.edge_density < 150 {
        DitheringMode::Flat
    } else if a.color_diversity > 100 && a.color_diversity < 500 && a.edge_density > 150
        && a.edge_density < 350 && a.detail_frequency < 250 {
        DitheringMode::MedianCut
    } else if a.detail_frequency > 250 && a.edge_density > 350 && a.color_diversity > 300 {
        DitheringMode::FloydSteinberg
    } else if a.edge_density > 400 && a.local_variance > 600000000 && a.color_diversity > 500 {
        DitheringMode::FloydSteinberg
    } else if a.gradient_smoothness < 10000 && a.edge_density < 300 {
        DitheringMode::Ordered
    } else {
        DitheringMode::Ordered
    }
}

/// Select the optimal dithering mode from the image characteristics, as an
/// ordered decision list whose first matching rule wins; the final default
/// makes the function total.
pub fn select_optimal_mode(analysis: &ImageAnalysis) -> (m: DitheringMode)
    ensures
        m == spec_select_mode(*analysis),
        m != DitheringMode::Auto,
{
    // Very smooth gradient with low complexity: no dithering is cleanest.
    if analysis.gradient_smoothness < 5000 && analysis.edge_density < 150
        && analysis.local_variance < 200000000 {
        return DitheringMode::Flat;
    }
    // Simple image with few colors: no dithering.
    if analysis.color_diversity < 100 && analysis.edge_density < 150 {
        return DitheringMode::Flat;
    }
    // Distinct flat color regions (logos, UI, illustration): median cut.
    if analysis.color_diversity > 100 && analysis.color_diversity < 500 && analysis.edge_density
        > 150 && analysis.edge_density < 350 && analysis.detail_frequency < 250 {
        return DitheringMode::MedianCut;
    }
    // Photo-like with high detail frequency: error diffusion.
    if analysis.detail_frequency > 250 && analysis.edge_density > 350 && analysis.color_diversity
        > 300 {
        return DitheringMode::FloydSteinberg;
    }
    // High-complexity photo-like content: error diffusion.
    if analysis.edge_density > 400 && analysis.local_variance > 600000000
        && analysis.color_diversity > 500 {
        return DitheringMode::FloydSteinberg;
    }
    // Moderately complex but still fairly smooth: ordered dithering.
    if analysis.gradient_smoothness < 10000 && analysis.edge_density < 300 {
        return DitheringMode::Ordered;
    }
    // Default: ordered dithering as the safe middle ground.
    DitheringMode::Ordered
}

/// Analyze an image and recommend the best dithering mode for it. The
/// recommendation is never the unresolved automatic mode.
pub fn recommend_dithering_mode(img: &Image) -> (m: DitheringMode)
    requires
        img.wf(),
    ensures
        exists|a: ImageAnalysis|
            #![trigger spec_analysis_ok(*img, a)]
            spec_analysis_ok(*img, a) && m == spec_select_mode(a),
        m != DitheringMode::Auto,
{
    let analysis: ImageAnalysis = analyze_image(img);
    select_optimal_mode(&analysis)
}

} // verus!
