use vstd::prelude::*;

use crate::raster::{Image, pix_idx, lemma_pix_idx_bounds};
use crate::minify::{spec_quantize, spec_clamp_255, spec_div_trunc, quantize_channel};

verus! {

/// Flat index of the pixel at `(x, y)` in a `width`-wide single-channel plane.
pub open spec fn plane_idx(width: int, x: int, y: int) -> int {
    y * width + x
}

proof fn lemma_plane_idx_bounds(width: int, height: int, x: int, y: int)
    requires
        0 <= x < width,
        0 <= y < height,
    ensures
        0 <= plane_idx(width, x, y) < width * height,
{
    assert(0 <= y * width + x < width * height) by (nonlinear_arith)
        requires
            0 <= x < width,
            0 <= y < height,
    ;
}

proof fn lemma_plane_idx_injective(width: int, x1: int, y1: int, x2: int, y2: int)
    requires
        0 <= x1 < width,
        0 <= x2 < width,
        0 <= y1,
        0 <= y2,
        (x1, y1) != (x2, y2),
    ensures
        plane_idx(width, x1, y1) != plane_idx(width, x2, y2),
{
    assert(y1 * width + x1 != y2 * width + x2) by (nonlinear_arith)
        requires
            0 <= x1 < width,
            0 <= x2 < width,
            (x1, y1) != (x2, y2),
    ;
}

/// A finished sample of error diffusion: it is the quantization of some value
/// that strays from the source sample by at most `4 * factor`, so the error
/// a pixel accumulates before quantization never runs away.
pub open spec fn fs_done(q: int, orig: int, factor: int) -> bool {
    exists|v: int|
        #![trigger spec_quantize(v, factor)]
        -(64 * factor) <= 16 * (v - orig) <= 64 * factor && q == spec_quantize(v, factor)
}

/// Error diffusion cannot run away: a finished sample differs from its
/// source sample by at most four and a half quantization steps, however the
/// attenuated error of earlier pixels accumulated.
pub proof fn lemma_fs_error_bounded(q: int, s: int, factor: int)
    requires
        fs_done(q, s, factor),
        0 <= s <= 255,
        8 <= factor <= 32,
    ensures
        -(9 * factor) <= 2 * (q - s) <= 9 * factor,
{
    let v = choose|v: int|
        #![trigger spec_quantize(v, factor)]
        -(64 * factor) <= 16 * (v - s) <= 64 * factor && q == spec_quantize(v, factor);
    lemma_quantize_err(v, s, factor);
    let c = spec_clamp_255(v);
    assert(-(8 * factor) <= 2 * (c - s) <= 8 * factor);
}

/// The working value `cur` deviates from the source sample `orig` by at most
/// `cap * factor / 16`, stated without division.
pub open spec fn fs_dev(cur: int, orig: int, factor: int, cap: int) -> bool {
    -(cap * factor) <= 16 * (cur - orig) <= cap * factor
}

/// Quantization moves a value by at most half a step beyond its clamping
/// distance: if `v` strays from a byte by at most `4 * factor`, the
/// quantization error of `v` is at most `4.5 * factor`.
proof fn lemma_quantize_err(v: int, orig: int, factor: int)
    requires
        0 <= orig <= 255,
        8 <= factor <= 32,
        -(4 * factor) <= v - orig <= 4 * factor,
    ensures
        -(9 * factor) <= 2 * (v - spec_quantize(v, factor)) <= 9 * factor,
        -factor <= 2 * (spec_clamp_255(v) - spec_quantize(v, factor)) <= factor,
        0 <= spec_quantize(v, factor) <= 255,
{
    let f = factor;
    let c = if v < 0 { 0 } else if v > 255 { 255 } else { v };
    assert(-(4 * f) <= v - c <= 4 * f);
    let a = c + f / 2;
    let qm = (a / f) * f;
    vstd::arithmetic::div_mod::lemma_fundamental_div_mod(a, f);
    vstd::arithmetic::div_mod::lemma_mod_bound(a, f);
    assert(f * (a / f) == (a / f) * f) by (nonlinear_arith);
    assert(qm == a - a % f);
    assert(0 <= a % f < f);
    assert(c - qm == a % f - f / 2);
    assert(-f <= 2 * (c - qm) <= f);
    assert(0 <= qm);
    let q = spec_quantize(v, f);
    if qm > 255 {
        assert(q == 255);
        assert(c - q <= 0);
        assert(2 * (c - q) >= -f);
    } else {
        assert(q == qm);
    }
    assert(-(9 * f) <= 2 * (v - q) <= 9 * f);
}

/// Truncating division shrinks magnitude: `|trunc(a / d)| * d <= |a|`.
proof fn lemma_trunc_div_bound(a: int, d: int)
    requires
        0 < d,
    ensures
        spec_div_trunc(a, d) * d <= a || a < 0,
        a <= spec_div_trunc(a, d) * d || a > 0,
        a >= 0 ==> 0 <= spec_div_trunc(a, d) * d <= a,
        a <= 0 ==> a <= spec_div_trunc(a, d) * d <= 0,
{
    if a >= 0 {
        assert(0 <= (a / d) * d <= a) by (nonlinear_arith)
            requires
                0 < d,
                0 <= a,
        ;
    } else {
        assert(0 <= ((-a) / d) * d <= -a) by (nonlinear_arith)
            requires
                0 < d,
                0 <= -a,
        ;
        assert((-((-a) / d)) * d == -(((-a) / d) * d)) by (nonlinear_arith);
        assert(a <= spec_div_trunc(a, d) * d <= 0);
    }
}

/// The sample of a single-channel plane at `(x, y)`.
pub open spec fn cell(plane: Seq<i32>, w: int, x: int, y: int) -> int {
    plane[plane_idx(w, x, y)] as int
}

/// A finished cell: a byte that quantizes a boundedly-perturbed source sample.
pub open spec fn done_cell(b: int, s: int, f: int) -> bool {
    0 <= b <= 255 && fs_done(b, s, f)
}

/// All cells of rows `0 .. yto` are finished.
pub open spec fn rows_done(buf: Seq<i32>, src: Seq<i32>, w: int, yto: int, f: int) -> bool {
    forall|xp: int, yp: int|
        0 <= xp < w && 0 <= yp < yto ==> done_cell(
            #[trigger] cell(buf, w, xp, yp),
            cell(src, w, xp, yp),
            f,
        )
}

/// Every cell of row `y` deviates from its source by at most `cap * f / 16`.
pub open spec fn row_capped(buf: Seq<i32>, src: Seq<i32>, w: int, y: int, f: int, cap: int) -> bool {
    forall|xp: int|
        0 <= xp < w ==> fs_dev(#[trigger] cell(buf, w, xp, y), cell(src, w, xp, y), f, cap)
}

/// All cells of rows `yfrom ..` still hold their source samples.
pub open spec fn rows_pristine(buf: Seq<i32>, src: Seq<i32>, w: int, h: int, yfrom: int) -> bool {
    forall|xp: int, yp: int|
        0 <= xp < w && yfrom <= yp < h ==> #[trigger] cell(buf, w, xp, yp) == cell(src, w, xp, yp)
}

/// The deviation budget of a cell in the row below the scan, for a
/// left-to-right scan at column `x`: cells further left have received all
/// three of their contributions from this row, nearer cells fewer.
pub open spec fn below_zone_fwd(
    buf: Seq<i32>,
    src: Seq<i32>,
    w: int,
    x: int,
    y: int,
    f: int,
    xp: int,
) -> bool {
    let b = cell(buf, w, xp, y + 1);
    let s = cell(src, w, xp, y + 1);
    if xp <= x - 2 {
        fs_dev(b, s, f, 36)
    } else if xp == x - 1 {
        fs_dev(b, s, f, 24)
    } else if xp == x {
        fs_dev(b, s, f, 4)
    } else {
        b == s
    }
}

/// Process one row left to right: quantize each cell in turn and diffuse the
/// attenuated error to the right neighbor and the three neighbors below.
fn fs_row_forward(buf: &mut Vec<i32>, src: &Vec<i32>, w: u32, h: u32, y: u32, factor: u8)
    requires
        src@.len() == w * h,
        w * h <= usize::MAX,
        old(buf)@.len() == src@.len(),
        forall|xp: int, yp: int|
            0 <= xp < w && 0 <= yp < h ==> 0 <= #[trigger] cell(src@, w as int, xp, yp) <= 255,
        8 <= factor <= 32,
        y < h,
        rows_done(old(buf)@, src@, w as int, y as int, factor as int),
        row_capped(old(buf)@, src@, w as int, y as int, factor as int, 36),
        rows_pristine(old(buf)@, src@, w as int, h as int, y as int + 1),
    ensures
        final(buf)@.len() == src@.len(),
        rows_done(final(buf)@, src@, w as int, y as int + 1, factor as int),
        y as int + 1 < h ==> row_capped(final(buf)@, src@, w as int, y as int + 1, factor as int, 36),
        rows_pristine(final(buf)@, src@, w as int, h as int, y as int + 2),
{
    let ghost wi = w as int;
    let ghost hi = h as int;
    let ghost yi = y as int;
    let ghost fi = factor as int;
    proof {
        assert forall|xp: int| 0 <= xp < wi implies fs_dev(
            cell(buf@, wi, xp, yi),
            cell(src@, wi, xp, yi),
            fi,
            36,
        ) by {}
        if yi + 1 < hi {
            assert forall|xp: int| 0 <= xp < wi implies below_zone_fwd(buf@, src@, wi, 0, yi, fi, xp)
                && cell(buf@, wi, xp, yi + 1) == cell(src@, wi, xp, yi + 1) by {}
        }
    }
    let mut x: u32 = 0;
    while x < w
        invariant
            src@.len() == w * h,
            w * h <= usize::MAX,
            buf@.len() == src@.len(),
            forall|xp: int, yp: int|
                0 <= xp < w && 0 <= yp < h ==> 0 <= #[trigger] cell(src@, w as int, xp, yp) <= 255,
            8 <= factor <= 32,
            y < h,
            x <= w,
            wi == w as int,
            hi == h as int,
            yi == y as int,
            fi == factor as int,
            rows_done(buf@, src@, wi, yi, fi),
            forall|xp: int|
                0 <= xp < x ==> done_cell(
                    #[trigger] cell(buf@, wi, xp, yi),
                    cell(src@, wi, xp, yi),
                    fi,
                ),
            x < w ==> fs_dev(
                cell(buf@, wi, x as int, yi),
                cell(src@, wi, x as int, yi),
                fi,
                64,
            ),
            forall|xp: int|
                x < xp < w ==> fs_dev(
                    #[trigger] cell(buf@, wi, xp, yi),
                    cell(src@, wi, xp, yi),
                    fi,
                    36,
                ),
            yi + 1 < hi ==> forall|xp: int|
                0 <= xp < w ==> #[trigger] below_zone_fwd(buf@, src@, wi, x as int, yi, fi, xp),
            rows_pristine(buf@, src@, wi, hi, yi + 2),
        decreases w - x,
    {
        let ghost buf0 = buf@;
        let ghost xi = x as int;
        proof {
            lemma_plane_idx_bounds(wi, hi, xi, yi);
            assert(0 <= cell(src@, wi, xi, yi) <= 255);
        }
        let ghost s = cell(src@, wi, xi, yi);
        let i: usize = (y as usize) * (w as usize) + (x as usize);
        let v: i32 = buf[i];
        proof {
            assert(v as int == cell(buf0, wi, xi, yi));
            assert(-(64 * fi) <= 16 * (v as int - s) <= 64 * fi);
            lemma_quantize_err(v as int, s, fi);
        }
        let q8: u8 = quantize_channel(v as i16, factor);
        let q: i32 = q8 as i32;
        let err: i32 = v - q;
        proof {
            assert(-(9 * fi) <= 2 * (err as int) <= 9 * fi);
        }
        let att: i32 = div_trunc_i32(err * 7, 8);
        proof {
            lemma_trunc_div_bound(err as int * 7, 8);
            assert(-(4 * fi) <= att as int <= 4 * fi);
        }
        let d7: i32 = div_trunc_i32(att * 7, 16);
        let d3: i32 = div_trunc_i32(att * 3, 16);
        let d5: i32 = div_trunc_i32(att * 5, 16);
        let d1: i32 = div_trunc_i32(att, 16);
        proof {
            lemma_trunc_div_bound(att as int * 7, 16);
            lemma_trunc_div_bound(att as int * 3, 16);
            lemma_trunc_div_bound(att as int * 5, 16);
            lemma_trunc_div_bound(att as int, 16);
            assert(-(28 * fi) <= 16 * d7 as int <= 28 * fi);
            assert(-(12 * fi) <= 16 * d3 as int <= 12 * fi);
            assert(-(20 * fi) <= 16 * d5 as int <= 20 * fi);
            assert(-(4 * fi) <= 16 * d1 as int <= 4 * fi);
        }
        buf[i] = q;
        if x + 1 < w {
            proof {
                lemma_plane_idx_bounds(wi, hi, xi + 1, yi);
                assert(cell(buf@, wi, xi + 1, yi) == cell(buf0, wi, xi + 1, yi));
                assert(0 <= cell(src@, wi, xi + 1, yi) <= 255);
                assert(-(36 * fi) <= 16 * (cell(buf@, wi, xi + 1, yi) - cell(src@, wi, xi + 1, yi))
                    <= 36 * fi);
            }
            let t: i32 = buf[i + 1];
            buf[i + 1] = t + d7;
        }
        if y + 1 < h {
            proof {
                lemma_plane_idx_bounds(wi, hi, xi, yi + 1);
                assert((yi + 1) * wi == yi * wi + wi) by (nonlinear_arith);
            }
            if x >= 1 {
                proof {
                    lemma_plane_idx_bounds(wi, hi, xi - 1, yi + 1);
                    assert(below_zone_fwd(buf0, src@, wi, xi, yi, fi, xi - 1));
                    assert(0 <= cell(src@, wi, xi - 1, yi + 1) <= 255);
                    assert(i + w as usize - 1 == plane_idx(wi, xi - 1, yi + 1));
                    assert(cell(buf@, wi, xi - 1, yi + 1) == cell(buf0, wi, xi - 1, yi + 1));
                }
                let j: usize = i + (w as usize) - 1;
                let t: i32 = buf[j];
                buf[j] = t + d3;
            }
            proof {
                assert(below_zone_fwd(buf0, src@, wi, xi, yi, fi, xi));
                assert(0 <= cell(src@, wi, xi, yi + 1) <= 255);
                assert(i + w as usize == plane_idx(wi, xi, yi + 1));
                assert(cell(buf@, wi, xi, yi + 1) == cell(buf0, wi, xi, yi + 1)) by {
                    if xi >= 1 {
                        lemma_plane_idx_injective(wi, xi, yi + 1, xi - 1, yi + 1);
                    }
                    lemma_plane_idx_injective(wi, xi, yi + 1, xi, yi);
                }
            }
            let j: usize = i + (w as usize);
            let t: i32 = buf[j];
            buf[j] = t + d5;
            if x + 1 < w {
                proof {
                    lemma_plane_idx_bounds(wi, hi, xi + 1, yi + 1);
                    assert(below_zone_fwd(buf0, src@, wi, xi, yi, fi, xi + 1));
                    assert(0 <= cell(src@, wi, xi + 1, yi + 1) <= 255);
                    assert(i + w as usize + 1 == plane_idx(wi, xi + 1, yi + 1));
                    assert(cell(buf@, wi, xi + 1, yi + 1) == cell(buf0, wi, xi + 1, yi + 1)) by {
                        if xi >= 1 {
                            lemma_plane_idx_injective(wi, xi + 1, yi + 1, xi - 1, yi + 1);
                        }
                        lemma_plane_idx_injective(wi, xi + 1, yi + 1, xi, yi + 1);
                        lemma_plane_idx_injective(wi, xi + 1, yi + 1, xi, yi);
                        if xi + 1 < wi {
                            lemma_plane_idx_injective(wi, xi + 1, yi + 1, xi + 1, yi);
                        }
                    }
                }
                let j2: usize = i + (w as usize) + 1;
                let t2: i32 = buf[j2];
                buf[j2] = t2 + d1;
            }
        }
        proof {
            let bufn = buf@;
            // every cell other than the five the scan step touches is unchanged
            assert forall|xp: int, yp: int|
                0 <= xp < wi && 0 <= yp < hi && !(yp == yi && (xp == xi || xp == xi + 1)) && !(yp
                    == yi + 1 && xi - 1 <= xp <= xi + 1) implies #[trigger] cell(bufn, wi, xp, yp)
                == cell(buf0, wi, xp, yp) by {
                lemma_plane_idx_bounds(wi, hi, xp, yp);
                lemma_plane_idx_injective(wi, xp, yp, xi, yi);
                if xi + 1 < wi {
                    lemma_plane_idx_injective(wi, xp, yp, xi + 1, yi);
                }
                if yi + 1 < hi {
                    if xi >= 1 {
                        lemma_plane_idx_injective(wi, xp, yp, xi - 1, yi + 1);
                    }
                    lemma_plane_idx_injective(wi, xp, yp, xi, yi + 1);
                    if xi + 1 < wi {
                        lemma_plane_idx_injective(wi, xp, yp, xi + 1, yi + 1);
                    }
                }
            }
            // the finished cell
            assert(cell(bufn, wi, xi, yi) == q as int) by {
                if xi + 1 < wi {
                    lemma_plane_idx_injective(wi, xi, yi, xi + 1, yi);
                }
                if yi + 1 < hi {
                    if xi >= 1 {
                        lemma_plane_idx_injective(wi, xi, yi, xi - 1, yi + 1);
                    }
                    lemma_plane_idx_injective(wi, xi, yi, xi, yi + 1);
                    if xi + 1 < wi {
                        lemma_plane_idx_injective(wi, xi, yi, xi + 1, yi + 1);
                    }
                }
            }
            assert(done_cell(q as int, s, fi)) by {
                assert(q as int == spec_quantize(v as int, fi));
                assert(-(64 * fi) <= 16 * (v as int - s) <= 64 * fi);
            }
            // the right neighbor moves from cap 36 to cap 64
            if xi + 1 < wi {
                assert(cell(bufn, wi, xi + 1, yi) == cell(buf0, wi, xi + 1, yi) + d7 as int) by {
                    if yi + 1 < hi {
                        if xi >= 1 {
                            lemma_plane_idx_injective(wi, xi + 1, yi, xi - 1, yi + 1);
                        }
                        lemma_plane_idx_injective(wi, xi + 1, yi, xi, yi + 1);
                        lemma_plane_idx_injective(wi, xi + 1, yi, xi + 1, yi + 1);
                    }
                }
                assert(fs_dev(cell(bufn, wi, xi + 1, yi), cell(src@, wi, xi + 1, yi), fi, 64));
            }
            // the three neighbors below move one zone outward
            if yi + 1 < hi {
                if xi >= 1 {
                    assert(cell(bufn, wi, xi - 1, yi + 1) == cell(buf0, wi, xi - 1, yi + 1)
                        + d3 as int) by {
                        lemma_plane_idx_injective(wi, xi - 1, yi + 1, xi, yi + 1);
                        if xi + 1 < wi {
                            lemma_plane_idx_injective(wi, xi - 1, yi + 1, xi + 1, yi + 1);
                        }
                    }
                    assert(fs_dev(
                        cell(bufn, wi, xi - 1, yi + 1),
                        cell(src@, wi, xi - 1, yi + 1),
                        fi,
                        36,
                    ));
                }
                assert(cell(bufn, wi, xi, yi + 1) == cell(buf0, wi, xi, yi + 1) + d5 as int) by {
                    if xi + 1 < wi {
                        lemma_plane_idx_injective(wi, xi, yi + 1, xi + 1, yi + 1);
                    }
                }
                assert(fs_dev(cell(bufn, wi, xi, yi + 1), cell(src@, wi, xi, yi + 1), fi, 24));
                if xi + 1 < wi {
                    assert(cell(bufn, wi, xi + 1, yi + 1) == cell(buf0, wi, xi + 1, yi + 1)
                        + d1 as int);
                    assert(fs_dev(
                        cell(bufn, wi, xi + 1, yi + 1),
                        cell(src@, wi, xi + 1, yi + 1),
                        fi,
                        4,
                    ));
                }
                assert forall|xp: int| 0 <= xp < wi implies #[trigger] below_zone_fwd(
                    bufn,
                    src@,
                    wi,
                    xi + 1,
                    yi,
                    fi,
                    xp,
                ) by {
                    assert(below_zone_fwd(buf0, src@, wi, xi, yi, fi, xp));
                }
            }
        }
        x = x + 1;
    }
    proof {
        assert forall|xp: int, yp: int|
            0 <= xp < wi && 0 <= yp < yi + 1 implies done_cell(
            #[trigger] cell(buf@, wi, xp, yp),
            cell(src@, wi, xp, yp),
            fi,
        ) by {}
        if yi + 1 < hi {
            assert forall|xp: int| 0 <= xp < wi implies fs_dev(
                #[trigger] cell(buf@, wi, xp, yi + 1),
                cell(src@, wi, xp, yi + 1),
                fi,
                36,
            ) by {
                assert(below_zone_fwd(buf@, src@, wi, w as int, yi, fi, xp));
            }
        }
    }
}

/// The deviation budget of a cell in the row below the scan, for a
/// right-to-left scan at column `x`: the mirror image of `below_zone_fwd`.
pub open spec fn below_zone_rev(
    buf: Seq<i32>,
    src: Seq<i32>,
    w: int,
    x: int,
    y: int,
    f: int,
    xp: int,
) -> bool {
    let b = cell(buf, w, xp, y + 1);
    let s = cell(src, w, xp, y + 1);
    if xp >= x + 2 {
        fs_dev(b, s, f, 36)
    } else if xp == x + 1 {
        fs_dev(b, s, f, 24)
    } else if xp == x {
        fs_dev(b, s, f, 4)
    } else {
        b == s
    }
}

/// Process one row right to left: the Floyd-Steinberg kernel is mirrored
/// horizontally, so error still propagates in the direction of travel.
fn fs_row_backward(buf: &mut Vec<i32>, src: &Vec<i32>, w: u32, h: u32, y: u32, factor: u8)
    requires
        src@.len() == w * h,
        w * h <= usize::MAX,
        old(buf)@.len() == src@.len(),
        forall|xp: int, yp: int|
            0 <= xp < w && 0 <= yp < h ==> 0 <= #[trigger] cell(src@, w as int, xp, yp) <= 255,
        8 <= factor <= 32,
        y < h,
        rows_done(old(buf)@, src@, w as int, y as int, factor as int),
        row_capped(old(buf)@, src@, w as int, y as int, factor as int, 36),
        rows_pristine(old(buf)@, src@, w as int, h as int, y as int + 1),
    ensures
        final(buf)@.len() == src@.len(),
        rows_done(final(buf)@, src@, w as int, y as int + 1, factor as int),
        y as int + 1 < h ==> row_capped(final(buf)@, src@, w as int, y as int + 1, factor as int, 36),
        rows_pristine(final(buf)@, src@, w as int, h as int, y as int + 2),
{
    let ghost wi = w as int;
    let ghost hi = h as int;
    let ghost yi = y as int;
    let ghost fi = factor as int;
    proof {
        assert forall|xp: int| 0 <= xp < wi implies fs_dev(
            cell(buf@, wi, xp, yi),
            cell(src@, wi, xp, yi),
            fi,
            36,
        ) by {}
        if yi + 1 < hi {
            assert forall|xp: int|
                #![trigger cell(buf@, wi, xp, yi + 1)]
                0 <= xp < wi implies below_zone_rev(buf@, src@, wi, wi - 1, yi, fi, xp) && cell(
                buf@,
                wi,
                xp,
                yi + 1,
            ) == cell(src@, wi, xp, yi + 1) by {}
        }
    }
    let mut k: u32 = 0;
    while k < w
        invariant
            src@.len() == w * h,
            w * h <= usize::MAX,
            buf@.len() == src@.len(),
            forall|xp: int, yp: int|
                0 <= xp < w && 0 <= yp < h ==> 0 <= #[trigger] cell(src@, w as int, xp, yp) <= 255,
            8 <= factor <= 32,
            y < h,
            k <= w,
            wi == w as int,
            hi == h as int,
            yi == y as int,
            fi == factor as int,
            rows_done(buf@, src@, wi, yi, fi),
            forall|xp: int|
                wi - k <= xp < wi ==> done_cell(
                    #[trigger] cell(buf@, wi, xp, yi),
                    cell(src@, wi, xp, yi),
                    fi,
                ),
            k < w ==> fs_dev(
                cell(buf@, wi, wi - 1 - k, yi),
                cell(src@, wi, wi - 1 - k, yi),
                fi,
                64,
            ),
            forall|xp: int|
                0 <= xp < wi - 1 - k ==> fs_dev(
                    #[trigger] cell(buf@, wi, xp, yi),
                    cell(src@, wi, xp, yi),
                    fi,
                    36,
                ),
            yi + 1 < hi ==> forall|xp: int|
                0 <= xp < w ==> #[trigger] below_zone_rev(buf@, src@, wi, wi - 1 - k, yi, fi, xp),
            rows_pristine(buf@, src@, wi, hi, yi + 2),
        decreases w - k,
    {
        let x: u32 = w - 1 - k;
        let ghost buf0 = buf@;
        let ghost xi = x as int;
        proof {
            lemma_plane_idx_bounds(wi, hi, xi, yi);
            assert(0 <= cell(src@, wi, xi, yi) <= 255);
        }
        let ghost s = cell(src@, wi, xi, yi);
        let i: usize = (y as usize) * (w as usize) + (x as usize);
        let v: i32 = buf[i];
        proof {
            assert(v as int == cell(buf0, wi, xi, yi));
            assert(-(64 * fi) <= 16 * (v as int - s) <= 64 * fi);
            lemma_quantize_err(v as int, s, fi);
        }
        let q8: u8 = quantize_channel(v as i16, factor);
        let q: i32 = q8 as i32;
        let err: i32 = v - q;
        proof {
            assert(-(9 * fi) <= 2 * (err as int) <= 9 * fi);
        }
        let att: i32 = div_trunc_i32(err * 7, 8);
        proof {
            lemma_trunc_div_bound(err as int * 7, 8);
            assert(-(4 * fi) <= att as int <= 4 * fi);
        }
        let d7: i32 = div_trunc_i32(att * 7, 16);
        let d3: i32 = div_trunc_i32(att * 3, 16);
        let d5: i32 = div_trunc_i32(att * 5, 16);
        let d1: i32 = div_trunc_i32(att, 16);
        proof {
            lemma_trunc_div_bound(att as int * 7, 16);
            lemma_trunc_div_bound(att as int * 3, 16);
            lemma_trunc_div_bound(att as int * 5, 16);
            lemma_trunc_div_bound(att as int, 16);
            assert(-(28 * fi) <= 16 * d7 as int <= 28 * fi);
            assert(-(12 * fi) <= 16 * d3 as int <= 12 * fi);
            assert(-(20 * fi) <= 16 * d5 as int <= 20 * fi);
            assert(-(4 * fi) <= 16 * d1 as int <= 4 * fi);
        }
        buf[i] = q;
        if x >= 1 {
            proof {
                lemma_plane_idx_bounds(wi, hi, xi - 1, yi);
                assert(cell(buf@, wi, xi - 1, yi) == cell(buf0, wi, xi - 1, yi));
                assert(0 <= cell(src@, wi, xi - 1, yi) <= 255);
                assert(-(36 * fi) <= 16 * (cell(buf@, wi, xi - 1, yi) - cell(src@, wi, xi - 1, yi))
                    <= 36 * fi);
            }
            let t: i32 = buf[i - 1];
            buf[i - 1] = t + d7;
        }
        if y + 1 < h {
            proof {
                lemma_plane_idx_bounds(wi, hi, xi, yi + 1);
                assert((yi + 1) * wi == yi * wi + wi) by (nonlinear_arith);
            }
            if x + 1 < w {
                proof {
                    lemma_plane_idx_bounds(wi, hi, xi + 1, yi + 1);
                    assert(below_zone_rev(buf0, src@, wi, xi, yi, fi, xi + 1));
                    assert(0 <= cell(src@, wi, xi + 1, yi + 1) <= 255);
                    assert(i + w as usize + 1 == plane_idx(wi, xi + 1, yi + 1));
                    assert(cell(buf@, wi, xi + 1, yi + 1) == cell(buf0, wi, xi + 1, yi + 1));
                }
                let j: usize = i + (w as usize) + 1;
                let t: i32 = buf[j];
                buf[j] = t + d3;
            }
            proof {
                assert(below_zone_rev(buf0, src@, wi, xi, yi, fi, xi));
                assert(0 <= cell(src@, wi, xi, yi + 1) <= 255);
                assert(i + w as usize == plane_idx(wi, xi, yi + 1));
                assert(cell(buf@, wi, xi, yi + 1) == cell(buf0, wi, xi, yi + 1)) by {
                    if xi + 1 < wi {
                        lemma_plane_idx_injective(wi, xi, yi + 1, xi + 1, yi + 1);
                    }
                    lemma_plane_idx_injective(wi, xi, yi + 1, xi, yi);
                }
            }
            let j: usize = i + (w as usize);
            let t: i32 = buf[j];
            buf[j] = t + d5;
            if x >= 1 {
                proof {
                    lemma_plane_idx_bounds(wi, hi, xi - 1, yi + 1);
                    assert(below_zone_rev(buf0, src@, wi, xi, yi, fi, xi - 1));
                    assert(0 <= cell(src@, wi, xi - 1, yi + 1) <= 255);
                    assert(i + w as usize - 1 == plane_idx(wi, xi - 1, yi + 1));
                    assert(cell(buf@, wi, xi - 1, yi + 1) == cell(buf0, wi, xi - 1, yi + 1)) by {
                        if xi + 1 < wi {
                            lemma_plane_idx_injective(wi, xi - 1, yi + 1, xi + 1, yi + 1);
                        }
                        lemma_plane_idx_injective(wi, xi - 1, yi + 1, xi, yi + 1);
                        lemma_plane_idx_injective(wi, xi - 1, yi + 1, xi, yi);
                        if xi >= 1 {
                            lemma_plane_idx_injective(wi, xi - 1, yi + 1, xi - 1, yi);
                        }
                    }
                }
                let j2: usize = i + (w as usize) - 1;
                let t2: i32 = buf[j2];
                buf[j2] = t2 + d1;
            }
        }
        proof {
            let bufn = buf@;
            assert forall|xp: int, yp: int|
                0 <= xp < wi && 0 <= yp < hi && !(yp == yi && (xp == xi || xp == xi - 1)) && !(yp
                    == yi + 1 && xi - 1 <= xp <= xi + 1) implies #[trigger] cell(bufn, wi, xp, yp)
                == cell(buf0, wi, xp, yp) by {
                lemma_plane_idx_bounds(wi, hi, xp, yp);
                lemma_plane_idx_injective(wi, xp, yp, xi, yi);
                if xi >= 1 {
                    lemma_plane_idx_injective(wi, xp, yp, xi - 1, yi);
                }
                if yi + 1 < hi {
                    if xi >= 1 {
                        lemma_plane_idx_injective(wi, xp, yp, xi - 1, yi + 1);
                    }
                    lemma_plane_idx_injective(wi, xp, yp, xi, yi + 1);
                    if xi + 1 < wi {
                        lemma_plane_idx_injective(wi, xp, yp, xi + 1, yi + 1);
                    }
                }
            }
            assert(cell(bufn, wi, xi, yi) == q as int) by {
                if xi >= 1 {
                    lemma_plane_idx_injective(wi, xi, yi, xi - 1, yi);
                }
                if yi + 1 < hi {
                    if xi >= 1 {
                        lemma_plane_idx_injective(wi, xi, yi, xi - 1, yi + 1);
                    }
                    lemma_plane_idx_injective(wi, xi, yi, xi, yi + 1);
                    if xi + 1 < wi {
                        lemma_plane_idx_injective(wi, xi, yi, xi + 1, yi + 1);
                    }
                }
            }
            assert(done_cell(q as int, s, fi)) by {
                assert(q as int == spec_quantize(v as int, fi));
                assert(-(64 * fi) <= 16 * (v as int - s) <= 64 * fi);
            }
            if xi >= 1 {
                assert(cell(bufn, wi, xi - 1, yi) == cell(buf0, wi, xi - 1, yi) + d7 as int) by {
                    if yi + 1 < hi {
                        if xi >= 1 {
                            lemma_plane_idx_injective(wi, xi - 1, yi, xi - 1, yi + 1);
                        }
                        lemma_plane_idx_injective(wi, xi - 1, yi, xi, yi + 1);
                        if xi + 1 < wi {
                            lemma_plane_idx_injective(wi, xi - 1, yi, xi + 1, yi + 1);
                        }
                    }
                }
                assert(fs_dev(cell(bufn, wi, xi - 1, yi), cell(src@, wi, xi - 1, yi), fi, 64));
            }
            if yi + 1 < hi {
                if xi + 1 < wi {
                    assert(cell(bufn, wi, xi + 1, yi + 1) == cell(buf0, wi, xi + 1, yi + 1)
                        + d3 as int) by {
                        lemma_plane_idx_injective(wi, xi + 1, yi + 1, xi, yi + 1);
                        if xi >= 1 {
                            lemma_plane_idx_injective(wi, xi + 1, yi + 1, xi - 1, yi + 1);
                        }
                    }
                    assert(fs_dev(
                        cell(bufn, wi, xi + 1, yi + 1),
                        cell(src@, wi, xi + 1, yi + 1),
                        fi,
                        36,
                    ));
                }
                assert(cell(bufn, wi, xi, yi + 1) == cell(buf0, wi, xi, yi + 1) + d5 as int) by {
                    if xi >= 1 {
                        lemma_plane_idx_injective(wi, xi, yi + 1, xi - 1, yi + 1);
                    }
                }
                assert(fs_dev(cell(bufn, wi, xi, yi + 1), cell(src@, wi, xi, yi + 1), fi, 24));
                if xi >= 1 {
                    assert(cell(bufn, wi, xi - 1, yi + 1) == cell(buf0, wi, xi - 1, yi + 1)
                        + d1 as int);
                    assert(fs_dev(
                        cell(bufn, wi, xi - 1, yi + 1),
                        cell(src@, wi, xi - 1, yi + 1),
                        fi,
                        4,
                    ));
                }
                assert forall|xp: int| 0 <= xp < wi implies #[trigger] below_zone_rev(
                    bufn,
                    src@,
                    wi,
                    xi - 1,
                    yi,
                    fi,
                    xp,
                ) by {
                    assert(below_zone_rev(buf0, src@, wi, xi, yi, fi, xp));
                }
            }
        }
        k = k + 1;
    }
    proof {
        assert forall|xp: int, yp: int|
            0 <= xp < wi && 0 <= yp < yi + 1 implies done_cell(
            #[trigger] cell(buf@, wi, xp, yp),
            cell(src@, wi, xp, yp),
            fi,
        ) by {}
        if yi + 1 < hi {
            assert forall|xp: int| 0 <= xp < wi implies fs_dev(
                #[trigger] cell(buf@, wi, xp, yi + 1),
                cell(src@, wi, xp, yi + 1),
                fi,
                36,
            ) by {
                assert(below_zone_rev(buf@, src@, wi, wi - 1 - w as int, yi, fi, xp));
            }
        }
    }
}

/// Run one serpentine Floyd-Steinberg pass over a single color plane:
/// even rows are scanned left to right, odd rows right to left. Every
/// result sample quantizes a value within `4 * factor` of its source.
pub fn fs_dither_plane(src: &Vec<i32>, w: u32, h: u32, factor: u8) -> (out: Vec<i32>)
    requires
        src@.len() == w * h,
        w * h <= usize::MAX,
        forall|xp: int, yp: int|
            0 <= xp < w && 0 <= yp < h ==> 0 <= #[trigger] cell(src@, w as int, xp, yp) <= 255,
        8 <= factor <= 32,
    ensures
        out@.len() == src@.len(),
        forall|xp: int, yp: int|
            0 <= xp < w && 0 <= yp < h ==> done_cell(
                #[trigger] cell(out@, w as int, xp, yp),
                cell(src@, w as int, xp, yp),
                factor as int,
            ),
{
    let ghost wi = w as int;
    let ghost hi = h as int;
    let ghost fi = factor as int;
    let n: usize = src.len();
    let mut buf: Vec<i32> = Vec::new();
    let mut i: usize = 0;
    while i < n
        invariant
            n == src@.len(),
            i <= n,
            buf@.len() == i,
            forall|j: int| 0 <= j < i ==> buf@[j] == src@[j],
        decreases n - i,
    {
        buf.push(src[i]);
        i = i + 1;
    }
    proof {
        assert forall|xp: int, yp: int|
            0 <= xp < wi && 0 <= yp < hi implies #[trigger] cell(buf@, wi, xp, yp) == cell(
            src@,
            wi,
            xp,
            yp,
        ) by {
            lemma_plane_idx_bounds(wi, hi, xp, yp);
        }
    }
    let mut y: u32 = 0;
    while y < h
        invariant
            src@.len() == w * h,
            w * h <= usize::MAX,
            buf@.len() == src@.len(),
            forall|xp: int, yp: int|
                0 <= xp < w && 0 <= yp < h ==> 0 <= #[trigger] cell(src@, w as int, xp, yp) <= 255,
            8 <= factor <= 32,
            y <= h,
            wi == w as int,
            hi == h as int,
            fi == factor as int,
            rows_done(buf@, src@, wi, y as int, fi),
            y < h ==> row_capped(buf@, src@, wi, y as int, fi, 36),
            rows_pristine(buf@, src@, wi, hi, y as int + 1),
        decreases h - y,
    {
        if y % 2 == 0 {
            fs_row_forward(&mut buf, src, w, h, y, factor);
        } else {
            fs_row_backward(&mut buf, src, w, h, y, factor);
        }
        y = y + 1;
    }
    buf
}

/// Apply Floyd-Steinberg dithering: a sequential serpentine error-diffusion
/// pass over each of the red, green and blue planes; alpha passes through.
/// Attenuated error never accumulates beyond `4 * factor` at any pixel.
pub fn apply_floyd_steinberg_dithering(img: &Image, factor: u8) -> (out: Image)
    requires
        img.wf(),
        8 <= factor <= 32,
    ensures
        out.wf(),
        out.same_dims(img),
        forall|x: int, y: int|
            0 <= x < img.width && 0 <= y < img.height ==> out.pix(x, y, 3) == img.pix(x, y, 3),
        forall|x: int, y: int, c: int|
            0 <= x < img.width && 0 <= y < img.height && 0 <= c < 3 ==> fs_done(
                out.pix(x, y, c) as int,
                img.pix(x, y, c) as int,
                factor as int,
            ),
{
    let w: u32 = img.width;
    let h: u32 = img.height;
    let ghost wi = w as int;
    let ghost hi = h as int;
    let mut pr: Vec<i32> = Vec::new();
    let mut pg: Vec<i32> = Vec::new();
    let mut pb: Vec<i32> = Vec::new();
    let mut y: u32 = 0;
    while y < h
        invariant
            img.wf(),
            w == img.width,
            h == img.height,
            wi == w as int,
            hi == h as int,
            y <= h,
            pr@.len() == y * w,
            pg@.len() == y * w,
            pb@.len() == y * w,
            forall|xp: int, yp: int|
                0 <= xp < w && 0 <= yp < y ==> #[trigger] cell(pr@, wi, xp, yp) == img.pix(
                    xp,
                    yp,
                    0,
                ) as int,
            forall|xp: int, yp: int|
                0 <= xp < w && 0 <= yp < y ==> #[trigger] cell(pg@, wi, xp, yp) == img.pix(
                    xp,
                    yp,
                    1,
                ) as int,
            forall|xp: int, yp: int|
                0 <= xp < w && 0 <= yp < y ==> #[trigger] cell(pb@, wi, xp, yp) == img.pix(
                    xp,
                    yp,
                    2,
                ) as int,
        decreases h - y,
    {
        let mut x: u32 = 0;
        while x < w
            invariant
                img.wf(),
                w == img.width,
                h == img.height,
                wi == w as int,
                hi == h as int,
                y < h,
                x <= w,
                pr@.len() == y * w + x,
                pg@.len() == y * w + x,
                pb@.len() == y * w + x,
                forall|xp: int, yp: int|
                    0 <= xp < w && 0 <= yp < y ==> #[trigger] cell(pr@, wi, xp, yp) == img.pix(
                        xp,
                        yp,
                        0,
                    ) as int,
                forall|xp: int, yp: int|
                    0 <= xp < w && 0 <= yp < y ==> #[trigger] cell(pg@, wi, xp, yp) == img.pix(
                        xp,
                        yp,
                        1,
                    ) as int,
                forall|xp: int, yp: int|
                    0 <= xp < w && 0 <= yp < y ==> #[trigger] cell(pb@, wi, xp, yp) == img.pix(
                        xp,
                        yp,
                        2,
                    ) as int,
                forall|xp: int|
                    0 <= xp < x ==> #[trigger] cell(pr@, wi, xp, y as int) == img.pix(
                        xp,
                        y as int,
                        0,
                    ) as int,
                forall|xp: int|
                    0 <= xp < x ==> #[trigger] cell(pg@, wi, xp, y as int) == img.pix(
                        xp,
                        y as int,
                        1,
                    ) as int,
                forall|xp: int|
                    0 <= xp < x ==> #[trigger] cell(pb@, wi, xp, y as int) == img.pix(
                        xp,
                        y as int,
                        2,
                    ) as int,
            decreases w - x,
        {
            let ghost pr0 = pr@;
            let ghost pg0 = pg@;
            let ghost pb0 = pb@;
            pr.push(img.get(x, y, 0) as i32);
            pg.push(img.get(x, y, 1) as i32);
            pb.push(img.get(x, y, 2) as i32);
            proof {
                assert forall|xp: int, yp: int|
                    0 <= xp < w && 0 <= yp < y implies #[trigger] cell(pr@, wi, xp, yp) == cell(
                    pr0,
                    wi,
                    xp,
                    yp,
                ) && cell(pg@, wi, xp, yp) == cell(pg0, wi, xp, yp) && cell(pb@, wi, xp, yp)
                    == cell(pb0, wi, xp, yp) by {
                    lemma_plane_idx_bounds(wi, y as int, xp, yp);
                    assert(wi * (y as int) <= (y as int) * wi + x as int) by (nonlinear_arith)
                        requires
                            0 <= x as int,
                            0 <= y as int,
                            0 <= wi,
                    ;
                }
                assert forall|xp: int, yp: int|
                    0 <= xp < w && 0 <= yp < y implies #[trigger] cell(pg@, wi, xp, yp) == cell(
                    pg0,
                    wi,
                    xp,
                    yp,
                ) by {
                    assert(cell(pr@, wi, xp, yp) == cell(pr0, wi, xp, yp));
                }
                assert forall|xp: int, yp: int|
                    0 <= xp < w && 0 <= yp < y implies #[trigger] cell(pb@, wi, xp, yp) == cell(
                    pb0,
                    wi,
                    xp,
                    yp,
                ) by {
                    assert(cell(pr@, wi, xp, yp) == cell(pr0, wi, xp, yp));
                }
                assert forall|xp: int| 0 <= xp < x implies #[trigger] cell(pr@, wi, xp, y as int)
                    == cell(pr0, wi, xp, y as int) by {}
                assert forall|xp: int| 0 <= xp < x implies #[trigger] cell(pg@, wi, xp, y as int)
                    == cell(pg0, wi, xp, y as int) by {}
                assert forall|xp: int| 0 <= xp < x implies #[trigger] cell(pb@, wi, xp, y as int)
                    == cell(pb0, wi, xp, y as int) by {}
                assert(cell(pr@, wi, x as int, y as int) == img.pix(x as int, y as int, 0) as int);
                assert(cell(pg@, wi, x as int, y as int) == img.pix(x as int, y as int, 1) as int);
                assert(cell(pb@, wi, x as int, y as int) == img.pix(x as int, y as int, 2) as int);
            }
            x = x + 1;
        }
        proof {
            assert forall|xp: int, yp: int|
                0 <= xp < w && 0 <= yp < y as int + 1 implies #[trigger] cell(pr@, wi, xp, yp)
                == img.pix(xp, yp, 0) as int by {}
            assert forall|xp: int, yp: int|
                0 <= xp < w && 0 <= yp < y as int + 1 implies #[trigger] cell(pg@, wi, xp, yp)
                == img.pix(xp, yp, 1) as int by {}
            assert forall|xp: int, yp: int|
                0 <= xp < w && 0 <= yp < y as int + 1 implies #[trigger] cell(pb@, wi, xp, yp)
                == img.pix(xp, yp, 2) as int by {}
        }
        y = y + 1;
        assert((y - 1) * w + w == y * w) by (nonlinear_arith);
    }
    proof {
        assert(h * w == w * h) by (nonlinear_arith);
        assert(4 * (w as int * hi) == 4 * w as int * hi) by (nonlinear_arith);
    }
    let qr: Vec<i32> = fs_dither_plane(&pr, w, h, factor);
    let qg: Vec<i32> = fs_dither_plane(&pg, w, h, factor);
    let qb: Vec<i32> = fs_dither_plane(&pb, w, h, factor);
    let mut data: Vec<u8> = Vec::new();
    let mut y2: u32 = 0;
    while y2 < h
        invariant
            img.wf(),
            w == img.width,
            h == img.height,
            wi == w as int,
            hi == h as int,
            y2 <= h,
            8 <= factor <= 32,
            qr@.len() == w * h,
            qg@.len() == w * h,
            qb@.len() == w * h,
            forall|xp: int, yp: int|
                0 <= xp < w && 0 <= yp < h ==> done_cell(
                    #[trigger] cell(qr@, wi, xp, yp),
                    img.pix(xp, yp, 0) as int,
                    factor as int,
                ),
            forall|xp: int, yp: int|
                0 <= xp < w && 0 <= yp < h ==> done_cell(
                    #[trigger] cell(qg@, wi, xp, yp),
                    img.pix(xp, yp, 1) as int,
                    factor as int,
                ),
            forall|xp: int, yp: int|
                0 <= xp < w && 0 <= yp < h ==> done_cell(
                    #[trigger] cell(qb@, wi, xp, yp),
                    img.pix(xp, yp, 2) as int,
                    factor as int,
                ),
            data@.len() == 4 * (y2 * w),
            forall|xp: int, yp: int, c: int|
                0 <= xp < w && 0 <= yp < y2 && 0 <= c < 4 ==> #[trigger] data@[pix_idx(
                    wi,
                    xp,
                    yp,
                    c,
                )] as int == (if c == 0 {
                    cell(qr@, wi, xp, yp)
                } else if c == 1 {
                    cell(qg@, wi, xp, yp)
                } else if c == 2 {
                    cell(qb@, wi, xp, yp)
                } else {
                    img.pix(xp, yp, 3) as int
                }),
        decreases h - y2,
    {
        let mut x: u32 = 0;
        while x < w
            invariant
                img.wf(),
                w == img.width,
                h == img.height,
                wi == w as int,
                hi == h as int,
                y2 < h,
                x <= w,
                8 <= factor <= 32,
                qr@.len() == w * h,
                qg@.len() == w * h,
                qb@.len() == w * h,
                forall|xp: int, yp: int|
                    0 <= xp < w && 0 <= yp < h ==> done_cell(
                        #[trigger] cell(qr@, wi, xp, yp),
                        img.pix(xp, yp, 0) as int,
                        factor as int,
                    ),
                forall|xp: int, yp: int|
                    0 <= xp < w && 0 <= yp < h ==> done_cell(
                        #[trigger] cell(qg@, wi, xp, yp),
                        img.pix(xp, yp, 1) as int,
                        factor as int,
                    ),
                forall|xp: int, yp: int|
                    0 <= xp < w && 0 <= yp < h ==> done_cell(
                        #[trigger] cell(qb@, wi, xp, yp),
                        img.pix(xp, yp, 2) as int,
                        factor as int,
                    ),
                data@.len() == 4 * (y2 * w + x),
                forall|xp: int, yp: int, c: int|
                    0 <= xp < w && 0 <= yp < y2 && 0 <= c < 4 ==> #[trigger] data@[pix_idx(
                        wi,
                        xp,
                        yp,
                        c,
                    )] as int == (if c == 0 {
                        cell(qr@, wi, xp, yp)
                    } else if c == 1 {
                        cell(qg@, wi, xp, yp)
                    } else if c == 2 {
                        cell(qb@, wi, xp, yp)
                    } else {
                        img.pix(xp, yp, 3) as int
                    }),
                forall|xp: int, c: int|
                    0 <= xp < x && 0 <= c < 4 ==> #[trigger] data@[pix_idx(
                        wi,
                        xp,
                        y2 as int,
                        c,
                    )] as int == (if c == 0 {
                        cell(qr@, wi, xp, y2 as int)
                    } else if c == 1 {
                        cell(qg@, wi, xp, y2 as int)
                    } else if c == 2 {
                        cell(qb@, wi, xp, y2 as int)
                    } else {
                        img.pix(xp, y2 as int, 3) as int
                    }),
            decreases w - x,
        {
            proof {
                lemma_plane_idx_bounds(wi, hi, x as int, y2 as int);
                lemma_pix_idx_bounds(wi, hi, x as int, y2 as int, 0);
            }
            let ghost data0 = data@;
            let i: usize = (y2 as usize) * (w as usize) + (x as usize);
            let r: u8 = qr[i] as u8;
            let g: u8 = qg[i] as u8;
            let b: u8 = qb[i] as u8;
            let a: u8 = img.get(x, y2, 3);
            data.push(r);
            data.push(g);
            data.push(b);
            data.push(a);
            proof {
                assert(data@ =~= data0 + seq![r, g, b, a]);
                assert forall|xp: int, yp: int, c: int|
                    0 <= xp < w && 0 <= yp < y2 && 0 <= c < 4 implies #[trigger] data@[pix_idx(
                    wi,
                    xp,
                    yp,
                    c,
                )] == data0[pix_idx(wi, xp, yp, c)] by {
                    lemma_pix_idx_bounds(wi, y2 as int, xp, yp, c);
                    assert(4 * (wi * (y2 as int)) <= 4 * ((y2 as int) * wi + x as int))
                        by (nonlinear_arith)
                        requires
                            0 <= x as int,
                            0 <= y2 as int,
                            0 <= wi,
                    ;
                }
                assert forall|xp: int, c: int|
                    0 <= xp < x && 0 <= c < 4 implies #[trigger] data@[pix_idx(
                    wi,
                    xp,
                    y2 as int,
                    c,
                )] == data0[pix_idx(wi, xp, y2 as int, c)] by {
                    lemma_pix_idx_bounds(wi, hi, xp, y2 as int, c);
                }
                assert forall|c: int| 0 <= c < 4 implies #[trigger] data@[pix_idx(
                    wi,
                    x as int,
                    y2 as int,
                    c,
                )] == (seq![r, g, b, a])[c] by {
                    assert(pix_idx(wi, x as int, y2 as int, c) == data0.len() + c);
                }
            }
            x = x + 1;
        }
        y2 = y2 + 1;
        assert(4 * ((y2 - 1) * w + w) == 4 * (y2 * w)) by (nonlinear_arith);
    }
    assert(4 * (h * w) == 4 * w * h) by (nonlinear_arith);
    let out = Image { width: w, height: h, data };
    proof {
        assert forall|x: int, yp: int, c: int|
            0 <= x < w && 0 <= yp < h && 0 <= c < 4 implies out.pix(x, yp, c) == out.data@[pix_idx(
            wi,
            x,
            yp,
            c,
        )] by {
            lemma_pix_idx_bounds(wi, hi, x, yp, c);
        }
    }
    out
}

/// Truncating division by a positive divisor, on machine integers.
fn div_trunc_i32(a: i32, d: i32) -> (r: i32)
    requires
        0 < d,
        -1000000 <= a <= 1000000,
    ensures
        r as int == spec_div_trunc(a as int, d as int),
{
    if a >= 0 {
        a / d
    } else {
        -((-a) / d)
    }
}

} // verus!
