use vstd::prelude::*;

use crate::sorting::lemma_swap_to_multiset;
use crate::raster::{Image, pix_idx, lemma_pix_idx_bounds};
use rayon::iter::{IntoParallelIterator, ParallelIterator};

verus! {

/// An exact RGBA color; equality is by exact byte value.
#[derive(Debug, Clone, Copy, PartialEq, Eq, Hash, Structural)]
pub struct Color {
    pub r: u8,
    pub g: u8,
    pub b: u8,
    pub a: u8,
}

impl Color {
    pub fn new(r: u8, g: u8, b: u8, a: u8) -> (c: Color)
        ensures
            c == (Color { r, g, b, a }),
    {
        Color { r, g, b, a }
    }
}

/// Squared Euclidean distance between two colors in RGB space; alpha is ignored.
pub open spec fn spec_color_distance(c1: Color, c2: Color) -> int {
    let dr = c1.r as int - c2.r as int;
    let dg = c1.g as int - c2.g as int;
    let db = c1.b as int - c2.b as int;
    dr * dr + dg * dg + db * db
}

/// Calculate the squared Euclidean RGB distance between two colors.
pub fn color_distance(c1: &Color, c2: &Color) -> (d: u64)
    ensures
        d as int == spec_color_distance(*c1, *c2),
{
    let dr: i64 = c1.r as i64 - c2.r as i64;
    let dg: i64 = c1.g as i64 - c2.g as i64;
    let db: i64 = c1.b as i64 - c2.b as i64;
    assert(0 <= dr * dr <= 65025 && 0 <= dg * dg <= 65025 && 0 <= db * db <= 65025)
        by (nonlinear_arith)
        requires
            -255 <= dr <= 255,
            -255 <= dg <= 255,
            -255 <= db <= 255,
    ;
    (dr * dr + dg * dg + db * db) as u64
}

/// The value of one RGB channel of a color: 0 is red, 1 is green, blue otherwise.
pub open spec fn spec_channel(c: Color, ch: int) -> int {
    if ch == 0 {
        c.r as int
    } else if ch == 1 {
        c.g as int
    } else {
        c.b as int
    }
}

/// A box in RGB color space: a set of distinct colors with their sampled
/// frequencies, and bounds that enclose every member on every channel.
#[derive(Clone)]
pub struct ColorBox {
    pub colors: Vec<(Color, u32)>,
    pub min_r: u8,
    pub max_r: u8,
    pub min_g: u8,
    pub max_g: u8,
    pub min_b: u8,
    pub max_b: u8,
}

impl ColorBox {
    /// Every member color lies within the box bounds on every channel.
    pub open spec fn bounds_ok(&self) -> bool {
        forall|i: int|
            0 <= i < self.colors@.len() ==> {
                let c = (#[trigger] self.colors@[i]).0;
                &&& self.min_r <= c.r <= self.max_r
                &&& self.min_g <= c.g <= self.max_g
                &&& self.min_b <= c.b <= self.max_b
            }
    }

    /// Every bound is attained by a member, so the bounds are exactly the
    /// minimum and maximum of each channel over the collection; an empty
    /// box keeps the inverted sentinel bounds.
    pub open spec fn bounds_tight(&self) -> bool {
        if self.colors@.len() == 0 {
            &&& self.min_r == 255 && self.max_r == 0
            &&& self.min_g == 255 && self.max_g == 0
            &&& self.min_b == 255 && self.max_b == 0
        } else {
            &&& exists|i: int| 0 <= i < self.colors@.len() && (#[trigger] self.colors@[i]).0.r == self.min_r
            &&& exists|i: int| 0 <= i < self.colors@.len() && (#[trigger] self.colors@[i]).0.r == self.max_r
            &&& exists|i: int| 0 <= i < self.colors@.len() && (#[trigger] self.colors@[i]).0.g == self.min_g
            &&& exists|i: int| 0 <= i < self.colors@.len() && (#[trigger] self.colors@[i]).0.g == self.max_g
            &&& exists|i: int| 0 <= i < self.colors@.len() && (#[trigger] self.colors@[i]).0.b == self.min_b
            &&& exists|i: int| 0 <= i < self.colors@.len() && (#[trigger] self.colors@[i]).0.b == self.max_b
        }
    }

    /// Create a new color box from a list of colors with frequencies,
    /// computing the per-channel bounds of its members: each bound is the
    /// tight minimum or maximum of that channel over the members.
    pub fn new(colors: Vec<(Color, u32)>) -> (bx: ColorBox)
        ensures
            bx.colors@ == colors@,
            bx.bounds_ok(),
            bx.bounds_tight(),
    {
        let mut min_r: u8 = 255;
        let mut max_r: u8 = 0;
        let mut min_g: u8 = 255;
        let mut max_g: u8 = 0;
        let mut min_b: u8 = 255;
        let mut max_b: u8 = 0;
        let n: usize = colors.len();
        let mut i: usize = 0;
        while i < n
            invariant
                n == colors@.len(),
                i <= n,
                forall|j: int|
                    0 <= j < i ==> {
                        let c = (#[trigger] colors@[j]).0;
                        &&& min_r <= c.r <= max_r
                        &&& min_g <= c.g <= max_g
                        &&& min_b <= c.b <= max_b
                    },
                i == 0 ==> min_r == 255 && max_r == 0 && min_g == 255 && max_g == 0 && min_b == 255
                    && max_b == 0,
                i > 0 ==> exists|j: int| 0 <= j < i && (#[trigger] colors@[j]).0.r == min_r,
                i > 0 ==> exists|j: int| 0 <= j < i && (#[trigger] colors@[j]).0.r == max_r,
                i > 0 ==> exists|j: int| 0 <= j < i && (#[trigger] colors@[j]).0.g == min_g,
                i > 0 ==> exists|j: int| 0 <= j < i && (#[trigger] colors@[j]).0.g == max_g,
                i > 0 ==> exists|j: int| 0 <= j < i && (#[trigger] colors@[j]).0.b == min_b,
                i > 0 ==> exists|j: int| 0 <= j < i && (#[trigger] colors@[j]).0.b == max_b,
            decreases n - i,
        {
            let c: Color = colors[i].0;
            proof {
                assert(colors@[i as int].0 == c);
            }
            if c.r < min_r || i == 0 {
                min_r = c.r;
            }
            if c.r > max_r || i == 0 {
                max_r = c.r;
            }
            if c.g < min_g || i == 0 {
                min_g = c.g;
            }
            if c.g > max_g || i == 0 {
                max_g = c.g;
            }
            if c.b < min_b || i == 0 {
                min_b = c.b;
            }
            if c.b > max_b || i == 0 {
                max_b = c.b;
            }
            i = i + 1;
        }
        ColorBox { colors, min_r, max_r, min_g, max_g, min_b, max_b }
    }

    /// The extent of the box on one channel; an empty box has extent zero.
    pub open spec fn spec_range(min: int, max: int) -> int {
        if max >= min {
            max - min
        } else {
            0
        }
    }

    /// Get the extent (max - min) of the box for each channel.
    pub fn get_ranges(&self) -> (r: (u8, u8, u8))
        ensures
            r.0 as int == Self::spec_range(self.min_r as int, self.max_r as int),
            r.1 as int == Self::spec_range(self.min_g as int, self.max_g as int),
            r.2 as int == Self::spec_range(self.min_b as int, self.max_b as int),
    {
        (
            if self.max_r >= self.min_r {
                self.max_r - self.min_r
            } else {
                0
            },
            if self.max_g >= self.min_g {
                self.max_g - self.min_g
            } else {
                0
            },
            if self.max_b >= self.min_b {
                self.max_b - self.min_b
            } else {
                0
            },
        )
    }

    /// The channel along which the box is widest, preferring red, then green.
    pub open spec fn spec_widest_channel(&self) -> int {
        let rr = Self::spec_range(self.min_r as int, self.max_r as int);
        let rg = Self::spec_range(self.min_g as int, self.max_g as int);
        let rb = Self::spec_range(self.min_b as int, self.max_b as int);
        if rr >= rg && rr >= rb {
            0
        } else if rg >= rb {
            1
        } else {
            2
        }
    }

    /// Find the channel with the largest extent.
    pub fn find_widest_channel(&self) -> (ch: usize)
        ensures
            ch as int == self.spec_widest_channel(),
            ch < 3,
    {
        let (r_range, g_range, b_range): (u8, u8, u8) = self.get_ranges();
        if r_range >= g_range && r_range >= b_range {
            0
        } else if g_range >= b_range {
            1
        } else {
            2
        }
    }

    /// The frequency-weighted sum of one channel over the box members.
    pub open spec fn spec_weighted_sum(colors: Seq<(Color, u32)>, ch: int) -> int
        decreases colors.len(),
    {
        if colors.len() == 0 {
            0
        } else {
            Self::spec_weighted_sum(colors.drop_last(), ch) + spec_channel(
                colors.last().0,
                ch,
            ) * colors.last().1
        }
    }

    /// The total frequency of the box members.
    pub open spec fn spec_total_count(colors: Seq<(Color, u32)>) -> int
        decreases colors.len(),
    {
        if colors.len() == 0 {
            0
        } else {
            Self::spec_total_count(colors.drop_last()) + colors.last().1
        }
    }

    /// Get the frequency-weighted average color of the box, with alpha forced
    /// to 255; a box with no members or no weight averages to black.
    pub fn get_average_color(&self) -> (c: Color)
        ensures
            c.a == 255,
            Self::spec_total_count(self.colors@) == 0 ==> c == (Color {
                r: 0,
                g: 0,
                b: 0,
                a: 255,
            }),
            Self::spec_total_count(self.colors@) > 0 ==> {
                let t = Self::spec_total_count(self.colors@);
                &&& c.r as int == Self::spec_weighted_sum(self.colors@, 0) / t
                &&& c.g as int == Self::spec_weighted_sum(self.colors@, 1) / t
                &&& c.b as int == Self::spec_weighted_sum(self.colors@, 2) / t
            },
    {
        let n: usize = self.colors.len();
        if n == 0 {
            return Color::new(0, 0, 0, 255);
        }
        let mut sum_r: u128 = 0;
        let mut sum_g: u128 = 0;
        let mut sum_b: u128 = 0;
        let mut total: u128 = 0;
        let mut i: usize = 0;
        while i < n
            invariant
                n == self.colors@.len(),
                i <= n,
                sum_r == Self::spec_weighted_sum(self.colors@.take(i as int), 0),
                sum_g == Self::spec_weighted_sum(self.colors@.take(i as int), 1),
                sum_b == Self::spec_weighted_sum(self.colors@.take(i as int), 2),
                total == Self::spec_total_count(self.colors@.take(i as int)),
                sum_r <= 255 * total,
                sum_g <= 255 * total,
                sum_b <= 255 * total,
                total <= i * 0x1_0000_0000,
            decreases n - i,
        {
            let (c, cnt): (Color, u32) = self.colors[i];
            proof {
                assert(self.colors@.take(i as int + 1).drop_last() =~= self.colors@.take(i as int));
                assert(self.colors@.take(i as int + 1).last() == self.colors@[i as int]);
                assert((i + 1) * 0x1_0000_0000 == i * 0x1_0000_0000 + 0x1_0000_0000)
                    by (nonlinear_arith);
                assert(total + cnt <= (i + 1) * 0x1_0000_0000);
                assert(sum_r + c.r as int * cnt as int <= 255 * (total + cnt)) by (nonlinear_arith)
                    requires
                        sum_r <= 255 * total,
                        0 <= c.r as int <= 255,
                        0 <= cnt as int,
                ;
                assert(sum_g + c.g as int * cnt as int <= 255 * (total + cnt)) by (nonlinear_arith)
                    requires
                        sum_g <= 255 * total,
                        0 <= c.g as int <= 255,
                        0 <= cnt as int,
                ;
                assert(sum_b + c.b as int * cnt as int <= 255 * (total + cnt)) by (nonlinear_arith)
                    requires
                        sum_b <= 255 * total,
                        0 <= c.b as int <= 255,
                        0 <= cnt as int,
                ;
            }
            sum_r = sum_r + (c.r as u128) * (cnt as u128);
            sum_g = sum_g + (c.g as u128) * (cnt as u128);
            sum_b = sum_b + (c.b as u128) * (cnt as u128);
            total = total + (cnt as u128);
            i = i + 1;
        }
        proof {
            assert(self.colors@.take(n as int) =~= self.colors@);
        }
        if total == 0 {
            return Color::new(0, 0, 0, 255);
        }
        proof {
            assert(sum_r / total <= 255 && sum_g / total <= 255 && sum_b / total <= 255)
                by (nonlinear_arith)
                requires
                    0 < total,
                    sum_r <= 255 * total,
                    sum_g <= 255 * total,
                    sum_b <= 255 * total,
            ;
        }
        Color::new((sum_r / total) as u8, (sum_g / total) as u8, (sum_b / total) as u8, 255)
    }
}

/// The value of one RGB channel of a color, for sorting box members.
fn channel_value(c: &Color, ch: usize) -> (v: u8)
    ensures
        v as int == spec_channel(*c, ch as int),
{
    if ch == 0 {
        c.r
    } else if ch == 1 {
        c.g
    } else {
        c.b
    }
}

/// Sort box members ascending by one RGB channel, by selection of the minimum.
fn sort_colors_by_channel(v: &mut Vec<(Color, u32)>, ch: usize)
    ensures
        final(v)@.len() == old(v)@.len(),
        final(v)@.to_multiset() == old(v)@.to_multiset(),
        forall|a: int, b: int|
            0 <= a < b < final(v)@.len() ==> spec_channel(
                (#[trigger] final(v)@[a]).0,
                ch as int,
            ) <= spec_channel((#[trigger] final(v)@[b]).0, ch as int),
{
    let n: usize = v.len();
    let mut i: usize = 0;
    while i < n
        invariant
            v@.len() == n,
            i <= n,
            v@.to_multiset() == old(v)@.to_multiset(),
            forall|a: int, b: int|
                0 <= a < b < i ==> spec_channel((#[trigger] v@[a]).0, ch as int) <= spec_channel(
                    (#[trigger] v@[b]).0,
                    ch as int,
                ),
            forall|a: int, b: int|
                0 <= a < i && i <= b < n ==> spec_channel(
                    (#[trigger] v@[a]).0,
                    ch as int,
                ) <= spec_channel((#[trigger] v@[b]).0, ch as int),
        decreases n - i,
    {
        let mut m: usize = i;
        let mut j: usize = i + 1;
        while j < n
            invariant
                i < n,
                i <= m < j,
                j <= n,
                v@.len() == n,
                forall|t: int|
                    i <= t < j ==> spec_channel(v@[m as int].0, ch as int) <= spec_channel(
                        (#[trigger] v@[t]).0,
                        ch as int,
                    ),
            decreases n - j,
        {
            if channel_value(&v[j].0, ch) < channel_value(&v[m].0, ch) {
                m = j;
            }
            j = j + 1;
        }
        let ghost s0 = v@;
        let vi: (Color, u32) = v[i];
        let vm: (Color, u32) = v[m];
        v[i] = vm;
        v[m] = vi;
        proof {
            lemma_swap_to_multiset(s0, i as int, m as int);
            assert(v@ =~= s0.update(i as int, s0[m as int]).update(m as int, s0[i as int]));
        }
        i = i + 1;
    }
}

impl ColorBox {
    /// Recompute the per-channel bounds from the current members, so each
    /// bound is again the tight minimum or maximum over the members.
    fn recompute_bounds(&mut self)
        ensures
            final(self).colors@ == old(self).colors@,
            final(self).bounds_ok(),
            final(self).bounds_tight(),
    {
        let mut min_r: u8 = 255;
        let mut max_r: u8 = 0;
        let mut min_g: u8 = 255;
        let mut max_g: u8 = 0;
        let mut min_b: u8 = 255;
        let mut max_b: u8 = 0;
        let n: usize = self.colors.len();
        let mut i: usize = 0;
        while i < n
            invariant
                n == self.colors@.len(),
                self.colors@ == old(self).colors@,
                i <= n,
                forall|j: int|
                    0 <= j < i ==> {
                        let c = (#[trigger] self.colors@[j]).0;
                        &&& min_r <= c.r <= max_r
                        &&& min_g <= c.g <= max_g
                        &&& min_b <= c.b <= max_b
                    },
                i == 0 ==> min_r == 255 && max_r == 0 && min_g == 255 && max_g == 0 && min_b == 255
                    && max_b == 0,
                i > 0 ==> exists|j: int| 0 <= j < i && (#[trigger] self.colors@[j]).0.r == min_r,
                i > 0 ==> exists|j: int| 0 <= j < i && (#[trigger] self.colors@[j]).0.r == max_r,
                i > 0 ==> exists|j: int| 0 <= j < i && (#[trigger] self.colors@[j]).0.g == min_g,
                i > 0 ==> exists|j: int| 0 <= j < i && (#[trigger] self.colors@[j]).0.g == max_g,
                i > 0 ==> exists|j: int| 0 <= j < i && (#[trigger] self.colors@[j]).0.b == min_b,
                i > 0 ==> exists|j: int| 0 <= j < i && (#[trigger] self.colors@[j]).0.b == max_b,
            decreases n - i,
        {
            let c: Color = self.colors[i].0;
            proof {
                assert(self.colors@[i as int].0 == c);
            }
            if c.r < min_r || i == 0 {
                min_r = c.r;
            }
            if c.r > max_r || i == 0 {
                max_r = c.r;
            }
            if c.g < min_g || i == 0 {
                min_g = c.g;
            }
            if c.g > max_g || i == 0 {
                max_g = c.g;
            }
            if c.b < min_b || i == 0 {
                min_b = c.b;
            }
            if c.b > max_b || i == 0 {
                max_b = c.b;
            }
            i = i + 1;
        }
        self.min_r = min_r;
        self.max_r = max_r;
        self.min_g = min_g;
        self.max_g = max_g;
        self.min_b = min_b;
        self.max_b = max_b;
    }

    /// Split this box in two by cutting along the median of its widest
    /// channel: the lower half of the sorted members stays, the upper half
    /// moves into the returned box. A box with fewer than two distinct
    /// members cannot be split.
    pub fn split(&mut self) -> (r: Option<ColorBox>)
        ensures
            old(self).colors@.len() < 2 ==> r is None && *final(self) == *old(self),
            old(self).colors@.len() >= 2 ==> match r {
                Option::Some(bx) => {
                    let half = old(self).colors@.len() as int / 2;
                    &&& final(self).colors@.len() == half
                    &&& bx.colors@.len() == old(self).colors@.len() - half
                    &&& final(self).colors@.len() >= 1
                    &&& bx.colors@.len() >= 1
                    &&& (final(self).colors@ + bx.colors@).to_multiset() == old(
                        self,
                    ).colors@.to_multiset()
                    &&& final(self).bounds_ok()
                    &&& final(self).bounds_tight()
                    &&& bx.bounds_ok()
                    &&& bx.bounds_tight()
                    &&& forall|i: int, j: int|
                        0 <= i < final(self).colors@.len() && 0 <= j < bx.colors@.len()
                            ==> spec_channel(
                            (#[trigger] final(self).colors@[i]).0,
                            old(self).spec_widest_channel(),
                        ) <= spec_channel(
                            (#[trigger] bx.colors@[j]).0,
                            old(self).spec_widest_channel(),
                        )
                    &&& old(self).colors@.no_duplicates() ==> {
                        &&& final(self).colors@.no_duplicates()
                        &&& bx.colors@.no_duplicates()
                        &&& forall|i: int, j: int|
                            0 <= i < final(self).colors@.len() && 0 <= j < bx.colors@.len()
                                ==> (#[trigger] final(self).colors@[i]) != (
                            #[trigger] bx.colors@[j])
                    }
                },
                Option::None => false,
            },
    {
        if self.colors.len() < 2 {
            return Option::None;
        }
        let channel: usize = self.find_widest_channel();
        sort_colors_by_channel(&mut self.colors, channel);
        let ghost sorted = self.colors@;
        let mid: usize = self.colors.len() / 2;
        let right_colors: Vec<(Color, u32)> = self.colors.split_off(mid);
        proof {
            assert(self.colors@ + right_colors@ =~= sorted);
            if old(self).colors@.no_duplicates() {
                broadcast use vstd::seq_lib::group_to_multiset_ensures;

                // sorting permutes, so a duplicate-free box stays one, and
                // the two halves cannot share a member
                old(self).colors@.lemma_multiset_has_no_duplicates();
                assert forall|e: (Color, u32)| sorted.to_multiset().contains(e) implies
                    sorted.to_multiset().count(e) == 1 by {
                    assert(old(self).colors@.to_multiset().contains(e));
                }
                sorted.lemma_multiset_has_no_duplicates_conv();
                assert forall|i: int, j: int|
                    0 <= i < self.colors@.len() && 0 <= j < right_colors@.len() implies (
                #[trigger] self.colors@[i]) != (#[trigger] right_colors@[j]) by {
                    assert(sorted[i] == self.colors@[i]);
                    assert(sorted[mid + j] == right_colors@[j]);
                }
                assert forall|i: int, j: int|
                    0 <= i < j < self.colors@.len() implies (#[trigger] self.colors@[i]) != (
                #[trigger] self.colors@[j]) by {
                    assert(sorted[i] == self.colors@[i]);
                    assert(sorted[j] == self.colors@[j]);
                }
                assert forall|i: int, j: int|
                    0 <= i < j < right_colors@.len() implies (#[trigger] right_colors@[i]) != (
                #[trigger] right_colors@[j]) by {
                    assert(sorted[mid + i] == right_colors@[i]);
                    assert(sorted[mid + j] == right_colors@[j]);
                }
            }
        }
        self.recompute_bounds();
        Option::Some(ColorBox::new(right_colors))
    }
}

/// Find the color of a palette closest to `color` by squared RGB distance,
/// taking the earliest of equally close entries and stopping at an exact match.
pub fn find_closest_palette_color(color: &Color, palette: &Vec<Color>) -> (best: Color)
    requires
        palette@.len() >= 1,
    ensures
        nearest_ok(*color, best, palette@),
{
    let mut best_color: Color = palette[0];
    let mut best_distance: u64 = color_distance(color, &palette[0]);
    let ghost mut bi: int = 0;
    let mut i: usize = 1;
    while i < palette.len()
        invariant
            1 <= i <= palette@.len(),
            0 <= bi < i,
            best_color == palette@[bi],
            best_distance as int == spec_color_distance(*color, best_color),
            forall|k: int|
                0 <= k < i ==> best_distance as int <= spec_color_distance(
                    *color,
                    #[trigger] palette@[k],
                ),
            forall|j: int|
                0 <= j < bi ==> spec_color_distance(*color, #[trigger] palette@[j])
                    > best_distance as int,
        ensures
            0 <= bi < palette@.len(),
            best_color == palette@[bi],
            best_distance as int == spec_color_distance(*color, best_color),
            forall|k: int|
                0 <= k < palette@.len() ==> best_distance as int <= spec_color_distance(
                    *color,
                    #[trigger] palette@[k],
                ),
            forall|j: int|
                0 <= j < bi ==> spec_color_distance(*color, #[trigger] palette@[j])
                    > best_distance as int,
        decreases palette@.len() - i,
    {
        if best_distance == 0 {
            proof {
                assert forall|k: int| 0 <= k < palette@.len() implies best_distance as int
                    <= spec_color_distance(*color, #[trigger] palette@[k]) by {
                    let c2 = palette@[k];
                    let dr = color.r as int - c2.r as int;
                    let dg = color.g as int - c2.g as int;
                    let db = color.b as int - c2.b as int;
                    assert(dr * dr >= 0 && dg * dg >= 0 && db * db >= 0) by (nonlinear_arith);
                }
            }
            break ;
        }
        let d: u64 = color_distance(color, &palette[i]);
        if d < best_distance {
            best_distance = d;
            best_color = palette[i];
            proof {
                bi = i as int;
            }
        }
        i = i + 1;
    }
    proof {
        assert(palette@[bi] == best_color);
        assert(nearest_ok(*color, best_color, palette@));
    }
    best_color
}

/// The color of the pixel at `(x, y)`.
pub open spec fn color_at(img: Image, x: int, y: int) -> Color {
    Color { r: img.pix(x, y, 0), g: img.pix(x, y, 1), b: img.pix(x, y, 2), a: img.pix(x, y, 3) }
}

/// The colors sampled from row `y` at columns `x, x + 4, x + 8, ...`.
pub open spec fn row_samples_from(img: Image, y: int, x: int) -> Seq<Color>
    decreases img.width + 4 - x when x >= 0
{
    if x < 0 || x >= img.width {
        Seq::empty()
    } else {
        seq![color_at(img, x, y)] + row_samples_from(img, y, x + 4)
    }
}

/// The colors sampled from rows `y, y + 4, y + 8, ...` on the 4x4 grid.
pub open spec fn rows_samples_from(img: Image, y: int) -> Seq<Color>
    decreases img.height + 4 - y when y >= 0
{
    if y < 0 || y >= img.height {
        Seq::empty()
    } else {
        row_samples_from(img, y, 0) + rows_samples_from(img, y + 4)
    }
}

/// All colors the palette builder samples, every fourth pixel on both axes.
pub open spec fn spec_samples(img: Image) -> Seq<Color> {
    rows_samples_from(img, 0)
}

/// The number of distinct colors in a sequence.
pub open spec fn count_distinct(s: Seq<Color>) -> int
    decreases s.len(),
{
    if s.len() == 0 {
        0int
    } else {
        count_distinct(s.drop_last()) + if s.drop_last().contains(s.last()) {
            0int
        } else {
            1int
        }
    }
}

/// How many times `c` occurs in a sequence of colors.
pub open spec fn color_count(s: Seq<Color>, c: Color) -> int
    decreases s.len(),
{
    if s.len() == 0 {
        0int
    } else {
        color_count(s.drop_last(), c) + if s.last() == c {
            1int
        } else {
            0int
        }
    }
}

/// A count clipped to what a 32-bit frequency field can hold.
pub open spec fn capped_count(s: Seq<Color>, c: Color) -> int {
    if color_count(s, c) > 0xFFFF_FFFF {
        0xFFFF_FFFF
    } else {
        color_count(s, c)
    }
}

/// A color occurs in a sequence exactly when its count is positive.
pub proof fn lemma_color_count_contains(s: Seq<Color>, c: Color)
    ensures
        s.contains(c) <==> color_count(s, c) > 0,
        color_count(s, c) >= 0,
    decreases s.len(),
{
    if s.len() > 0 {
        lemma_color_count_contains(s.drop_last(), c);
        if s.contains(c) && s.last() != c {
            let i = choose|i: int| 0 <= i < s.len() && s[i] == c;
            assert(s.drop_last()[i] == c);
        }
        if s.drop_last().contains(c) {
            let i = choose|i: int| 0 <= i < s.drop_last().len() && s.drop_last()[i] == c;
            assert(s[i] == c);
        }
    }
}

/// A sequence of (color, frequency) entries holds `c`.
pub open spec fn table_has_color(t: Seq<(Color, u32)>, c: Color) -> bool {
    exists|k: int| 0 <= k < t.len() && (#[trigger] t[k]).0 == c
}

/// The entries of a frequency table carry distinct colors.
pub open spec fn table_distinct(t: Seq<(Color, u32)>) -> bool {
    forall|i: int, j: int| 0 <= i < j < t.len() ==> (#[trigger] t[i]).0 != (#[trigger] t[j]).0
}

/// Find the entry of a frequency table that holds `c`, if any.
fn table_find(table: &Vec<(Color, u32)>, c: Color) -> (r: Option<usize>)
    ensures
        match r {
            Option::Some(k) => k < table@.len() && table@[k as int].0 == c,
            Option::None => !table_has_color(table@, c),
        },
{
    let n: usize = table.len();
    let mut k: usize = 0;
    while k < n
        invariant
            n == table@.len(),
            k <= n,
            forall|j: int| 0 <= j < k ==> (#[trigger] table@[j]).0 != c,
        decreases n - k,
    {
        if table[k].0 == c {
            return Option::Some(k);
        }
        k = k + 1;
    }
    Option::None
}

/// Record one sampled color in the frequency table: a new color gets a fresh
/// entry, a known color's count grows (saturating at the type's limit).
fn table_record(table: &mut Vec<(Color, u32)>, c: Color, ghost_seen: Ghost<Seq<Color>>)
    requires
        table_distinct(old(table)@),
        old(table)@.len() == count_distinct(ghost_seen@),
        forall|k: int|
            0 <= k < old(table)@.len() ==> ghost_seen@.contains((#[trigger] old(table)@[k]).0),
        forall|k: int| 0 <= k < old(table)@.len() ==> (#[trigger] old(table)@[k]).1 >= 1,
        forall|k: int|
            0 <= k < old(table)@.len() ==> (#[trigger] old(table)@[k]).1 as int == capped_count(
                ghost_seen@,
                old(table)@[k].0,
            ),
        forall|idx: int|
            0 <= idx < ghost_seen@.len() ==> table_has_color(old(table)@, #[trigger] ghost_seen@[idx]),
    ensures
        table_distinct(final(table)@),
        final(table)@.len() == count_distinct(ghost_seen@.push(c)),
        forall|k: int|
            0 <= k < final(table)@.len() ==> ghost_seen@.push(c).contains(
                (#[trigger] final(table)@[k]).0,
            ),
        forall|k: int| 0 <= k < final(table)@.len() ==> (#[trigger] final(table)@[k]).1 >= 1,
        forall|k: int|
            0 <= k < final(table)@.len() ==> (#[trigger] final(table)@[k]).1 as int == capped_count(
                ghost_seen@.push(c),
                final(table)@[k].0,
            ),
        forall|idx: int|
            0 <= idx < ghost_seen@.push(c).len() ==> table_has_color(
                final(table)@,
                #[trigger] ghost_seen@.push(c)[idx],
            ),
{
    proof {
        assert(ghost_seen@.push(c).drop_last() =~= ghost_seen@);
        assert(ghost_seen@.push(c).last() == c);
        lemma_color_count_contains(ghost_seen@, c);
        assert forall|x: Color| x != c implies color_count(ghost_seen@.push(c), x) == color_count(
            ghost_seen@,
            x,
        ) by {}
        assert(color_count(ghost_seen@.push(c), c) == color_count(ghost_seen@, c) + 1);
    }
    match table_find(table, c) {
        Option::Some(k) => {
            proof {
                assert(ghost_seen@.contains(table@[k as int].0));
                assert(ghost_seen@.contains(c));
            }
            let cnt: u32 = table[k].1;
            let newcnt: u32 = if cnt < 0xffff_ffff {
                cnt + 1
            } else {
                cnt
            };
            let col: Color = table[k].0;
            table[k] = (col, newcnt);
            proof {
                assert forall|k2: int| 0 <= k2 < table@.len() implies (#[trigger] table@[k2]).1 as int
                    == capped_count(ghost_seen@.push(c), table@[k2].0) by {
                    if k2 != k {
                        assert(old(table)@[k2].0 != c);
                    }
                }
                assert forall|idx: int| 0 <= idx < ghost_seen@.push(c).len() implies table_has_color(
                    table@,
                    #[trigger] ghost_seen@.push(c)[idx],
                ) by {
                    if idx < ghost_seen@.len() {
                        assert(table_has_color(old(table)@, ghost_seen@[idx]));
                        let k2 = choose|k2: int|
                            0 <= k2 < old(table)@.len() && (#[trigger] old(table)@[k2]).0
                                == ghost_seen@[idx];
                        assert(table@[k2].0 == ghost_seen@[idx]);
                    } else {
                        assert(table@[k as int].0 == c);
                    }
                }
            }
        },
        Option::None => {
            proof {
                if ghost_seen@.contains(c) {
                    let idx = choose|idx: int|
                        0 <= idx < ghost_seen@.len() && ghost_seen@[idx] == c;
                    assert(table_has_color(old(table)@, ghost_seen@[idx]));
                    assert(false);
                }
            }
            table.push((c, 1));
            proof {
                assert(color_count(ghost_seen@, c) == 0);
                assert forall|k2: int| 0 <= k2 < table@.len() implies (#[trigger] table@[k2]).1 as int
                    == capped_count(ghost_seen@.push(c), table@[k2].0) by {
                    if k2 < old(table)@.len() {
                        if old(table)@[k2].0 == c {
                            assert(table_has_color(old(table)@, c));
                        }
                    }
                }
                assert forall|idx: int| 0 <= idx < ghost_seen@.push(c).len() implies table_has_color(
                    table@,
                    #[trigger] ghost_seen@.push(c)[idx],
                ) by {
                    if idx < ghost_seen@.len() {
                        assert(table_has_color(old(table)@, ghost_seen@[idx]));
                        let k2 = choose|k2: int|
                            0 <= k2 < old(table)@.len() && (#[trigger] old(table)@[k2]).0
                                == ghost_seen@[idx];
                        assert(table@[k2].0 == ghost_seen@[idx]);
                    } else {
                        assert(table@[old(table)@.len() as int].0 == c);
                    }
                }
            }
        },
    }
}

/// Build the color frequency table from the pixels sampled on the 4x4 grid.
fn build_color_table(img: &Image) -> (table: Vec<(Color, u32)>)
    requires
        img.wf(),
    ensures
        table_distinct(table@),
        table@.len() == count_distinct(spec_samples(*img)),
        forall|k: int| 0 <= k < table@.len() ==> spec_samples(*img).contains((#[trigger] table@[k]).0),
        forall|k: int| 0 <= k < table@.len() ==> (#[trigger] table@[k]).1 >= 1,
        forall|k: int|
            0 <= k < table@.len() ==> (#[trigger] table@[k]).1 as int == capped_count(
                spec_samples(*img),
                table@[k].0,
            ),
        forall|idx: int|
            0 <= idx < spec_samples(*img).len() ==> table_has_color(
                table@,
                #[trigger] spec_samples(*img)[idx],
            ),
{
    let w: u64 = img.width as u64;
    let h: u64 = img.height as u64;
    let mut table: Vec<(Color, u32)> = Vec::new();
    let ghost mut seen: Seq<Color> = Seq::empty();
    let mut y: u64 = 0;
    while y < h
        invariant
            img.wf(),
            w == img.width,
            h == img.height,
            y < h + 4,
            spec_samples(*img) == seen + rows_samples_from(*img, y as int),
            table_distinct(table@),
            table@.len() == count_distinct(seen),
            forall|k: int| 0 <= k < table@.len() ==> seen.contains((#[trigger] table@[k]).0),
            forall|k: int| 0 <= k < table@.len() ==> (#[trigger] table@[k]).1 >= 1,
            forall|k: int|
                0 <= k < table@.len() ==> (#[trigger] table@[k]).1 as int == capped_count(
                    seen,
                    table@[k].0,
                ),
            forall|idx: int|
                0 <= idx < seen.len() ==> table_has_color(table@, #[trigger] seen[idx]),
        decreases h + 4 - y,
    {
        let mut x: u64 = 0;
        while x < w
            invariant
                img.wf(),
                w == img.width,
                h == img.height,
                y < h,
                x < w + 4,
                spec_samples(*img) == seen + (row_samples_from(*img, y as int, x as int)
                    + rows_samples_from(*img, y as int + 4)),
                table_distinct(table@),
                table@.len() == count_distinct(seen),
                forall|k: int| 0 <= k < table@.len() ==> seen.contains((#[trigger] table@[k]).0),
                forall|k: int| 0 <= k < table@.len() ==> (#[trigger] table@[k]).1 >= 1,
                forall|k: int|
                    0 <= k < table@.len() ==> (#[trigger] table@[k]).1 as int == capped_count(
                        seen,
                        table@[k].0,
                    ),
                forall|idx: int|
                    0 <= idx < seen.len() ==> table_has_color(table@, #[trigger] seen[idx]),
            decreases w + 4 - x,
        {
            let c: Color = Color::new(
                img.get(x as u32, y as u32, 0),
                img.get(x as u32, y as u32, 1),
                img.get(x as u32, y as u32, 2),
                img.get(x as u32, y as u32, 3),
            );
            proof {
                assert(row_samples_from(*img, y as int, x as int) == seq![
                    color_at(*img, x as int, y as int),
                ] + row_samples_from(*img, y as int, x as int + 4));
                assert(c == color_at(*img, x as int, y as int));
                assert(seen + (row_samples_from(*img, y as int, x as int) + rows_samples_from(
                    *img,
                    y as int + 4,
                )) =~= seen.push(c) + (row_samples_from(*img, y as int, x as int + 4)
                    + rows_samples_from(*img, y as int + 4)));
            }
            table_record(&mut table, c, Ghost(seen));
            proof {
                seen = seen.push(c);
            }
            x = x + 4;
        }
        proof {
            assert(row_samples_from(*img, y as int, x as int) =~= Seq::<Color>::empty());
            assert(seen + (row_samples_from(*img, y as int, x as int) + rows_samples_from(
                *img,
                y as int + 4,
            )) =~= seen + rows_samples_from(*img, y as int + 4));
        }
        y = y + 4;
    }
    proof {
        assert(rows_samples_from(*img, y as int) =~= Seq::<Color>::empty());
        assert(seen + rows_samples_from(*img, y as int) =~= seen);
    }
    table
}

/// The total number of member colors over a list of boxes.
pub open spec fn total_members(boxes: Seq<ColorBox>) -> int
    decreases boxes.len(),
{
    if boxes.len() == 0 {
        0int
    } else {
        total_members(boxes.drop_last()) + boxes.last().colors@.len()
    }
}

proof fn lemma_total_members_ge_len(boxes: Seq<ColorBox>)
    requires
        forall|i: int| 0 <= i < boxes.len() ==> (#[trigger] boxes[i]).colors@.len() >= 1,
    ensures
        total_members(boxes) >= boxes.len(),
    decreases boxes.len(),
{
    if boxes.len() > 0 {
        lemma_total_members_ge_len(boxes.drop_last());
    }
}

proof fn lemma_total_members_remove(boxes: Seq<ColorBox>, i: int)
    requires
        0 <= i < boxes.len(),
    ensures
        total_members(boxes.remove(i)) == total_members(boxes) - boxes[i].colors@.len(),
    decreases boxes.len(),
{
    if i == boxes.len() - 1 {
        assert(boxes.remove(i) =~= boxes.drop_last());
    } else {
        assert(boxes.remove(i).drop_last() =~= boxes.drop_last().remove(i));
        assert(boxes.remove(i).last() == boxes.last());
        lemma_total_members_remove(boxes.drop_last(), i);
    }
}

proof fn lemma_total_members_insert(boxes: Seq<ColorBox>, i: int, bx: ColorBox)
    requires
        0 <= i <= boxes.len(),
    ensures
        total_members(boxes.insert(i, bx)) == total_members(boxes) + bx.colors@.len(),
    decreases boxes.len(),
{
    if i == boxes.len() {
        assert(boxes.insert(i, bx).drop_last() =~= boxes);
        assert(boxes.insert(i, bx).last() == bx);
    } else {
        assert(boxes.insert(i, bx).drop_last() =~= boxes.drop_last().insert(i, bx));
        assert(boxes.insert(i, bx).last() == boxes.last());
        lemma_total_members_insert(boxes.drop_last(), i, bx);
    }
}

proof fn lemma_total_count_nonneg(colors: Seq<(Color, u32)>)
    ensures
        ColorBox::spec_total_count(colors) >= 0,
    decreases colors.len(),
{
    if colors.len() > 0 {
        lemma_total_count_nonneg(colors.drop_last());
    }
}

/// The frequency-weighted average color of a box's members, with alpha
/// forced to 255; a box with no weight averages to black.
pub open spec fn box_avg(colors: Seq<(Color, u32)>) -> Color {
    let t = ColorBox::spec_total_count(colors);
    if t == 0 {
        Color { r: 0, g: 0, b: 0, a: 255 }
    } else {
        Color {
            r: (ColorBox::spec_weighted_sum(colors, 0) / t) as u8,
            g: (ColorBox::spec_weighted_sum(colors, 1) / t) as u8,
            b: (ColorBox::spec_weighted_sum(colors, 2) / t) as u8,
            a: 255,
        }
    }
}

/// The combined contents of a list of boxes, as a multiset of entries.
pub open spec fn boxes_contents(bs: Seq<ColorBox>) -> vstd::multiset::Multiset<(Color, u32)>
    decreases bs.len(),
{
    if bs.len() == 0 {
        vstd::multiset::Multiset::empty()
    } else {
        boxes_contents(bs.drop_last()).add(bs.last().colors@.to_multiset())
    }
}

proof fn lemma_boxes_contents_remove(bs: Seq<ColorBox>, i: int)
    requires
        0 <= i < bs.len(),
    ensures
        boxes_contents(bs) =~= boxes_contents(bs.remove(i)).add(bs[i].colors@.to_multiset()),
    decreases bs.len(),
{
    broadcast use vstd::multiset::group_multiset_axioms;

    if i == bs.len() - 1 {
        assert(bs.remove(i) =~= bs.drop_last());
    } else {
        assert(bs.remove(i).drop_last() =~= bs.drop_last().remove(i));
        assert(bs.remove(i).last() == bs.last());
        lemma_boxes_contents_remove(bs.drop_last(), i);
    }
}

proof fn lemma_boxes_contents_insert(bs: Seq<ColorBox>, i: int, bx: ColorBox)
    requires
        0 <= i <= bs.len(),
    ensures
        boxes_contents(bs.insert(i, bx)) =~= boxes_contents(bs).add(bx.colors@.to_multiset()),
    decreases bs.len(),
{
    broadcast use vstd::multiset::group_multiset_axioms;

    if i == bs.len() {
        assert(bs.insert(i, bx).drop_last() =~= bs);
        assert(bs.insert(i, bx).last() == bx);
    } else {
        assert(bs.insert(i, bx).drop_last() =~= bs.drop_last().insert(i, bx));
        assert(bs.insert(i, bx).last() == bs.last());
        lemma_boxes_contents_insert(bs.drop_last(), i, bx);
    }
}

/// The sampled color frequency table of an image: distinct colors, one
/// entry for each distinct sampled color, each carrying that color's
/// number of occurrences on the sample grid (clipped to 32 bits).
pub open spec fn is_sample_table(img: Image, t: Seq<(Color, u32)>) -> bool {
    &&& table_distinct(t)
    &&& t.len() == count_distinct(spec_samples(img))
    &&& forall|k: int| 0 <= k < t.len() ==> spec_samples(img).contains((#[trigger] t[k]).0)
    &&& forall|k: int|
        0 <= k < t.len() ==> (#[trigger] t[k]).1 as int == capped_count(spec_samples(img), t[k].0)
    &&& forall|idx: int|
        0 <= idx < spec_samples(img).len() ==> table_has_color(t, #[trigger] spec_samples(img)[idx])
}

/// The sum of the box's channel extents, the size measure the splitting
/// loop maximizes.
pub open spec fn range_sum(b: ColorBox) -> int {
    ColorBox::spec_range(b.min_r as int, b.max_r as int) + ColorBox::spec_range(
        b.min_g as int,
        b.max_g as int,
    ) + ColorBox::spec_range(b.min_b as int, b.max_b as int)
}

/// Every box holds exactly one distinct color.
pub open spec fn all_singleton(bs: Seq<ColorBox>) -> bool {
    forall|i: int| 0 <= i < bs.len() ==> (#[trigger] bs[i]).colors@.len() == 1
}

/// The color with its alpha forced to 255, as palette entries carry it.
pub open spec fn opaque_color(c: Color) -> Color {
    Color { r: c.r, g: c.g, b: c.b, a: 255 }
}

/// No two sampled colors share a red-green-blue triple without being the
/// same color outright.
pub open spec fn samples_rgb_distinct(img: Image) -> bool {
    forall|i: int, j: int|
        0 <= i < spec_samples(img).len() && 0 <= j < spec_samples(img).len() && (
        #[trigger] spec_samples(img)[i]).r == (#[trigger] spec_samples(img)[j]).r && spec_samples(
            img,
        )[i].g == spec_samples(img)[j].g && spec_samples(img)[i].b == spec_samples(img)[j].b
            ==> spec_samples(img)[i] == spec_samples(img)[j]
}

proof fn lemma_total_members_singletons(bs: Seq<ColorBox>)
    requires
        all_singleton(bs),
    ensures
        total_members(bs) == bs.len(),
    decreases bs.len(),
{
    if bs.len() > 0 {
        assert(all_singleton(bs.drop_last()));
        lemma_total_members_singletons(bs.drop_last());
    }
}

proof fn lemma_total_members_all_one(bs: Seq<ColorBox>)
    requires
        forall|i: int| 0 <= i < bs.len() ==> (#[trigger] bs[i]).colors@.len() >= 1,
        total_members(bs) == bs.len(),
    ensures
        all_singleton(bs),
    decreases bs.len(),
{
    if bs.len() > 0 {
        lemma_total_members_ge_len(bs.drop_last());
        assert(bs.last().colors@.len() == 1);
        lemma_total_members_all_one(bs.drop_last());
        assert forall|i: int| 0 <= i < bs.len() implies (#[trigger] bs[i]).colors@.len() == 1 by {
            if i < bs.len() - 1 {
                assert(bs.drop_last()[i] == bs[i]);
            }
        }
    }
}

/// An entry held by some box of the list is in the combined contents.
pub proof fn lemma_contents_member(bs: Seq<ColorBox>, e: (Color, u32))
    requires
        boxes_contents(bs).count(e) > 0,
    ensures
        exists|i: int| 0 <= i < bs.len() && (#[trigger] bs[i]).colors@.to_multiset().count(e) > 0,
    decreases bs.len(),
{
    broadcast use vstd::multiset::group_multiset_axioms;

    if bs.len() > 0 {
        if bs.last().colors@.to_multiset().count(e) > 0 {
            assert(bs[bs.len() - 1].colors@.to_multiset().count(e) > 0);
        } else {
            lemma_contents_member(bs.drop_last(), e);
            let i = choose|i: int|
                0 <= i < bs.drop_last().len() && (#[trigger] bs.drop_last()[i]).colors@.to_multiset().count(
                    e,
                ) > 0;
            assert(bs[i].colors@.to_multiset().count(e) > 0);
        }
    }
}

/// Within a partition of a distinct-color table, every box's members are
/// table entries, pairwise distinct, and pairwise distinct in RGB when the
/// sampled colors are.
pub proof fn lemma_box_members(
    img: Image,
    table: Seq<(Color, u32)>,
    bs: Seq<ColorBox>,
    bi: int,
)
    requires
        is_sample_table(img, table),
        boxes_contents(bs) == table.to_multiset(),
        0 <= bi < bs.len(),
    ensures
        forall|i: int|
            0 <= i < bs[bi].colors@.len() ==> table.contains(#[trigger] bs[bi].colors@[i])
                && spec_samples(img).contains(bs[bi].colors@[i].0),
        bs[bi].colors@.no_duplicates(),
        samples_rgb_distinct(img) ==> forall|i: int, j: int|
            0 <= i < j < bs[bi].colors@.len() ==> !((#[trigger] bs[bi].colors@[i]).0.r == (
            #[trigger] bs[bi].colors@[j]).0.r && bs[bi].colors@[i].0.g == bs[bi].colors@[j].0.g
                && bs[bi].colors@[i].0.b == bs[bi].colors@[j].0.b),
{
    broadcast use vstd::multiset::group_multiset_axioms;
    broadcast use vstd::seq_lib::group_to_multiset_ensures;

    let box_colors = bs[bi].colors@;
    // the table's entries are pairwise distinct, so each occurs once
    assert(table.no_duplicates()) by {
        assert forall|i: int, j: int| 0 <= i < table.len() && 0 <= j < table.len() && i != j implies
            table[i] != table[j] by {
            assert((#[trigger] table[i]).0 != (#[trigger] table[j]).0);
        }
    }
    table.lemma_multiset_has_no_duplicates();
    // a box's contents sit inside the combined contents
    lemma_boxes_contents_remove(bs, bi);
    assert forall|e: (Color, u32)| box_colors.to_multiset().count(e)
        <= table.to_multiset().count(e) by {
        assert(table.to_multiset().count(e) == boxes_contents(bs.remove(bi)).count(e)
            + box_colors.to_multiset().count(e));
    }
    // membership in the table
    assert forall|i: int| 0 <= i < box_colors.len() implies table.contains(#[trigger] box_colors[i])
        && spec_samples(img).contains(box_colors[i].0) by {
        assert(box_colors.to_multiset().contains(box_colors[i]));
        assert(table.to_multiset().count(box_colors[i]) > 0);
        assert(table.contains(box_colors[i]));
        let k = choose|k: int| 0 <= k < table.len() && table[k] == box_colors[i];
        assert(spec_samples(img).contains((#[trigger] table[k]).0));
    }
    // each member occurs once, so the members are pairwise distinct
    assert forall|e: (Color, u32)| box_colors.to_multiset().contains(e) implies
        box_colors.to_multiset().count(e) == 1 by {
        assert(table.to_multiset().count(e) > 0);
        assert(table.contains(e));
    }
    box_colors.lemma_multiset_has_no_duplicates_conv();
    // equal RGB would force equal colors, and then equal entries
    if samples_rgb_distinct(img) {
        assert forall|i: int, j: int| 0 <= i < j < box_colors.len() implies !((
        #[trigger] box_colors[i]).0.r == (#[trigger] box_colors[j]).0.r && box_colors[i].0.g
            == box_colors[j].0.g && box_colors[i].0.b == box_colors[j].0.b) by {
            let c1 = box_colors[i].0;
            let c2 = box_colors[j].0;
            if c1.r == c2.r && c1.g == c2.g && c1.b == c2.b {
                let s1 = choose|si: int|
                    0 <= si < spec_samples(img).len() && spec_samples(img)[si] == c1;
                let s2 = choose|si: int|
                    0 <= si < spec_samples(img).len() && spec_samples(img)[si] == c2;
                assert(spec_samples(img)[s1] == spec_samples(img)[s2]);
                assert(c1 == c2);
                assert(box_colors[i].1 as int == capped_count(spec_samples(img), c1));
                assert(box_colors[j].1 as int == capped_count(spec_samples(img), c2));
                assert(box_colors[i] == box_colors[j]);
            }
        }
    }
}

/// A box holding one distinct color averages to that color, opaque.
pub proof fn lemma_singleton_avg(colors: Seq<(Color, u32)>)
    requires
        colors.len() == 1,
        colors[0].1 >= 1,
    ensures
        box_avg(colors) == opaque_color(colors[0].0),
{
    let e = colors[0];
    assert(colors.drop_last().len() == 0);
    assert(colors.last() == e);
    assert(ColorBox::spec_total_count(colors.drop_last()) == 0);
    assert(ColorBox::spec_weighted_sum(colors.drop_last(), 0) == 0);
    assert(ColorBox::spec_weighted_sum(colors.drop_last(), 1) == 0);
    assert(ColorBox::spec_weighted_sum(colors.drop_last(), 2) == 0);
    assert(ColorBox::spec_total_count(colors) == e.1);
    assert(ColorBox::spec_weighted_sum(colors, 0) == spec_channel(e.0, 0) * e.1);
    assert(ColorBox::spec_weighted_sum(colors, 1) == spec_channel(e.0, 1) * e.1);
    assert(ColorBox::spec_weighted_sum(colors, 2) == spec_channel(e.0, 2) * e.1);
    assert((e.0.r as int * e.1 as int) / (e.1 as int) == e.0.r as int) by (nonlinear_arith)
        requires
            e.1 >= 1,
    ;
    assert((e.0.g as int * e.1 as int) / (e.1 as int) == e.0.g as int) by (nonlinear_arith)
        requires
            e.1 >= 1,
    ;
    assert((e.0.b as int * e.1 as int) / (e.1 as int) == e.0.b as int) by (nonlinear_arith)
        requires
            e.1 >= 1,
    ;
}

/// The palette came from median-cut splitting over the image's sampled
/// color table: the boxes partition the table's entries, each is nonempty
/// (unless nothing was sampled), and each palette entry is the
/// frequency-weighted average of its box.
pub open spec fn palette_built_from(
    img: Image,
    table: Seq<(Color, u32)>,
    boxes: Seq<ColorBox>,
    pal: Seq<Color>,
) -> bool {
    &&& is_sample_table(img, table)
    &&& boxes.len() == pal.len()
    &&& boxes_contents(boxes) == table.to_multiset()
    &&& table.len() > 0 ==> forall|i: int|
        0 <= i < boxes.len() ==> (#[trigger] boxes[i]).colors@.len() >= 1
    &&& forall|i: int| 0 <= i < pal.len() ==> #[trigger] pal[i] == box_avg(boxes[i].colors@)
}

/// Some box partition of the image's sampled color table averages to this
/// palette; and when the sampled colors are pairwise RGB-distinct and fit
/// in the requested count, the boxes are singletons, so the palette is
/// exactly the sampled colors, opaque.
pub open spec fn spec_palette_ok(img: Image, max_colors: int, pal: Seq<Color>) -> bool {
    exists|table: Seq<(Color, u32)>, boxes: Seq<ColorBox>|
        #[trigger] palette_built_from(img, table, boxes, pal) && (samples_rgb_distinct(img) && 1
            <= count_distinct(spec_samples(img)) <= max_colors ==> all_singleton(boxes))
}

/// Build a palette of representative colors by median-cut box splitting:
/// the widest box is split at the median of its widest channel until the
/// requested count is reached or no box can be split further. Each final
/// box contributes its frequency-weighted average color, with alpha 255.
/// The palette never exceeds the requested size, is never empty, never
/// holds more entries than there are distinct sampled colors, and each of
/// its entries averages one box of a partition of the image's sampled
/// color table. When the sampled colors are pairwise RGB-distinct and fit
/// in the requested size, splitting ends at singleton boxes and the
/// palette is exactly those colors, opaque.
pub fn build_palette(img: &Image, max_colors: usize) -> (palette: Vec<Color>)
    requires
        img.wf(),
        1 <= max_colors,
    ensures
        1 <= palette@.len() <= max_colors,
        count_distinct(spec_samples(*img)) >= 1 ==> palette@.len() <= count_distinct(
            spec_samples(*img),
        ),
        forall|k: int| 0 <= k < palette@.len() ==> (#[trigger] palette@[k]).a == 255,
        spec_palette_ok(*img, max_colors as int, palette@),
        samples_rgb_distinct(*img) && 1 <= count_distinct(spec_samples(*img)) <= max_colors ==> {
            &&& palette@.len() == count_distinct(spec_samples(*img))
            &&& forall|k: int|
                0 <= k < palette@.len() ==> exists|si: int|
                    0 <= si < spec_samples(*img).len() && #[trigger] palette@[k] == opaque_color(
                        spec_samples(*img)[si],
                    )
            &&& forall|si: int|
                0 <= si < spec_samples(*img).len() ==> palette@.contains(
                    opaque_color(#[trigger] spec_samples(*img)[si]),
                )
        },
{
    let table: Vec<(Color, u32)> = build_color_table(img);
    let ghost table0 = table@;
    let ghost d = count_distinct(spec_samples(*img));
    let mut boxes: Vec<ColorBox> = Vec::new();
    let first: ColorBox = ColorBox::new(table);
    proof {
        broadcast use vstd::multiset::group_multiset_axioms;

        assert(boxes@.push(first).drop_last() =~= boxes@);
        assert(boxes@.push(first).last() == first);
        assert(boxes@.len() == 0);
        assert(total_members(boxes@) == 0);
        assert(boxes@.push(first).len() == 1);
        assert(total_members(boxes@.push(first)) == first.colors@.len());
        assert(boxes_contents(boxes@.push(first)) == boxes_contents(boxes@).add(
            first.colors@.to_multiset(),
        ));
        assert(boxes_contents(boxes@) == vstd::multiset::Multiset::<(Color, u32)>::empty());
        assert forall|e: (Color, u32)|
            boxes_contents(boxes@.push(first)).count(e) == table0.to_multiset().count(e) by {}
        assert(boxes_contents(boxes@.push(first)) =~= table0.to_multiset());
    }
    boxes.push(first);
    let ghost hdist = samples_rgb_distinct(*img) && is_sample_table(*img, table0);
    while boxes.len() < max_colors
        invariant
            1 <= boxes@.len() <= max_colors,
            total_members(boxes@) == d,
            boxes_contents(boxes@) == table0.to_multiset(),
            table0.len() > 0 ==> forall|i: int|
                0 <= i < boxes@.len() ==> (#[trigger] boxes@[i]).colors@.len() >= 1,
            table0.len() == d,
            hdist == (samples_rgb_distinct(*img) && is_sample_table(*img, table0)),
            forall|i: int|
                0 <= i < boxes@.len() ==> (#[trigger] boxes@[i]).bounds_ok() && boxes@[
                    i
                ].bounds_tight(),
        ensures
            1 <= boxes@.len() <= max_colors,
            total_members(boxes@) == d,
            boxes_contents(boxes@) == table0.to_multiset(),
            table0.len() > 0 ==> forall|i: int|
                0 <= i < boxes@.len() ==> (#[trigger] boxes@[i]).colors@.len() >= 1,
            hdist && table0.len() > 0 ==> boxes@.len() == max_colors || all_singleton(boxes@),
        decreases max_colors - boxes@.len(),
    {
        // Find the box with the largest sum of channel extents.
        let mut largest_idx: usize = 0;
        let mut largest_range: u32 = 0;
        let mut i: usize = 1;
        let n: usize = boxes.len();
        {
            let (r0, g0, b0): (u8, u8, u8) = boxes[0].get_ranges();
            largest_range = r0 as u32 + g0 as u32 + b0 as u32;
        }
        while i < n
            invariant
                n == boxes@.len(),
                1 <= i <= n,
                largest_idx < i,
                largest_range as int == range_sum(boxes@[largest_idx as int]),
                forall|j: int| 0 <= j < i ==> range_sum(#[trigger] boxes@[j]) <= largest_range,
            decreases n - i,
        {
            let (r, g, b): (u8, u8, u8) = boxes[i].get_ranges();
            let range: u32 = r as u32 + g as u32 + b as u32;
            if range > largest_range {
                largest_range = range;
                largest_idx = i;
            }
            i = i + 1;
        }
        // Split the widest box; stop if it cannot be split.
        let ghost boxes0 = boxes@;
        let ghost chosen = boxes@[largest_idx as int];
        let mut bx: ColorBox = boxes.remove(largest_idx);
        proof {
            lemma_total_members_remove(boxes0, largest_idx as int);
            lemma_boxes_contents_remove(boxes0, largest_idx as int);
        }
        let split_result: Option<ColorBox> = bx.split();
        match split_result {
            Option::Some(nb) => {
                let ghost boxes1 = boxes@;
                boxes.insert(largest_idx, bx);
                proof {
                    broadcast use vstd::multiset::group_multiset_axioms;

                    lemma_total_members_insert(boxes1, largest_idx as int, bx);
                    lemma_boxes_contents_insert(boxes1, largest_idx as int, bx);
                    assert(boxes@.push(nb).drop_last() =~= boxes@);
                    assert(total_members(boxes@.push(nb)) == total_members(boxes@)
                        + nb.colors@.len());
                    vstd::seq_lib::lemma_multiset_commutative(bx.colors@, nb.colors@);
                    assert(bx.colors@.to_multiset().add(nb.colors@.to_multiset())
                        == chosen.colors@.to_multiset());
                    assert(boxes_contents(boxes@.push(nb)) =~= boxes_contents(boxes@).add(
                        nb.colors@.to_multiset(),
                    ));
                    assert(boxes_contents(boxes@.push(nb)) =~= table0.to_multiset());
                }
                boxes.push(nb);
            },
            Option::None => {
                let ghost boxes1 = boxes@;
                boxes.insert(largest_idx, bx);
                proof {
                    broadcast use vstd::multiset::group_multiset_axioms;

                    lemma_total_members_insert(boxes1, largest_idx as int, bx);
                    lemma_boxes_contents_insert(boxes1, largest_idx as int, bx);
                    assert(boxes_contents(boxes@) =~= table0.to_multiset());
                    assert(boxes@ =~= boxes0);
                    if hdist && table0.len() > 0 {
                        // the widest box could not be split, so under
                        // RGB-distinct samples every box is a singleton:
                        // any box with two members has a positive extent,
                        // the chosen box's extent is maximal, and a
                        // positive extent means two members by tightness
                        assert forall|j: int|
                            0 <= j < boxes0.len() implies (#[trigger] boxes0[j]).colors@.len()
                            <= 1 by {
                            if boxes0[j].colors@.len() >= 2 {
                                lemma_box_members(*img, table0, boxes0, j);
                                let e0 = boxes0[j].colors@[0];
                                let e1 = boxes0[j].colors@[1];
                                assert(!(e0.0.r == e1.0.r && e0.0.g == e1.0.g && e0.0.b
                                    == e1.0.b));
                                assert(range_sum(boxes0[j]) >= 1);
                                assert(range_sum(chosen) >= 1);
                                assert(chosen.colors@.len() >= 2) by {
                                    if chosen.min_r < chosen.max_r {
                                        let i1 = choose|i: int|
                                            0 <= i < chosen.colors@.len() && (
                                            #[trigger] chosen.colors@[i]).0.r == chosen.min_r;
                                        let i2 = choose|i: int|
                                            0 <= i < chosen.colors@.len() && (
                                            #[trigger] chosen.colors@[i]).0.r == chosen.max_r;
                                        assert(i1 != i2);
                                    } else if chosen.min_g < chosen.max_g {
                                        let i1 = choose|i: int|
                                            0 <= i < chosen.colors@.len() && (
                                            #[trigger] chosen.colors@[i]).0.g == chosen.min_g;
                                        let i2 = choose|i: int|
                                            0 <= i < chosen.colors@.len() && (
                                            #[trigger] chosen.colors@[i]).0.g == chosen.max_g;
                                        assert(i1 != i2);
                                    } else {
                                        assert(chosen.min_b < chosen.max_b);
                                        let i1 = choose|i: int|
                                            0 <= i < chosen.colors@.len() && (
                                            #[trigger] chosen.colors@[i]).0.b == chosen.min_b;
                                        let i2 = choose|i: int|
                                            0 <= i < chosen.colors@.len() && (
                                            #[trigger] chosen.colors@[i]).0.b == chosen.max_b;
                                        assert(i1 != i2);
                                    }
                                }
                                assert(false);
                            }
                        }
                        assert(all_singleton(boxes@));
                    }
                }
                break ;
            },
        }
    }
    proof {
        if table0.len() > 0 {
            lemma_total_members_ge_len(boxes@);
        }
    }
    let mut palette: Vec<Color> = Vec::new();
    let nb: usize = boxes.len();
    let mut i: usize = 0;
    while i < nb
        invariant
            nb == boxes@.len(),
            i <= nb,
            palette@.len() == i,
            forall|k: int| 0 <= k < palette@.len() ==> (#[trigger] palette@[k]).a == 255,
            forall|k: int|
                0 <= k < i ==> #[trigger] palette@[k] == box_avg(boxes@[k].colors@),
        decreases nb - i,
    {
        let avg: Color = boxes[i].get_average_color();
        proof {
            let cs = boxes@[i as int].colors@;
            let t = ColorBox::spec_total_count(cs);
            lemma_total_count_nonneg(cs);
            if t > 0 {
                assert(avg.r as int == ColorBox::spec_weighted_sum(cs, 0) / t);
                assert(0 <= ColorBox::spec_weighted_sum(cs, 0) / t <= 255);
                assert(avg.r == (ColorBox::spec_weighted_sum(cs, 0) / t) as u8);
                assert(avg.g == (ColorBox::spec_weighted_sum(cs, 1) / t) as u8);
                assert(avg.b == (ColorBox::spec_weighted_sum(cs, 2) / t) as u8);
            }
            assert(avg == box_avg(cs));
        }
        palette.push(avg);
        i = i + 1;
    }
    proof {
        assert(is_sample_table(*img, table0));
        assert(palette_built_from(*img, table0, boxes@, palette@));
        broadcast use vstd::multiset::group_multiset_axioms;
        broadcast use vstd::seq_lib::group_to_multiset_ensures;
        if samples_rgb_distinct(*img) && 1 <= d <= max_colors {
            assert(all_singleton(boxes@)) by {
                if boxes@.len() == max_colors {
                    lemma_total_members_all_one(boxes@);
                }
            }
        }
        assert(samples_rgb_distinct(*img) && 1 <= count_distinct(spec_samples(*img))
            <= max_colors as int ==> all_singleton(boxes@));
        assert(spec_palette_ok(*img, max_colors as int, palette@));
        if samples_rgb_distinct(*img) && 1 <= d <= max_colors {
            // when the distinct sampled colors fit, splitting ends with
            // one singleton box per color and the palette is those colors
            lemma_total_members_singletons(boxes@);
            assert(palette@.len() == d);
            assert forall|k: int| 0 <= k < palette@.len() implies exists|si: int|
                0 <= si < spec_samples(*img).len() && #[trigger] palette@[k] == opaque_color(
                    spec_samples(*img)[si],
                ) by {
                lemma_box_members(*img, table0, boxes@, k);
                let e = boxes@[k].colors@[0];
                lemma_color_count_contains(spec_samples(*img), e.0);
                assert(e.1 >= 1);
                lemma_singleton_avg(boxes@[k].colors@);
                assert(palette@[k] == opaque_color(e.0));
                let si = choose|si: int|
                    0 <= si < spec_samples(*img).len() && spec_samples(*img)[si] == e.0;
                assert(palette@[k] == opaque_color(spec_samples(*img)[si]));
            }
            assert forall|si: int| 0 <= si < spec_samples(*img).len() implies palette@.contains(
                opaque_color(#[trigger] spec_samples(*img)[si]),
            ) by {
                let c = spec_samples(*img)[si];
                assert(table_has_color(table0, c));
                let k = choose|k: int| 0 <= k < table0.len() && (#[trigger] table0[k]).0 == c;
                let e = table0[k];
                assert(table0.contains(e));
                assert(table0.to_multiset().count(e) > 0);
                lemma_contents_member(boxes@, e);
                let bi = choose|bi: int|
                    0 <= bi < boxes@.len() && (#[trigger] boxes@[bi]).colors@.to_multiset().count(
                        e,
                    ) > 0;
                assert(boxes@[bi].colors@.to_multiset().contains(e));
                assert(boxes@[bi].colors@.contains(e));
                assert(boxes@[bi].colors@[0] == e);
                lemma_color_count_contains(spec_samples(*img), c);
                assert(e.1 >= 1);
                lemma_singleton_avg(boxes@[bi].colors@);
                assert(palette@[bi] == opaque_color(c));
            }
        }
    }
    palette
}

/// The byte of a packed RGBA row belonging to sample `c` of pixel `x`.
pub open spec fn rbyte(row: Seq<u8>, x: int, c: int) -> u8 {
    row[4 * x + c]
}

/// `q` is the first palette entry of minimal squared RGB distance to
/// `orig`: a member, no entry is closer, and every earlier entry is
/// strictly farther. This pins the choice among equally close entries.
pub open spec fn nearest_ok(orig: Color, q: Color, pal: Seq<Color>) -> bool {
    &&& pal.contains(q)
    &&& forall|k: int|
        0 <= k < pal.len() ==> spec_color_distance(orig, q) <= spec_color_distance(
            orig,
            #[trigger] pal[k],
        )
    &&& exists|k: int|
        0 <= k < pal.len() && #[trigger] pal[k] == q && forall|j: int|
            0 <= j < k ==> spec_color_distance(orig, #[trigger] pal[j]) > spec_color_distance(
                orig,
                q,
            )
}

/// Pixel `x` of a packed row holds a nearest palette color with alpha 255.
pub open spec fn row_px_ok(img: Image, y: int, pal: Seq<Color>, row: Seq<u8>, x: int) -> bool {
    let q = Color {
        r: rbyte(row, x, 0),
        g: rbyte(row, x, 1),
        b: rbyte(row, x, 2),
        a: rbyte(row, x, 3),
    };
    q.a == 255 && nearest_ok(color_at(img, x, y), q, pal)
}

/// A packed row maps every pixel of the source row to a nearest palette color.
pub open spec fn spec_row_ok(img: Image, y: int, pal: Seq<Color>, row: Seq<u8>) -> bool {
    &&& row.len() == 4 * img.width
    &&& forall|x: int| 0 <= x < img.width ==> #[trigger] row_px_ok(img, y, pal, row, x)
}

/// Map one image row to the palette, packing the result as RGBA bytes.
/// A row-local cache avoids repeated nearest-color searches for colors that
/// repeat within the row.
pub fn quantize_row(img: &Image, y: u32, palette: &Vec<Color>) -> (row: Vec<u8>)
    requires
        img.wf(),
        y < img.height,
        palette@.len() >= 1,
        forall|k: int| 0 <= k < palette@.len() ==> (#[trigger] palette@[k]).a == 255,
    ensures
        spec_row_ok(*img, y as int, palette@, row@),
{
    let w: u32 = img.width;
    let mut row: Vec<u8> = Vec::new();
    let mut cache: Vec<(Color, Color)> = Vec::new();
    let mut x: u32 = 0;
    while x < w
        invariant
            img.wf(),
            w == img.width,
            y < img.height,
            palette@.len() >= 1,
            forall|k: int| 0 <= k < palette@.len() ==> (#[trigger] palette@[k]).a == 255,
            x <= w,
            row@.len() == 4 * x,
            forall|xp: int|
                0 <= xp < x ==> #[trigger] row_px_ok(*img, y as int, palette@, row@, xp),
            forall|k: int|
                0 <= k < cache@.len() ==> nearest_ok(
                    (#[trigger] cache@[k]).0,
                    cache@[k].1,
                    palette@,
                ) && cache@[k].1.a == 255,
        decreases w - x,
    {
        let orig: Color = Color::new(
            img.get(x, y, 0),
            img.get(x, y, 1),
            img.get(x, y, 2),
            img.get(x, y, 3),
        );
        let mut cached: Option<Color> = Option::None;
        let mut k: usize = 0;
        let nc: usize = cache.len();
        while k < nc
            invariant
                nc == cache@.len(),
                k <= nc,
                forall|j: int|
                    0 <= j < cache@.len() ==> nearest_ok(
                        (#[trigger] cache@[j]).0,
                        cache@[j].1,
                        palette@,
                    ) && cache@[j].1.a == 255,
                match cached {
                    Option::Some(q) => nearest_ok(orig, q, palette@) && q.a == 255,
                    Option::None => true,
                },
            ensures
                nc == cache@.len(),
                match cached {
                    Option::Some(q) => nearest_ok(orig, q, palette@) && q.a == 255,
                    Option::None => true,
                },
            decreases nc - k,
        {
            if cache[k].0 == orig {
                cached = Option::Some(cache[k].1);
                break ;
            }
            k = k + 1;
        }
        let q: Color = match cached {
            Option::Some(qc) => qc,
            Option::None => {
                let qc: Color = find_closest_palette_color(&orig, palette);
                proof {
                    let ki = choose|ki: int| 0 <= ki < palette@.len() && palette@[ki] == qc;
                    assert(palette@[ki].a == 255);
                }
                cache.push((orig, qc));
                qc
            },
        };
        let ghost row0 = row@;
        row.push(q.r);
        row.push(q.g);
        row.push(q.b);
        row.push(q.a);
        proof {
            assert(row@ =~= row0 + seq![q.r, q.g, q.b, q.a]);
            assert forall|xp: int| 0 <= xp < x implies #[trigger] row_px_ok(
                *img,
                y as int,
                palette@,
                row@,
                xp,
            ) by {
                assert(row_px_ok(*img, y as int, palette@, row0, xp));
                assert(rbyte(row@, xp, 0) == rbyte(row0, xp, 0));
                assert(rbyte(row@, xp, 1) == rbyte(row0, xp, 1));
                assert(rbyte(row@, xp, 2) == rbyte(row0, xp, 2));
                assert(rbyte(row@, xp, 3) == rbyte(row0, xp, 3));
            }
            assert(rbyte(row@, x as int, 0) == q.r);
            assert(rbyte(row@, x as int, 1) == q.g);
            assert(rbyte(row@, x as int, 2) == q.b);
            assert(rbyte(row@, x as int, 3) == q.a);
            assert(orig == color_at(*img, x as int, y as int));
            assert(row_px_ok(*img, y as int, palette@, row@, x as int));
        }
        x = x + 1;
    }
    row
}

/// Relies on rayon's indexed parallel iterator: each row index is mapped
/// through the verified `quantize_row` and the rows are collected in index
/// order, so the result equals a sequential row-by-row mapping.
#[verifier::external_body]
fn quantize_rows_parallel(img: &Image, palette: &Vec<Color>) -> (rows: Vec<Vec<u8>>)
    requires
        img.wf(),
        palette@.len() >= 1,
        forall|k: int| 0 <= k < palette@.len() ==> (#[trigger] palette@[k]).a == 255,
    ensures
        rows@.len() == img.height,
        forall|y: int|
            0 <= y < img.height ==> spec_row_ok(*img, y, palette@, (#[trigger] rows@[y])@),
{
    (0..img.height).into_par_iter().map(|y| quantize_row(img, y, palette)).collect()
}

/// A pixel of the output is a nearest palette color of the source pixel,
/// with alpha forced to 255.
pub open spec fn px_mapped(img: Image, out: Image, pal: Seq<Color>, x: int, y: int) -> bool {
    let q = color_at(out, x, y);
    q.a == 255 && nearest_ok(color_at(img, x, y), q, pal)
}

/// Every pixel of the output is a nearest palette color of its source pixel.
pub open spec fn spec_median_mapped(img: Image, out: Image, pal: Seq<Color>) -> bool {
    forall|x: int, y: int|
        0 <= x < img.width && 0 <= y < img.height ==> #[trigger] px_mapped(img, out, pal, x, y)
}

/// Quantize an image with the median-cut algorithm: build a palette of at
/// most `max_colors` representatives from the sampled color frequencies,
/// then map every pixel to its nearest palette color (alpha becomes 255).
/// Rows are mapped independently and written back in row order. The
/// palette is the box-partition average of the image's own sampled color
/// table, as `build_palette` produces it.
pub fn quantize_image_with_median(img: &Image, max_colors: usize) -> (out: Image)
    requires
        img.wf(),
        1 <= max_colors,
    ensures
        out.wf(),
        out.same_dims(img),
        exists|pal: Seq<Color>|
            #![trigger spec_median_mapped(*img, out, pal)]
            1 <= pal.len() <= max_colors && spec_palette_ok(*img, max_colors as int, pal)
                && spec_median_mapped(
                *img,
                out,
                pal,
            ),
{
    let w: u32 = img.width;
    let h: u32 = img.height;
    let ghost wi = w as int;
    let ghost hi = h as int;
    let palette: Vec<Color> = build_palette(img, max_colors);
    let rows: Vec<Vec<u8>> = quantize_rows_parallel(img, &palette);
    let mut data: Vec<u8> = Vec::new();
    let mut y: usize = 0;
    let nh: usize = rows.len();
    while y < nh
        invariant
            img.wf(),
            w == img.width,
            h == img.height,
            wi == w as int,
            hi == h as int,
            nh == h,
            rows@.len() == h,
            palette@.len() >= 1,
            forall|yp: int|
                0 <= yp < h ==> spec_row_ok(*img, yp, palette@, (#[trigger] rows@[yp])@),
            y <= nh,
            data@.len() == 4 * (y * w),
            forall|xp: int, yp: int, c: int|
                0 <= xp < w && 0 <= yp < y && 0 <= c < 4 ==> #[trigger] data@[pix_idx(
                    wi,
                    xp,
                    yp,
                    c,
                )] == rbyte(rows@[yp]@, xp, c),
        decreases nh - y,
    {
        let row: &Vec<u8> = &rows[y];
        let ghost data0 = data@;
        let rl: usize = row.len();
        let mut i: usize = 0;
        while i < rl
            invariant
                rl == row@.len(),
                i <= rl,
                data@ == data0 + row@.take(i as int),
            decreases rl - i,
        {
            data.push(row[i]);
            proof {
                assert(data@ =~= data0 + row@.take(i as int + 1));
            }
            i = i + 1;
        }
        proof {
            assert(row@.take(rl as int) =~= row@);
            assert(data@ == data0 + row@);
            assert(row@.len() == 4 * wi);
            assert forall|xp: int, yp: int, c: int|
                0 <= xp < w && 0 <= yp < y + 1 && 0 <= c < 4 implies #[trigger] data@[pix_idx(
                wi,
                xp,
                yp,
                c,
            )] == rbyte(rows@[yp]@, xp, c) by {
                lemma_pix_idx_bounds(wi, hi, xp, yp, c);
                if yp < y as int {
                    lemma_pix_idx_bounds(wi, y as int, xp, yp, c);
                    assert(4 * (wi * (y as int)) == 4 * ((y as int) * wi)) by (nonlinear_arith);
                    assert(data@[pix_idx(wi, xp, yp, c)] == data0[pix_idx(wi, xp, yp, c)]);
                } else {
                    assert(yp == y as int);
                    assert(pix_idx(wi, xp, yp, c) == 4 * (yp * wi) + 4 * xp + c);
                    assert(data0.len() == 4 * (yp * wi)) by (nonlinear_arith)
                        requires
                            data0.len() == 4 * (yp * wi),
                    ;
                    assert(data@[pix_idx(wi, xp, yp, c)] == row@[4 * xp + c]);
                }
            }
        }
        y = y + 1;
        assert(4 * ((y - 1) * w + w) == 4 * (y * w)) by (nonlinear_arith);
    }
    assert(4 * (h * w) == 4 * w * h) by (nonlinear_arith);
    let out = Image { width: w, height: h, data };
    proof {
        assert forall|x: int, yp: int, c: int|
            0 <= x < w && 0 <= yp < h && 0 <= c < 4 implies out.pix(x, yp, c) == out.data@[pix_idx(
            wi,
            x,
            yp,
            c,
        )] by {
            lemma_pix_idx_bounds(wi, hi, x, yp, c);
        }
        assert forall|x: int, yp: int|
            0 <= x < w && 0 <= yp < h implies #[trigger] px_mapped(*img, out, palette@, x, yp) by {
            assert(row_px_ok(*img, yp, palette@, rows@[yp]@, x));
            assert(color_at(out, x, yp) == Color {
                r: rbyte(rows@[yp]@, x, 0),
                g: rbyte(rows@[yp]@, x, 1),
                b: rbyte(rows@[yp]@, x, 2),
                a: rbyte(rows@[yp]@, x, 3),
            });
        }
        assert(spec_median_mapped(*img, out, palette@));
    }
    out
}

} // verus!
