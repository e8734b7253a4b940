use vstd::prelude::*;

verus! {

/// A decoded RGBA image: `width * height` pixels, four 8-bit samples each,
/// stored row-major as `[r, g, b, a, r, g, b, a, ...]`.
pub struct Image {
    pub width: u32,
    pub height: u32,
    pub data: Vec<u8>,
}

/// Flat index of sample `c` of the pixel at `(x, y)` in a `width`-wide image.
pub open spec fn pix_idx(width: int, x: int, y: int, c: int) -> int {
    4 * (y * width + x) + c
}

impl Image {
    /// The sample buffer holds exactly four bytes per pixel.
    pub open spec fn wf(&self) -> bool {
        &&& self.data@.len() == 4 * self.width * self.height
        &&& 4 * self.width * self.height <= usize::MAX
    }

    /// The sample `c` (0 = red, 1 = green, 2 = blue, 3 = alpha) of pixel `(x, y)`.
    pub open spec fn pix(&self, x: int, y: int, c: int) -> u8 {
        self.data@[pix_idx(self.width as int, x, y, c)]
    }

    /// Two images have the same dimensions.
    pub open spec fn same_dims(&self, other: &Image) -> bool {
        self.width == other.width && self.height == other.height
    }

    pub fn get(&self, x: u32, y: u32, c: u32) -> (r: u8)
        requires
            self.wf(),
            x < self.width,
            y < self.height,
            c < 4,
        ensures
            r == self.pix(x as int, y as int, c as int),
    {
        proof {
            lemma_pix_idx_bounds(self.width as int, self.height as int, x as int, y as int, c as int);
        }
        let i: usize = 4 * ((y as usize) * (self.width as usize) + (x as usize)) + (c as usize);
        self.data[i]
    }

    pub fn set(&mut self, x: u32, y: u32, c: u32, v: u8)
        requires
            old(self).wf(),
            x < old(self).width,
            y < old(self).height,
            c < 4,
        ensures
            final(self).wf(),
            final(self).width == old(self).width,
            final(self).height == old(self).height,
            final(self).data@ == old(self).data@.update(
                pix_idx(old(self).width as int, x as int, y as int, c as int),
                v,
            ),
    {
        proof {
            lemma_pix_idx_bounds(self.width as int, self.height as int, x as int, y as int, c as int);
        }
        let i: usize = 4 * ((y as usize) * (self.width as usize) + (x as usize)) + (c as usize);
        self.data[i] = v;
    }
}

/// A pixel's flat index lies inside the sample buffer.
pub proof fn lemma_pix_idx_bounds(width: int, height: int, x: int, y: int, c: int)
    requires
        0 <= x < width,
        0 <= y < height,
        0 <= c < 4,
    ensures
        0 <= pix_idx(width, x, y, c) < 4 * width * height,
        pix_idx(width, x, y, c) == 4 * (y * width + x) + c,
        0 <= y * width + x < width * height,
        4 * (width * height) == 4 * width * height,
{
    assert(0 <= y * width + x && y * width + x < width * height) by (nonlinear_arith)
        requires
            0 <= x < width,
            0 <= y < height,
    ;
    assert(4 * (y * width + x) + c < 4 * (width * height)) by {
    }
    assert(4 * (width * height) == 4 * width * height) by (nonlinear_arith);
}

/// Distinct samples of distinct pixels have distinct flat indices.
pub proof fn lemma_pix_idx_injective(width: int, height: int, x1: int, y1: int, c1: int, x2: int, y2: int, c2: int)
    requires
        0 <= x1 < width,
        0 <= y1 < height,
        0 <= c1 < 4,
        0 <= x2 < width,
        0 <= y2 < height,
        0 <= c2 < 4,
        (x1, y1, c1) != (x2, y2, c2),
    ensures
        pix_idx(width, x1, y1, c1) != pix_idx(width, x2, y2, c2),
{
    if y1 == y2 && x1 == x2 {
    } else {
        assert(y1 * width + x1 != y2 * width + x2) by (nonlinear_arith)
            requires
                0 <= x1 < width,
                0 <= x2 < width,
                (x1, y1) != (x2, y2),
        ;
    }
}

} // verus!
