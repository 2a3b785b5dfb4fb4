//! The framebuffer: a fixed-size row-major grid of pixels with clear, write,
//! read, and conversion to a packed 32-bit array.

use vstd::prelude::*;
use vstd::pervasive::VecAdditionalExecFns;
use crate::color::{opaque_black, pack_pixel, unpack_pixel, Pixel};

verus! {

/// A fixed-size W-by-H grid of pixels, stored row-major in one flat buffer.
/// The dimensions never change after creation.
pub struct Framebuffer {
    width: usize,
    height: usize,
    data: Vec<Pixel>,
}

impl View for Framebuffer {
    type V = Seq<Pixel>;

    /// The cells in row-major order: row 0 first, left to right within a row.
    closed spec fn view(&self) -> Seq<Pixel> {
        self.data@
    }
}

impl Framebuffer {
    pub closed spec fn spec_width(self) -> int {
        self.width as int
    }

    pub closed spec fn spec_height(self) -> int {
        self.height as int
    }

    /// Well-formed: positive dimensions, every cell addressable by a signed
    /// 32-bit coordinate, and one cell stored for each grid position.
    pub open spec fn wf(self) -> bool {
        &&& 0 < self.spec_width() <= 0x7fff_ffff
        &&& 0 < self.spec_height() <= 0x7fff_ffff
        &&& self@.len() == self.spec_width() * self.spec_height()
    }

    /// Whether column x, row y is a grid position.
    pub open spec fn in_range(self, x: int, y: int) -> bool {
        0 <= x < self.spec_width() && 0 <= y < self.spec_height()
    }

    /// The color stored at column x, row y.
    pub open spec fn color_at(self, x: int, y: int) -> Pixel {
        self@[y * self.spec_width() + x]
    }

    pub fn width(&self) -> (w: usize)
        ensures
            w as int == self.spec_width(),
    {
        self.width
    }

    pub fn height(&self) -> (h: usize)
        ensures
            h as int == self.spec_height(),
    {
        self.height
    }

    /// A fresh width-by-height grid with every cell opaque black.
    pub fn new(width: usize, height: usize) -> (fb: Framebuffer)
        requires
            0 < width <= 0x7fff_ffff,
            0 < height <= 0x7fff_ffff,
            width * height <= usize::MAX,
        ensures
            fb.wf(),
            fb.spec_width() == width,
            fb.spec_height() == height,
            forall|x: int, y: int| fb.in_range(x, y) ==> fb.color_at(x, y) == opaque_black(),
    {
        let n: usize = width * height;
        let mut data: Vec<Pixel> = Vec::new();
        while data.len() < n
            invariant
                data@.len() <= n,
                forall|k: int| 0 <= k < data@.len() ==> data@[k] == opaque_black(),
            decreases n - data@.len(),
        {
            data.push(Pixel::new(0, 0, 0, 255));
        }
        let fb = Framebuffer { width, height, data };
        proof {
            assert forall|x: int, y: int| fb.in_range(x, y) implies fb.color_at(x, y)
                == opaque_black() by {
                lemma_row_major_index(width as int, height as int, x, y);
            }
        }
        fb
    }

    /// Writes `color` at column x, row y if both are in range; writes out of
    /// range are silently ignored, so every drawing call is total.
    pub fn set(&mut self, x: i32, y: i32, color: Pixel)
        requires
            old(self).wf(),
        ensures
            final(self).wf(),
            final(self).spec_width() == old(self).spec_width(),
            final(self).spec_height() == old(self).spec_height(),
            forall|i: int, j: int| old(self).in_range(i, j) ==> final(self).color_at(i, j) == (
            if i == x && j == y {
                color
            } else {
                old(self).color_at(i, j)
            }),
            !old(self).in_range(x as int, y as int) ==> final(self)@ == old(self)@,
    {
        if x >= 0 && y >= 0 && (x as usize) < self.width && (y as usize) < self.height {
            let w = self.width;
            let n = self.data.len();
            proof {
                lemma_row_major_index(w as int, self.height as int, x as int, y as int);
                assert((y as int) * (w as int) + (x as int) < (n as int));
            }
            let idx: usize = (y as usize) * w + (x as usize);
            self.data.set(idx, color);
            proof {
                assert forall|i: int, j: int| old(self).in_range(i, j) implies self.color_at(i, j)
                    == (if i == x && j == y {
                    color
                } else {
                    old(self).color_at(i, j)
                }) by {
                    lemma_row_major_index(w as int, self.height as int, i, j);
                    if i != x || j != y {
                        lemma_row_major_distinct(w as int, i, j, x as int, y as int);
                    }
                }
            }
        }
    }

    /// The color at column x, row y; the caller keeps the coordinates in range.
    pub fn get(&self, x: usize, y: usize) -> (c: Pixel)
        requires
            self.wf(),
            x < self.spec_width(),
            y < self.spec_height(),
        ensures
            c == self.color_at(x as int, y as int),
    {
        let n = self.data.len();
        proof {
            lemma_row_major_index(self.width as int, self.height as int, x as int, y as int);
            assert((y as int) * (self.width as int) + (x as int) < (n as int));
        }
        self.data[y * self.width + x]
    }

    /// Resets every cell to opaque black. Always succeeds.
    pub fn clear(&mut self)
        requires
            old(self).wf(),
        ensures
            final(self).wf(),
            final(self).spec_width() == old(self).spec_width(),
            final(self).spec_height() == old(self).spec_height(),
            forall|x: int, y: int| final(self).in_range(x, y) ==> final(self).color_at(x, y)
                == opaque_black(),
    {
        let n = self.data.len();
        let mut k: usize = 0;
        while k < n
            invariant
                old(self).wf(),
                k <= n,
                self.width == old(self).width,
                self.height == old(self).height,
                self.data@.len() == n,
                n == old(self)@.len(),
                forall|m: int| 0 <= m < k ==> self.data@[m] == opaque_black(),
            decreases n - k,
        {
            self.data.set(k, Pixel::new(0, 0, 0, 255));
            k = k + 1;
        }
        proof {
            assert forall|x: int, y: int| self.in_range(x, y) implies self.color_at(x, y)
                == opaque_black() by {
                lemma_row_major_index(self.width as int, self.height as int, x, y);
            }
        }
    }

    /// The whole grid as packed 32-bit words, row-major: the element at row r,
    /// column c is the packed form of the color at (c, r), and unpacking it
    /// gives that color back. Pure read; the framebuffer is not changed.
    pub fn to_packed_array(&self) -> (out: Vec<u32>)
        requires
            self.wf(),
        ensures
            out@.len() == self.spec_width() * self.spec_height(),
            forall|c: int, r: int| self.in_range(c, r) ==> out@[r * self.spec_width() + c]
                == pack_pixel(self.color_at(c, r)),
            forall|c: int, r: int| self.in_range(c, r) ==> unpack_pixel(
                out@[r * self.spec_width() + c],
            ) == self.color_at(c, r),
    {
        let n = self.data.len();
        let mut out: Vec<u32> = Vec::new();
        let mut k: usize = 0;
        while k < n
            invariant
                self.wf(),
                k <= n,
                n == self@.len(),
                out@.len() == k,
                forall|m: int| 0 <= m < k ==> out@[m] == pack_pixel(self@[m]),
            decreases n - k,
        {
            out.push(self.data[k].to_u32());
            k = k + 1;
        }
        proof {
            assert forall|c: int, r: int| self.in_range(c, r) implies out@[r * self.spec_width()
                + c] == pack_pixel(self.color_at(c, r)) by {
                lemma_row_major_index(self.spec_width(), self.spec_height(), c, r);
            }
            assert forall|c: int, r: int| self.in_range(c, r) implies unpack_pixel(
                out@[r * self.spec_width() + c],
            ) == self.color_at(c, r) by {
                lemma_row_major_index(self.spec_width(), self.spec_height(), c, r);
                crate::color::lemma_unpack_pack(self.color_at(c, r));
            }
        }
        out
    }
}

/// A grid position's row-major index lies inside the flat buffer.
pub proof fn lemma_row_major_index(w: int, h: int, x: int, y: int)
    by (nonlinear_arith)
    requires
        0 <= x < w,
        0 <= y < h,
    ensures
        0 <= y * w + x < w * h,
{
}

/// Distinct grid positions have distinct row-major indices.
pub proof fn lemma_row_major_distinct(w: int, x1: int, y1: int, x2: int, y2: int)
    by (nonlinear_arith)
    requires
        0 <= x1 < w,
        0 <= x2 < w,
        x1 != x2 || y1 != y2,
    ensures
        y1 * w + x1 != y2 * w + x2,
{
}

/// Law: two well-formed framebuffers of the same dimensions that agree on the
/// color of every grid position hold the same cells; in particular a drawing
/// call that repaints no grid position leaves the framebuffer unchanged.
pub proof fn lemma_same_cells_same_view(fb0: Framebuffer, fb1: Framebuffer)
    requires
        fb0.wf(),
        fb1.wf(),
        fb1.spec_width() == fb0.spec_width(),
        fb1.spec_height() == fb0.spec_height(),
        forall|x: int, y: int| fb0.in_range(x, y) ==> fb1.color_at(x, y) == fb0.color_at(x, y),
    ensures
        fb1@ == fb0@,
{
    let w = fb0.spec_width();
    let h = fb0.spec_height();
    assert forall|k: int| 0 <= k < fb0@.len() implies fb1@[k] == fb0@[k] by {
        lemma_index_to_coords(w, h, k);
        let x = k % w;
        let y = k / w;
        assert(fb0.in_range(x, y));
        assert(fb1.color_at(x, y) == fb0.color_at(x, y));
        assert(y * w + x == k);
    }
    assert(fb1@ =~= fb0@);
}

/// A flat row-major index splits back into a grid position.
proof fn lemma_index_to_coords(w: int, h: int, k: int)
    requires
        0 < w,
        0 < h,
        0 <= k < w * h,
    ensures
        0 <= k % w < w,
        0 <= k / w < h,
        (k / w) * w + (k % w) == k,
{
    vstd::arithmetic::div_mod::lemma_fundamental_div_mod(k, w);
    vstd::arithmetic::div_mod::lemma_mod_bound(k, w);
    assert(w * (k / w) == (k / w) * w) by (nonlinear_arith);
    assert(k / w >= 0) by {
        if k / w < 0 {
            assert((k / w) * w <= -w) by (nonlinear_arith)
                requires
                    k / w < 0,
                    0 < w,
            ;
        }
    }
    assert(k / w < h) by {
        if k / w >= h {
            assert((k / w) * w >= h * w) by (nonlinear_arith)
                requires
                    k / w >= h,
                    0 < w,
            ;
            assert(w * h == h * w) by (nonlinear_arith);
        }
    }
}

} // verus!
