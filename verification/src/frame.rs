//! The raw frame buffer: row-major, three bytes per pixel. The
//! compositor's canvas and every decoded tile frame are values of
//! this type; region copy, rectangle fill and the one-time
//! freeze/desaturation are verified down to the pixel.

use vstd::prelude::*;

verus! {

/// A row-major, 3-bytes-per-pixel image.
#[derive(Debug, Clone)]
pub struct Frame {
    pub width: u32,
    pub height: u32,
    pub data: Vec<u8>,
}

/// Perceptual luma of a pixel, in integer arithmetic: the classic
/// weights 0.2989, 0.5870 and 0.1140 scaled by ten thousand.
pub open spec fn luma(c: (u8, u8, u8)) -> u8 {
    ((2989 * (c.0 as int) + 5870 * (c.1 as int) + 1140 * (c.2 as int)) / 10000) as u8
}

impl Frame {
    /// The buffer holds exactly its pixels.
    pub open spec fn wf(&self) -> bool {
        self.data@.len() == (self.width as int) * (self.height as int) * 3
    }

    /// Byte position of pixel `(x, y)`.
    pub open spec fn pixel_index(&self, x: int, y: int) -> int {
        3 * (y * (self.width as int) + x)
    }

    /// The pixel at `(x, y)`.
    pub open spec fn pixel(&self, x: int, y: int) -> (u8, u8, u8) {
        let i = self.pixel_index(x, y);
        (self.data@[i], self.data@[i + 1], self.data@[i + 2])
    }

    /// Two frames agree everywhere outside the given rectangle (their
    /// sizes assumed equal).
    pub open spec fn same_outside(
        &self,
        other: Frame,
        x: int,
        y: int,
        w: int,
        h: int,
    ) -> bool {
        forall|i: int, j: int|
            0 <= i < self.width as int && 0 <= j < self.height as int && !(x <= i < x + w && y
                <= j < y + h) ==> self.pixel(i, j) == other.pixel(i, j)
    }
}

/// Row-major positions of distinct in-bounds pixels differ.
proof fn lemma_pixel_pos_injective(w: int, x1: int, y1: int, x2: int, y2: int)
    requires
        0 <= x1 < w,
        0 <= x2 < w,
        0 <= y1,
        0 <= y2,
        x1 != x2 || y1 != y2,
    ensures
        y1 * w + x1 != y2 * w + x2,
{
    if y1 != y2 {
        assert(y1 * w + x1 != y2 * w + x2) by (nonlinear_arith)
            requires
                0 <= x1 < w,
                0 <= x2 < w,
                y1 != y2,
        ;
    }
}

/// A pixel index never reaches past the buffer.
proof fn lemma_pixel_index_bounds(w: int, h: int, x: int, y: int)
    requires
        0 <= x < w,
        0 <= y < h,
    ensures
        0 <= 3 * (y * w + x),
        3 * (y * w + x) + 3 <= w * h * 3,
{
    assert(0 <= y * w + x && y * w + x + 1 <= w * h) by (nonlinear_arith)
        requires
            0 <= x < w,
            0 <= y < h,
    ;
}

impl Frame {
    /// An all-black frame of the given size.
    pub fn new(width: u32, height: u32) -> (r: Frame)
        requires
            (width as int) * (height as int) * 3 <= usize::MAX,
        ensures
            r.wf(),
            r.width == width,
            r.height == height,
            forall|i: int, j: int|
                0 <= i < width && 0 <= j < height ==> r.pixel(i, j) == ((0u8, 0u8, 0u8)),
    {
        proof {
            assert((width as int) * (height as int) >= 0) by (nonlinear_arith);
        }
        let len = (width as usize) * (height as usize) * 3;
        let data: Vec<u8> = vec![0u8; len];
        let r = Frame { width, height, data };
        proof {
            assert forall|i: int, j: int|
                0 <= i < width && 0 <= j < height implies r.pixel(i, j) == ((0u8, 0u8, 0u8)) by {
                lemma_pixel_index_bounds(width as int, height as int, i, j);
            }
        }
        r
    }

    /// Wraps a raw buffer as a frame of the given size; `None` when
    /// the length is not exactly the pixel count.
    pub fn from_raw(width: u32, height: u32, data: Vec<u8>) -> (r: Option<Frame>)
        ensures
            r is Some <==> data@.len() == (width as int) * (height as int) * 3,
            r matches Some(f) ==> f.wf() && f.width == width && f.height == height && f.data@
                == data@,
    {
        proof {
            assert(0 <= (width as int) * (height as int) * 3 <= (0xffff_ffff * 0xffff_ffff)
                * 3) by (nonlinear_arith)
                requires
                    width <= 0xffff_ffffu32,
                    height <= 0xffff_ffffu32,
            ;
        }
        let l = data.len();
        if (width as u128) * (height as u128) * 3 <= usize::MAX as u128 && (l as u128) == (width
            as u128) * (height as u128) * 3 {
            Some(Frame { width, height, data })
        } else {
            None
        }
    }

    /// The pixel at `(x, y)`.
    pub fn get_px(&self, x: u32, y: u32) -> (c: (u8, u8, u8))
        requires
            self.wf(),
            x < self.width,
            y < self.height,
        ensures
            c == self.pixel(x as int, y as int),
    {
        let n = self.data.len();
        proof {
            lemma_pixel_index_bounds(self.width as int, self.height as int, x as int, y as int);
            assert(3 * ((y as int) * (self.width as int) + x as int) + 3 <= n);
        }
        let i = 3 * ((y as usize) * (self.width as usize) + (x as usize));
        (self.data[i], self.data[i + 1], self.data[i + 2])
    }

    /// Writes the pixel at `(x, y)`, leaving every other pixel as it
    /// was.
    pub fn set_px(&mut self, x: u32, y: u32, c: (u8, u8, u8))
        requires
            old(self).wf(),
            x < old(self).width,
            y < old(self).height,
        ensures
            final(self).wf(),
            final(self).width == old(self).width,
            final(self).height == old(self).height,
            final(self).pixel(x as int, y as int) == c,
            forall|i: int, j: int|
                0 <= i < old(self).width && 0 <= j < old(self).height && (i != x || j != y)
                    ==> final(self).pixel(i, j) == old(self).pixel(i, j),
    {
        let n = self.data.len();
        proof {
            lemma_pixel_index_bounds(self.width as int, self.height as int, x as int, y as int);
            assert(3 * ((y as int) * (self.width as int) + x as int) + 3 <= n);
        }
        let i = 3 * ((y as usize) * (self.width as usize) + (x as usize));
        self.data[i] = c.0;
        self.data[i + 1] = c.1;
        self.data[i + 2] = c.2;
        proof {
            assert forall|i2: int, j2: int|
                0 <= i2 < old(self).width && 0 <= j2 < old(self).height && (i2 != x || j2 != y)
                    implies final(self).pixel(i2, j2) == old(self).pixel(i2, j2) by {
                lemma_pixel_index_bounds(self.width as int, self.height as int, i2, j2);
                lemma_pixel_pos_injective(self.width as int, i2, j2, x as int, y as int);
            }
        }
    }

    /// Fills a rectangle with one color, leaving the rest untouched.
    pub fn fill_rect(&mut self, x: u32, y: u32, w: u32, h: u32, c: (u8, u8, u8))
        requires
            old(self).wf(),
            x + w <= old(self).width,
            y + h <= old(self).height,
        ensures
            final(self).wf(),
            final(self).width == old(self).width,
            final(self).height == old(self).height,
            forall|i: int, j: int|
                x <= i < x + w && y <= j < y + h ==> final(self).pixel(i, j) == c,
            final(self).same_outside(*old(self), x as int, y as int, w as int, h as int),
    {
        let mut j: u32 = 0;
        while j < h
            invariant
                0 <= j <= h,
                self.wf(),
                self.width == old(self).width,
                self.height == old(self).height,
                x + w <= self.width,
                y + h <= self.height,
                forall|a: int, b: int|
                    x <= a < x + w && y <= b < y + j ==> self.pixel(a, b) == c,
                self.same_outside(*old(self), x as int, y as int, w as int, h as int),
            decreases h - j,
        {
            let mut i: u32 = 0;
            while i < w
                invariant
                    0 <= i <= w,
                    0 <= j < h,
                    self.wf(),
                    self.width == old(self).width,
                    self.height == old(self).height,
                    x + w <= self.width,
                    y + h <= self.height,
                    forall|a: int, b: int|
                        x <= a < x + w && y <= b < y + j ==> self.pixel(a, b) == c,
                    forall|a: int| x <= a < x + i ==> #[trigger] self.pixel(a, y + j) == c,
                    self.same_outside(*old(self), x as int, y as int, w as int, h as int),
                decreases w - i,
            {
                self.set_px(x + i, y + j, c);
                i += 1;
            }
            j += 1;
        }
    }

    /// Copies another frame in whole into the rectangle at `(x, y)`,
    /// leaving the rest untouched.
    pub fn copy_from(&mut self, src: &Frame, x: u32, y: u32)
        requires
            old(self).wf(),
            src.wf(),
            x + src.width <= old(self).width,
            y + src.height <= old(self).height,
        ensures
            final(self).wf(),
            final(self).width == old(self).width,
            final(self).height == old(self).height,
            forall|i: int, j: int|
                0 <= i < src.width && 0 <= j < src.height ==> final(self).pixel(x + i, y + j)
                    == src.pixel(i, j),
            final(self).same_outside(
                *old(self),
                x as int,
                y as int,
                src.width as int,
                src.height as int,
            ),
    {
        let w = src.width;
        let h = src.height;
        let mut j: u32 = 0;
        while j < h
            invariant
                0 <= j <= h,
                self.wf(),
                src.wf(),
                w == src.width,
                h == src.height,
                self.width == old(self).width,
                self.height == old(self).height,
                x + w <= self.width,
                y + h <= self.height,
                forall|a: int, b: int|
                    0 <= a < w && 0 <= b < j ==> self.pixel(x + a, y + b) == src.pixel(a, b),
                self.same_outside(*old(self), x as int, y as int, w as int, h as int),
            decreases h - j,
        {
            let mut i: u32 = 0;
            while i < w
                invariant
                    0 <= i <= w,
                    0 <= j < h,
                    self.wf(),
                    src.wf(),
                    w == src.width,
                    h == src.height,
                    self.width == old(self).width,
                    self.height == old(self).height,
                    x + w <= self.width,
                    y + h <= self.height,
                    forall|a: int, b: int|
                        0 <= a < w && 0 <= b < j ==> self.pixel(x + a, y + b) == src.pixel(a, b),
                    forall|a: int| 0 <= a < i ==> #[trigger] self.pixel(x + a, y + j) == src.pixel(a, j as int),
                    self.same_outside(*old(self), x as int, y as int, w as int, h as int),
                decreases w - i,
            {
                let c = src.get_px(i, j);
                self.set_px(x + i, y + j, c);
                i += 1;
            }
            j += 1;
        }
    }

    /// Converts a rectangle to its perceptual luma, pixel by pixel —
    /// the freeze/desaturate effect — leaving the rest untouched.
    pub fn desaturate_rect(&mut self, x: u32, y: u32, w: u32, h: u32)
        requires
            old(self).wf(),
            x + w <= old(self).width,
            y + h <= old(self).height,
        ensures
            final(self).wf(),
            final(self).width == old(self).width,
            final(self).height == old(self).height,
            forall|i: int, j: int|
                x <= i < x + w && y <= j < y + h ==> final(self).pixel(i, j) == ({
                    let v = luma(old(self).pixel(i, j));
                    (v, v, v)
                }),
            final(self).same_outside(*old(self), x as int, y as int, w as int, h as int),
    {
        let mut j: u32 = 0;
        while j < h
            invariant
                0 <= j <= h,
                self.wf(),
                self.width == old(self).width,
                self.height == old(self).height,
                x + w <= self.width,
                y + h <= self.height,
                forall|a: int, b: int|
                    x <= a < x + w && y <= b < y + j ==> self.pixel(a, b) == ({
                        let v = luma(old(self).pixel(a, b));
                        (v, v, v)
                    }),
                forall|a: int, b: int|
                    x <= a < x + w && y + j <= b < y + h ==> self.pixel(a, b) == old(self).pixel(
                        a,
                        b,
                    ),
                self.same_outside(*old(self), x as int, y as int, w as int, h as int),
            decreases h - j,
        {
            let mut i: u32 = 0;
            while i < w
                invariant
                    0 <= i <= w,
                    0 <= j < h,
                    self.wf(),
                    self.width == old(self).width,
                    self.height == old(self).height,
                    x + w <= self.width,
                    y + h <= self.height,
                    forall|a: int, b: int|
                        x <= a < x + w && y <= b < y + j ==> self.pixel(a, b) == ({
                            let v = luma(old(self).pixel(a, b));
                            (v, v, v)
                        }),
                    forall|a: int| x <= a < x + i ==> #[trigger] self.pixel(a, y + j) == ({
                        let v = luma(old(self).pixel(a, y + j));
                        (v, v, v)
                    }),
                    forall|a: int, b: int|
                        x + i <= a < x + w && b == y + j ==> self.pixel(a, b) == old(
                            self,
                        ).pixel(a, b),
                    forall|a: int, b: int|
                        x <= a < x + w && y + j < b < y + h ==> self.pixel(a, b) == old(
                            self,
                        ).pixel(a, b),
                    self.same_outside(*old(self), x as int, y as int, w as int, h as int),
                decreases w - i,
            {
                let c = self.get_px(x + i, y + j);
                let v = ((2989 * (c.0 as u32) + 5870 * (c.1 as u32) + 1140 * (c.2 as u32))
                    / 10000) as u8;
                proof {
                    assert(2989 * (c.0 as int) + 5870 * (c.1 as int) + 1140 * (c.2 as int)
                        <= 9999 * 255);
                    assert(v == luma(self.pixel(x + i, y + j)));
                }
                self.set_px(x + i, y + j, (v, v, v));
                i += 1;
            }
            j += 1;
        }
    }
}

} // verus!
