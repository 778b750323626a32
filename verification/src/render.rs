//! A rectangular buffer of pixels.

use vstd::prelude::*;

verus! {

/// `width` by `height` pixels, row by row from the top.
#[derive(Debug)]
pub struct Canvas<Pixel> {
    pub width: usize,
    pub height: usize,
    pub pixels: Vec<Pixel>,
}

/// `x` if it lies between `min` and `max`, else the bound it is beyond.
pub fn clamp(x: isize, min: isize, max: isize) -> (r: isize)
    ensures
        r == clamped(x as int, min as int, max as int),
{
    if x < min {
        return min;
    }
    if x > max {
        return max;
    }
    x
}

/// `x` if it lies between `min` and `max`, else the bound it is beyond; `min` has
/// precedence.
pub open spec fn clamped(x: int, min: int, max: int) -> int {
    if x < min {
        min
    } else if x > max {
        max
    } else {
        x
    }
}

/// Row `y` of a canvas `width` wide starts at `y * width` and ends within the buffer.
pub proof fn lemma_row(x: int, y: int, width: int, height: int)
    requires
        0 <= x < width,
        0 <= y < height,
    ensures
        0 <= y * width,
        0 <= y * width + x < width * height,
        (y * width + x) / width == y,
        (y * width + x) % width == x,
{
    assert(0 <= y * width && y * width + width <= width * height) by (nonlinear_arith)
        requires
            0 <= y < height,
            0 < width,
    ;
    vstd::arithmetic::div_mod::lemma_fundamental_div_mod_converse(y * width + x, width, y, x);
}

impl<Pixel: Copy> Canvas<Pixel> {
    /// The buffer holds one pixel for each position.
    pub open spec fn wf(&self) -> bool {
        &&& self.pixels@.len() == self.width * self.height
        &&& self.width <= isize::MAX
        &&& self.height <= isize::MAX
    }

    /// The pixel in column `x` of row `y`.
    pub open spec fn at(&self, x: int, y: int) -> Pixel {
        self.pixels@[y * self.width + x]
    }

    /// A canvas filled with `background`.
    pub fn new(width: usize, height: usize, background: Pixel) -> (r: Self)
        requires
            width * height <= usize::MAX,
        ensures
            r.width == width,
            r.height == height,
            r.pixels@ == Seq::new((width * height) as nat, |i: int| background),
    {
        assert(0 <= width * height) by (nonlinear_arith);
        let n = width * height;
        let mut pixels: Vec<Pixel> = Vec::new();
        let mut k: usize = 0;
        while k < n
            invariant
                k <= n,
                pixels@ == Seq::new(k as nat, |i: int| background),
            decreases n - k,
        {
            pixels.push(background);
            assert(pixels@ =~= Seq::new((k + 1) as nat, |i: int| background));
            k += 1;
        }
        Canvas { width, height, pixels }
    }

    /// Makes every pixel `background`.
    pub fn fill(&mut self, background: Pixel)
        ensures
            final(self).width == old(self).width,
            final(self).height == old(self).height,
            final(self).pixels@ == Seq::new(old(self).pixels@.len(), |i: int| background),
    {
        let n = self.pixels.len();
        let mut k: usize = 0;
        while k < n
            invariant
                k <= n,
                n == self.pixels@.len(),
                n == old(self).pixels@.len(),
                self.width == old(self).width,
                self.height == old(self).height,
                forall|i: int| 0 <= i < k ==> self.pixels@[i] == background,
            decreases n - k,
        {
            self.pixels.set(k, background);
            k += 1;
        }
        assert(self.pixels@ =~= Seq::new(old(self).pixels@.len(), |i: int| background));
    }

    /// Makes the pixel in column `x` of row `y` be `pixel`.
    pub fn set_pixel(&mut self, x: usize, y: usize, pixel: Pixel)
        requires
            old(self).wf(),
            x < old(self).width,
            y < old(self).height,
        ensures
            final(self).width == old(self).width,
            final(self).height == old(self).height,
            final(self).pixels@ == old(self).pixels@.update(y * old(self).width + x, pixel),
    {
        let total = self.pixels.len();
        proof {
            lemma_row(x as int, y as int, self.width as int, self.height as int);
        }
        self.pixels.set(y * self.width + x, pixel);
    }

    /// Whether column `px` of row `py` lies between the edges `left` and `right`, `top` and
    /// `bottom`, cut to the canvas. The right and the bottom edge are not part of it.
    pub open spec fn within(&self, left: int, top: int, right: int, bottom: int, px: int, py: int) -> bool {
        &&& clamped(left, 0, self.width as int) <= px < clamped(right, 0, self.width as int)
        &&& clamped(top, 0, self.height as int) <= py < clamped(bottom, 0, self.height as int)
    }

    /// Whether column `px` of row `py` lies in the rectangle at `(x, y)` of size `w` by
    /// `h`, cut to the canvas.
    pub open spec fn covered(&self, x: int, y: int, w: int, h: int, px: int, py: int) -> bool {
        self.within(x, y, x + w, y + h, px, py)
    }

    /// Paints what lies between the edges `left` and `right`, `top` and `bottom`, as far
    /// as it lies on the canvas.
    pub fn fill_span(&mut self, left: isize, top: isize, right: isize, bottom: isize, pixel: Pixel)
        requires
            old(self).wf(),
        ensures
            final(self).wf(),
            final(self).width == old(self).width,
            final(self).height == old(self).height,
            forall|px: int, py: int|
                0 <= px < old(self).width && 0 <= py < old(self).height ==> #[trigger] final(self).at(
                    px,
                    py,
                ) == if old(self).within(left as int, top as int, right as int, bottom as int, px, py) {
                    pixel
                } else {
                    old(self).at(px, py)
                },
    {
        let width = self.width;
        let height = self.height;
        let x1 = clamp(left, 0, width as isize) as usize;
        let y1 = clamp(top, 0, height as isize) as usize;
        let x2 = clamp(right, 0, width as isize) as usize;
        let y2 = clamp(bottom, 0, height as isize) as usize;
        let total = self.pixels.len();
        let mut row: usize = y1;
        while row < y2
            invariant
                y1 <= row,
                row <= y2 || row == y1,
                row <= height,
                y2 <= height,
                x1 <= width,
                x2 <= width,
                width == old(self).width,
                height == old(self).height,
                self.width == width,
                self.height == height,
                width * height == total,
                old(self).wf(),
                self.wf(),
                forall|px: int, py: int|
                    0 <= px < width && 0 <= py < height ==> #[trigger] self.at(px, py) == if x1 <= px
                        < x2 && y1 <= py < row {
                        pixel
                    } else {
                        old(self).at(px, py)
                    },
            decreases y2 - row,
        {
            let mut col: usize = x1;
            proof {
                if x1 < x2 {
                    lemma_row(x1 as int, row as int, width as int, height as int);
                } else if width > 0 {
                    lemma_row(0, row as int, width as int, height as int);
                } else {
                    assert(row * width == 0) by (nonlinear_arith)
                        requires
                            width == 0,
                    ;
                }
            }
            let line = row * width;
            while col < x2
                invariant
                    x1 <= col,
                    col <= x2 || col == x1,
                    col <= width,
                    x2 <= width,
                    y1 <= row < y2,
                    y2 <= height,
                    line == row * width,
                    width == old(self).width,
                    height == old(self).height,
                    self.width == width,
                    self.height == height,
                    width * height == total,
                    old(self).wf(),
                    self.wf(),
                    forall|px: int, py: int|
                        0 <= px < width && 0 <= py < height ==> #[trigger] self.at(px, py) == if x1
                            <= px < x2 && (y1 <= py < row || (py == row && px < col)) {
                            pixel
                        } else {
                            old(self).at(px, py)
                        },
                decreases x2 - col,
            {
                let ghost before = *self;
                proof {
                    lemma_row(col as int, row as int, width as int, height as int);
                }
                self.pixels.set(line + col, pixel);
                proof {
                    assert forall|px: int, py: int| 0 <= px < width && 0 <= py < height implies (
                    #[trigger] self.at(px, py)) == if x1 <= px < x2 && (y1 <= py < row || (py == row
                        && px < col + 1)) {
                        pixel
                    } else {
                        old(self).at(px, py)
                    } by {
                        lemma_row(px, py, width as int, height as int);
                        if py * width + px == row * width + col {
                            assert(py == row && px == col);
                        }
                        assert(before.at(px, py) == if x1 <= px < x2 && (y1 <= py < row || (py
                            == row && px < col)) {
                            pixel
                        } else {
                            old(self).at(px, py)
                        });
                    }
                }
                col += 1;
            }
            row += 1;
        }
    }

    /// Paints the rectangle at `(x, y)` of size `w` by `h`, as far as it lies on the
    /// canvas.
    pub fn fill_rect(&mut self, x: isize, y: isize, w: isize, h: isize, pixel: Pixel)
        requires
            old(self).wf(),
            isize::MIN <= x + w <= isize::MAX,
            isize::MIN <= y + h <= isize::MAX,
        ensures
            final(self).wf(),
            final(self).width == old(self).width,
            final(self).height == old(self).height,
            forall|px: int, py: int|
                0 <= px < old(self).width && 0 <= py < old(self).height ==> #[trigger] final(self).at(
                    px,
                    py,
                ) == if old(self).covered(x as int, y as int, w as int, h as int, px, py) {
                    pixel
                } else {
                    old(self).at(px, py)
                },
    {
        self.fill_span(x, y, x + w, y + h, pixel);
    }
}

} // verus!
