use vstd::prelude::*;

use crate::arith::{lemma_cell_in_grid, lemma_next_row};
use crate::raster::{channel_gap, lemma_total_gap_bound, total_gap, Raster, Rgba};
use crate::trim::{
    can_trim, clear_bottom, clear_left, clear_right, clear_top, col_clear, col_clear_from_right,
    cols_from_left, cols_from_right, lemma_clear_run_is, lemma_runs, lemma_trim_at, row_clear,
    row_clear_from_bottom, rows_from_bottom, rows_from_top, trim_margin, trim_raster,
};

verus! {

/// An RGBA8 image stored row by row.
#[derive(Clone, Debug, PartialEq, Eq)]
pub struct MyImage {
    pub pixels: Vec<Rgba>,
    pub width: usize,
    pub height: usize,
}

impl View for MyImage {
    type V = Raster;

    open spec fn view(&self) -> Raster {
        Raster { width: self.width as nat, height: self.height as nat, pixels: self.pixels@ }
    }
}

/// The bytes of a pixel sequence, four per pixel in the order red, green, blue, alpha.
pub open spec fn rgba_bytes(pixels: Seq<Rgba>) -> Seq<u8>
    decreases pixels.len(),
{
    if pixels.len() == 0 {
        Seq::empty()
    } else {
        let p = pixels.last();
        rgba_bytes(pixels.drop_last()) + seq![p.0, p.1, p.2, p.3]
    }
}

/// Byte `4 * i + c` of the byte form is channel `c` of pixel `i`.
pub proof fn lemma_rgba_bytes_index(pixels: Seq<Rgba>, i: int)
    requires
        0 <= i < pixels.len(),
    ensures
        rgba_bytes(pixels).len() == 4 * pixels.len(),
        rgba_bytes(pixels)[4 * i] == pixels[i].0,
        rgba_bytes(pixels)[4 * i + 1] == pixels[i].1,
        rgba_bytes(pixels)[4 * i + 2] == pixels[i].2,
        rgba_bytes(pixels)[4 * i + 3] == pixels[i].3,
    decreases pixels.len(),
{
    lemma_rgba_bytes_len(pixels);
    if i < pixels.len() - 1 {
        lemma_rgba_bytes_index(pixels.drop_last(), i);
        lemma_rgba_bytes_len(pixels.drop_last());
    } else {
        lemma_rgba_bytes_len(pixels.drop_last());
    }
}

/// The byte form holds four bytes per pixel.
pub proof fn lemma_rgba_bytes_len(pixels: Seq<Rgba>)
    ensures
        rgba_bytes(pixels).len() == 4 * pixels.len(),
    decreases pixels.len(),
{
    if pixels.len() > 0 {
        lemma_rgba_bytes_len(pixels.drop_last());
    }
}

/// Absolute difference of two channel values.
fn gap_u8(a: u8, b: u8) -> (g: u64)
    ensures
        g == channel_gap(a, b),
{
    if a >= b {
        (a - b) as u64
    } else {
        (b - a) as u64
    }
}

impl MyImage {
    /// The buffer holds one pixel per cell.
    pub open spec fn wf(&self) -> bool {
        self@.wf()
    }

    /// A `width` x `height` image of transparent black pixels.
    pub fn empty(width: usize, height: usize) -> (img: MyImage)
        requires
            width * height <= usize::MAX,
        ensures
            img.wf(),
            img.width == width,
            img.height == height,
            forall|i: int| 0 <= i < width * height ==> #[trigger] img.pixels@[i] == (0u8, 0u8, 0u8, 0u8),
    {
        MyImage::coloured(width, height, (0, 0, 0, 0))
    }

    /// A `width` x `height` image filled with `color`.
    pub fn coloured(width: usize, height: usize, color: Rgba) -> (img: MyImage)
        requires
            width * height <= usize::MAX,
        ensures
            img.wf(),
            img.width == width,
            img.height == height,
            forall|i: int| 0 <= i < width * height ==> #[trigger] img.pixels@[i] == color,
    {
        let n = width * height;
        let mut pixels: Vec<Rgba> = Vec::new();
        let mut i: usize = 0;
        while i < n
            invariant
                i <= n,
                pixels@.len() == i,
                forall|j: int| 0 <= j < i ==> #[trigger] pixels@[j] == color,
            decreases n - i,
        {
            pixels.push(color);
            i = i + 1;
        }
        MyImage { pixels, width, height }
    }

    /// The pixels as a flat RGBA8 byte buffer, row after row.
    pub fn pix_buf(&self) -> (buf: Vec<u8>)
        requires
            self.wf(),
        ensures
            buf@ == rgba_bytes(self.pixels@),
    {
        let mut buf: Vec<u8> = Vec::new();
        let ghost all = self.pixels@;
        let total = self.pixels.len();
        let mut y: usize = 0;
        while y < self.height
            invariant
                self.wf(),
                all == self.pixels@,
                total == all.len(),
                y <= self.height,
                buf@ == rgba_bytes(all.take(y * self.width)),
            decreases self.height - y,
        {
            let mut x: usize = 0;
            while x < self.width
                invariant
                    self.wf(),
                    all == self.pixels@,
                    total == all.len(),
                    y < self.height,
                    x <= self.width,
                    buf@ == rgba_bytes(all.take(y * self.width + x)),
                decreases self.width - x,
            {
                proof {
                    lemma_cell_in_grid(x as int, y as int, self.width as int, self.height as int);
                }
                let k = y * self.width + x;
                let p = self.pixels[k];
                buf.push(p.0);
                buf.push(p.1);
                buf.push(p.2);
                buf.push(p.3);
                proof {
                    assert(all.take(k + 1).drop_last() =~= all.take(k as int));
                }
                x = x + 1;
            }
            proof {
                lemma_next_row(y as int, self.width as int);
            }
            y = y + 1;
        }
        proof {
            assert(all.take(self.height * self.width) =~= all) by {
                assert(self.height * self.width == self.width * self.height) by (nonlinear_arith);
            }
        }
        buf
    }

    /// Whether every pixel of row `y` is fully transparent.
    fn row_is_clear(&self, y: usize) -> (b: bool)
        requires
            self.wf(),
            y < self.height,
        ensures
            b == row_clear(self@, y as int),
    {
        let total = self.pixels.len();
        let mut x: usize = 0;
        while x < self.width
            invariant
                self.wf(),
                total == self.pixels@.len(),
                y < self.height,
                x <= self.width,
                forall|j: int| 0 <= j < x ==> (#[trigger] self@.at(j, y as int)).3 == 0,
            decreases self.width - x,
        {
            proof {
                lemma_cell_in_grid(x as int, y as int, self.width as int, self.height as int);
            }
            if self.pixels[y * self.width + x].3 != 0 {
                assert(self@.at(x as int, y as int).3 != 0);
                return false;
            }
            x = x + 1;
        }
        true
    }

    /// Whether every pixel of column `x` is fully transparent.
    fn col_is_clear(&self, x: usize) -> (b: bool)
        requires
            self.wf(),
            x < self.width,
        ensures
            b == col_clear(self@, x as int),
    {
        let total = self.pixels.len();
        let mut y: usize = 0;
        while y < self.height
            invariant
                self.wf(),
                total == self.pixels@.len(),
                x < self.width,
                y <= self.height,
                forall|j: int| 0 <= j < y ==> (#[trigger] self@.at(x as int, j)).3 == 0,
            decreases self.height - y,
        {
            proof {
                lemma_cell_in_grid(x as int, y as int, self.width as int, self.height as int);
            }
            if self.pixels[y * self.width + x].3 != 0 {
                assert(self@.at(x as int, y as int).3 != 0);
                return false;
            }
            y = y + 1;
        }
        true
    }

    /// Number of fully transparent rows at the top.
    fn count_clear_top(&self) -> (n: usize)
        requires
            self.wf(),
        ensures
            n == clear_top(self@),
    {
        let mut n: usize = 0;
        while n < self.height
            invariant
                self.wf(),
                n <= self.height,
                forall|j: int| 0 <= j < n ==> #[trigger] row_clear(self@, j),
            ensures
                n <= self.height,
                forall|j: int| 0 <= j < n ==> #[trigger] row_clear(self@, j),
                n == self.height || !row_clear(self@, n as int),
            decreases self.height - n,
        {
            if !self.row_is_clear(n) {
                break;
            }
            n = n + 1;
        }
        proof {
            let f = rows_from_top(self@);
            assert forall|j: int| 0 <= j < n implies #[trigger] f(j) by {
                assert(row_clear(self@, j));
            }
            lemma_clear_run_is(f, 0, self.height as int, n as int);
        }
        n
    }

    /// Number of fully transparent rows at the bottom.
    fn count_clear_bottom(&self) -> (n: usize)
        requires
            self.wf(),
        ensures
            n == clear_bottom(self@),
    {
        let mut n: usize = 0;
        while n < self.height
            invariant
                self.wf(),
                n <= self.height,
                forall|j: int| 0 <= j < n ==> #[trigger] row_clear_from_bottom(self@, j),
            ensures
                n <= self.height,
                forall|j: int| 0 <= j < n ==> #[trigger] row_clear_from_bottom(self@, j),
                n == self.height || !row_clear_from_bottom(self@, n as int),
            decreases self.height - n,
        {
            if !self.row_is_clear(self.height - 1 - n) {
                break;
            }
            n = n + 1;
        }
        proof {
            let f = rows_from_bottom(self@);
            assert forall|j: int| 0 <= j < n implies #[trigger] f(j) by {
                assert(row_clear_from_bottom(self@, j));
            }
            lemma_clear_run_is(f, 0, self.height as int, n as int);
        }
        n
    }

    /// Number of fully transparent columns on the left.
    fn count_clear_left(&self) -> (n: usize)
        requires
            self.wf(),
        ensures
            n == clear_left(self@),
    {
        let mut n: usize = 0;
        while n < self.width
            invariant
                self.wf(),
                n <= self.width,
                forall|j: int| 0 <= j < n ==> #[trigger] col_clear(self@, j),
            ensures
                n <= self.width,
                forall|j: int| 0 <= j < n ==> #[trigger] col_clear(self@, j),
                n == self.width || !col_clear(self@, n as int),
            decreases self.width - n,
        {
            if !self.col_is_clear(n) {
                break;
            }
            n = n + 1;
        }
        proof {
            let f = cols_from_left(self@);
            assert forall|j: int| 0 <= j < n implies #[trigger] f(j) by {
                assert(col_clear(self@, j));
            }
            lemma_clear_run_is(f, 0, self.width as int, n as int);
        }
        n
    }

    /// Number of fully transparent columns on the right.
    fn count_clear_right(&self) -> (n: usize)
        requires
            self.wf(),
        ensures
            n == clear_right(self@),
    {
        let mut n: usize = 0;
        while n < self.width
            invariant
                self.wf(),
                n <= self.width,
                forall|j: int| 0 <= j < n ==> #[trigger] col_clear_from_right(self@, j),
            ensures
                n <= self.width,
                forall|j: int| 0 <= j < n ==> #[trigger] col_clear_from_right(self@, j),
                n == self.width || !col_clear_from_right(self@, n as int),
            decreases self.width - n,
        {
            if !self.col_is_clear(self.width - 1 - n) {
                break;
            }
            n = n + 1;
        }
        proof {
            let f = cols_from_right(self@);
            assert forall|j: int| 0 <= j < n implies #[trigger] f(j) by {
                assert(col_clear_from_right(self@, j));
            }
            lemma_clear_run_is(f, 0, self.width as int, n as int);
        }
        n
    }

    /// How many rows and columns `trim` removes on each side: the smallest of
    /// the numbers of fully transparent rows at the top and at the bottom and of
    /// fully transparent columns on the left and on the right.
    pub fn trim_margin(&self) -> (m: usize)
        requires
            self.wf(),
        ensures
            m == trim_margin(self@),
    {
        let top = self.count_clear_top();
        let bottom = self.count_clear_bottom();
        let left = self.count_clear_left();
        let right = self.count_clear_right();
        let mut m = top;
        if bottom < m {
            m = bottom;
        }
        if left < m {
            m = left;
        }
        if right < m {
            m = right;
        }
        m
    }

    /// Removes the same number of fully transparent rows and columns from every
    /// side: as many as the smallest transparent border among the four sides.
    pub fn trim(&self) -> (out: MyImage)
        requires
            self.wf(),
            can_trim(self@),
        ensures
            out.wf(),
            out@ == trim_raster(self@),
    {
        let m = self.trim_margin();
        proof {
            lemma_runs(self@);
        }
        let new_width = self.width - 2 * m;
        let new_height = self.height - 2 * m;
        let ghost t = trim_raster(self@);
        let total = self.pixels.len();
        let mut pixels: Vec<Rgba> = Vec::new();
        let mut y: usize = 0;
        while y < new_height
            invariant
                self.wf(),
                can_trim(self@),
                total == self.pixels@.len(),
                m == trim_margin(self@),
                new_width == self.width - 2 * m,
                new_height == self.height - 2 * m,
                t == trim_raster(self@),
                y <= new_height,
                pixels@ == t.pixels.take(y * new_width),
            decreases new_height - y,
        {
            let mut x: usize = 0;
            while x < new_width
                invariant
                    self.wf(),
                    can_trim(self@),
                    total == self.pixels@.len(),
                    m == trim_margin(self@),
                    new_width == self.width - 2 * m,
                    new_height == self.height - 2 * m,
                    t == trim_raster(self@),
                    y < new_height,
                    x <= new_width,
                    pixels@ == t.pixels.take(y * new_width + x),
                decreases new_width - x,
            {
                proof {
                    lemma_cell_in_grid(
                        (x + m) as int,
                        (y + m) as int,
                        self.width as int,
                        self.height as int,
                    );
                    lemma_cell_in_grid(x as int, y as int, new_width as int, new_height as int);
                    lemma_trim_at(self@, x as int, y as int);
                }
                let p = self.pixels[(y + m) * self.width + (x + m)];
                pixels.push(p);
                proof {
                    assert(pixels@ =~= t.pixels.take(y * new_width + x + 1));
                }
                x = x + 1;
            }
            proof {
                lemma_next_row(y as int, new_width as int);
            }
            y = y + 1;
        }
        proof {
            assert(new_height * new_width == new_width * new_height) by (nonlinear_arith);
            assert(pixels@ =~= t.pixels);
        }
        MyImage { pixels, width: new_width, height: new_height }
    }

    /// Sum over the first `width * height` pixels of the absolute red, green and
    /// blue differences between this image and `other` (alpha is not compared);
    /// `other` is read with this image's layout.
    pub fn difference(&self, other: &MyImage) -> (d: u64)
        requires
            self.pixels@.len() >= self.width * self.height,
            other.pixels@.len() >= self.width * self.height,
            765 * (self.width * self.height) <= u64::MAX,
        ensures
            d == total_gap(self.pixels@, other.pixels@, self.width * self.height),
    {
        let total = self.pixels.len();
        let mut d: u64 = 0;
        let mut y: usize = 0;
        while y < self.height
            invariant
                self.pixels@.len() >= self.width * self.height,
                total == self.pixels@.len(),
                other.pixels@.len() >= self.width * self.height,
                765 * (self.width * self.height) <= u64::MAX,
                y <= self.height,
                d == total_gap(self.pixels@, other.pixels@, y * self.width),
            decreases self.height - y,
        {
            let mut x: usize = 0;
            while x < self.width
                invariant
                    self.pixels@.len() >= self.width * self.height,
                    total == self.pixels@.len(),
                    other.pixels@.len() >= self.width * self.height,
                    765 * (self.width * self.height) <= u64::MAX,
                    y < self.height,
                    x <= self.width,
                    d == total_gap(self.pixels@, other.pixels@, y * self.width + x),
                decreases self.width - x,
            {
                proof {
                    lemma_cell_in_grid(x as int, y as int, self.width as int, self.height as int);
                    lemma_total_gap_bound(
                        self.pixels@,
                        other.pixels@,
                        y * self.width + x + 1,
                    );
                    assert(765 * (y * self.width + x + 1) <= 765 * (self.width * self.height));
                }
                let index = y * self.width + x;
                let p = self.pixels[index];
                let q = other.pixels[index];
                d = d + gap_u8(p.0, q.0) + gap_u8(p.1, q.1) + gap_u8(p.2, q.2);
                x = x + 1;
            }
            proof {
                lemma_next_row(y as int, self.width as int);
            }
            y = y + 1;
        }
        proof {
            assert(self.height * self.width == self.width * self.height) by (nonlinear_arith);
        }
        d
    }

    /// The pixel at column `x` of row `y`.
    pub fn get_pixel(&self, x: usize, y: usize) -> (p: Rgba)
        requires
            y * self.width + x < self.pixels@.len(),
        ensures
            p == self.pixels@[y * self.width + x],
    {
        let len = self.pixels.len();
        assert(y * self.width + x < len);
        self.pixels[y * self.width + x]
    }
}

} // verus!
