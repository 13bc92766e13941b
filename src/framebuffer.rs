//! A frame buffer: a row-major grid of pixels of any kind.
use vstd::prelude::*;

verus! {

/// A `width` by `height` grid of pixels, stored row by row.
pub struct FrameBuffer<T> {
    buf: Vec<T>,
    width: usize,
    height: usize,
}

/// The place of pixel `(x, y)` in a row-major buffer of rows `width` long.
pub open spec fn pixel_index(width: int, x: int, y: int) -> int {
    y * width + x
}

impl<T> View for FrameBuffer<T> {
    type V = Seq<T>;

    closed spec fn view(&self) -> Seq<T> {
        self.buf@
    }
}

impl<T: Copy> FrameBuffer<T> {
    /// The width in pixels.
    pub closed spec fn spec_width(&self) -> int {
        self.width as int
    }

    /// The height in pixels.
    pub closed spec fn spec_height(&self) -> int {
        self.height as int
    }

    /// The buffer holds one pixel per place of the grid.
    pub open spec fn wf(&self) -> bool {
        self@.len() == self.spec_width() * self.spec_height()
    }

    /// The pixel at `(x, y)`.
    pub open spec fn pixel(&self, x: int, y: int) -> T {
        self@[pixel_index(self.spec_width(), x, y)]
    }

    /// A `width` by `height` buffer with every pixel `fill`.
    pub fn new(width: usize, height: usize, fill: T) -> (fb: Self)
        requires
            width * height <= usize::MAX,
        ensures
            fb.wf(),
            fb.spec_width() == width,
            fb.spec_height() == height,
            fb@ == Seq::new((width * height) as nat, |i: int| fill),
    {
        let n: usize = width * height;
        let mut buf: Vec<T> = Vec::new();
        let mut i: usize = 0;
        while i < n
            invariant
                i <= n,
                buf@ == Seq::new(i as nat, |j: int| fill),
            decreases n - i,
        {
            buf.push(fill);
            i = i + 1;
            assert(buf@ =~= Seq::new(i as nat, |j: int| fill));
        }
        FrameBuffer { buf, width, height }
    }

    /// The width in pixels.
    pub fn width(&self) -> (w: usize)
        ensures
            w == self.spec_width(),
    {
        self.width
    }

    /// The height in pixels.
    pub fn height(&self) -> (h: usize)
        ensures
            h == self.spec_height(),
    {
        self.height
    }

    /// Sets the pixel at `(x, y)`.
    pub fn plot_pixel(&mut self, x: usize, y: usize, value: T)
        requires
            old(self).wf(),
            x < old(self).spec_width(),
            y < old(self).spec_height(),
        ensures
            final(self).wf(),
            final(self).spec_width() == old(self).spec_width(),
            final(self).spec_height() == old(self).spec_height(),
            final(self)@ == old(self)@.update(
                pixel_index(old(self).spec_width(), x as int, y as int),
                value,
            ),
    {
        let len = self.buf.len();
        proof {
            lemma_index_in_grid(self.width as int, self.height as int, x as int, y as int);
        }
        let i = y * self.width + x;
        self.buf.set(i, value);
    }

    /// The pixel at `(x, y)`.
    pub fn get_pixel(&self, x: usize, y: usize) -> (v: T)
        requires
            self.wf(),
            x < self.spec_width(),
            y < self.spec_height(),
        ensures
            v == self.pixel(x as int, y as int),
    {
        let len = self.buf.len();
        proof {
            lemma_index_in_grid(self.width as int, self.height as int, x as int, y as int);
        }
        self.buf[y * self.width + x]
    }
}

/// A place inside the grid has an index inside the buffer.
pub proof fn lemma_index_in_grid(width: int, height: int, x: int, y: int)
    requires
        0 <= x < width,
        0 <= y < height,
    ensures
        0 <= y * width <= pixel_index(width, x, y) < width * height,
{
    assert(y * width + x < width * height) by (nonlinear_arith)
        requires
            0 <= x < width,
            0 <= y < height,
    ;
    assert(0 <= y * width) by (nonlinear_arith)
        requires
            0 <= y,
            0 <= width,
    ;
}

} // verus!
