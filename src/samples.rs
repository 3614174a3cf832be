use vstd::prelude::*;

use crate::kernel::grid;

verus! {

/// Every sample taken so far of each pixel of a `width` by `height` image,
/// oldest first. Each completed pass adds exactly one sample to every pixel.
pub struct SampleBuffer<T> {
    width: usize,
    height: usize,
    passes: usize,
    cells: Vec<Vec<Vec<T>>>,
}

impl<T: Copy> SampleBuffer<T> {
    /// Columns of the image.
    pub closed spec fn cols(&self) -> nat {
        self.width as nat
    }

    /// Rows of the image.
    pub closed spec fn rows(&self) -> nat {
        self.height as nat
    }

    /// Passes recorded so far.
    pub closed spec fn pass_count(&self) -> nat {
        self.passes as nat
    }

    /// The samples of the pixel in row `y`, column `x`, oldest first.
    pub closed spec fn samples_at(&self, y: int, x: int) -> Seq<T> {
        self.cells@[y]@[x]@
    }

    /// One list of samples per pixel, each as long as the number of passes.
    pub closed spec fn wf(&self) -> bool {
        &&& self.cells@.len() == self.height
        &&& forall|y: int|
            0 <= y < self.height ==> #[trigger] self.cells@[y]@.len() == self.width
        &&& forall|y: int, x: int|
            0 <= y < self.height && 0 <= x < self.width ==> #[trigger] self.cells@[y]@[x]@.len()
                == self.passes
    }

    /// An image of `width` by `height` pixels with no sample yet.
    pub fn new(width: usize, height: usize) -> (r: Self)
        ensures
            r.wf(),
            r.cols() == width,
            r.rows() == height,
            r.pass_count() == 0,
            forall|y: int, x: int|
                0 <= y < height && 0 <= x < width ==> #[trigger] r.samples_at(y, x).len() == 0,
    {
        let mut cells: Vec<Vec<Vec<T>>> = Vec::new();
        let mut y: usize = 0;
        while y < height
            invariant
                y <= height,
                cells@.len() == y,
                forall|yy: int| 0 <= yy < y ==> #[trigger] cells@[yy]@.len() == width,
                forall|yy: int, x: int|
                    0 <= yy < y && 0 <= x < width ==> #[trigger] cells@[yy]@[x]@.len() == 0,
            decreases height - y,
        {
            let mut row: Vec<Vec<T>> = Vec::new();
            let mut x: usize = 0;
            while x < width
                invariant
                    x <= width,
                    row@.len() == x,
                    forall|xx: int| 0 <= xx < x ==> #[trigger] row@[xx]@.len() == 0,
                decreases width - x,
            {
                row.push(Vec::new());
                x = x + 1;
            }
            cells.push(row);
            y = y + 1;
        }
        SampleBuffer { width, height, passes: 0, cells }
    }

    /// Columns of the image.
    pub fn width(&self) -> (r: usize)
        ensures
            r == self.cols(),
    {
        self.width
    }

    /// Rows of the image.
    pub fn height(&self) -> (r: usize)
        ensures
            r == self.rows(),
    {
        self.height
    }

    /// Passes recorded so far.
    pub fn passes(&self) -> (r: usize)
        ensures
            r == self.pass_count(),
    {
        self.passes
    }

    /// The samples of the pixel in row `y`, column `x`, oldest first.
    pub fn samples(&self, y: usize, x: usize) -> (r: &Vec<T>)
        requires
            self.wf(),
            y < self.rows(),
            x < self.cols(),
        ensures
            r@ == self.samples_at(y as int, x as int),
            r@.len() == self.pass_count(),
    {
        &self.cells[y][x]
    }

    /// Records one completed pass: `pass[y][x]` is appended to the samples of
    /// the pixel in row `y`, column `x`.
    pub fn push_pass(&mut self, pass: &Vec<Vec<T>>)
        requires
            old(self).wf(),
            grid(pass).len() == old(self).rows(),
            forall|y: int| 0 <= y < old(self).rows() ==> #[trigger] grid(pass)[y].len() == old(self).cols(),
            old(self).pass_count() < usize::MAX,
        ensures
            final(self).wf(),
            final(self).cols() == old(self).cols(),
            final(self).rows() == old(self).rows(),
            final(self).pass_count() == old(self).pass_count() + 1,
            forall|y: int, x: int|
                0 <= y < old(self).rows() && 0 <= x < old(self).cols() ==> #[trigger] final(self).samples_at(y, x)
                    == old(self).samples_at(y, x).push(grid(pass)[y][x]),
    {
        let ghost before = self.cells@;
        let mut y: usize = 0;
        while y < self.height
            invariant
                y <= self.height,
                self.height == old(self).height,
                self.width == old(self).width,
                self.passes == old(self).passes,
                self.passes < usize::MAX,
                before == old(self).cells@,
                self.cells@.len() == self.height,
                before.len() == self.height,
                grid(pass).len() == self.height,
                forall|yy: int| 0 <= yy < self.height ==> #[trigger] grid(pass)[yy].len() == self.width,
                forall|yy: int| 0 <= yy < self.height ==> #[trigger] self.cells@[yy]@.len() == self.width,
                forall|yy: int| 0 <= yy < self.height ==> #[trigger] before[yy]@.len() == self.width,
                forall|yy: int, x: int|
                    0 <= yy < self.height && 0 <= x < self.width ==> #[trigger] before[yy]@[x]@.len()
                        == self.passes,
                forall|yy: int, x: int|
                    0 <= yy < y && 0 <= x < self.width ==> #[trigger] self.cells@[yy]@[x]@
                        == before[yy]@[x]@.push(grid(pass)[yy][x]),
                forall|yy: int| y <= yy < self.height ==> #[trigger] self.cells@[yy] == before[yy],
            decreases self.height - y,
        {
            let mut x: usize = 0;
            while x < self.width
                invariant
                    y < self.height,
                    x <= self.width,
                    self.height == old(self).height,
                    self.width == old(self).width,
                    self.passes == old(self).passes,
                    self.passes < usize::MAX,
                    before == old(self).cells@,
                    self.cells@.len() == self.height,
                    before.len() == self.height,
                    grid(pass).len() == self.height,
                    forall|yy: int| 0 <= yy < self.height ==> #[trigger] grid(pass)[yy].len() == self.width,
                    forall|yy: int| 0 <= yy < self.height ==> #[trigger] self.cells@[yy]@.len() == self.width,
                    forall|yy: int| 0 <= yy < self.height ==> #[trigger] before[yy]@.len() == self.width,
                    forall|yy: int, xx: int|
                        0 <= yy < self.height && 0 <= xx < self.width ==> #[trigger] before[yy]@[xx]@.len()
                            == self.passes,
                    forall|yy: int, xx: int|
                        0 <= yy < y && 0 <= xx < self.width ==> #[trigger] self.cells@[yy]@[xx]@
                            == before[yy]@[xx]@.push(grid(pass)[yy][xx]),
                    forall|xx: int|
                        0 <= xx < x ==> #[trigger] self.cells@[y as int]@[xx]@ == before[y as int]@[xx]@.push(
                            grid(pass)[y as int][xx],
                        ),
                    forall|xx: int|
                        x <= xx < self.width ==> #[trigger] self.cells@[y as int]@[xx] == before[y as int]@[xx],
                    forall|yy: int| y < yy < self.height ==> #[trigger] self.cells@[yy] == before[yy],
                decreases self.width - x,
            {
                assert(grid(pass)[y as int] == pass@[y as int]@);
                let v = pass[y][x];
                self.cells[y][x].push(v);
                x = x + 1;
            }
            y = y + 1;
        }
        self.passes = self.passes + 1;
    }
}

} // verus!
