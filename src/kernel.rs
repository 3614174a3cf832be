use vstd::arithmetic::div_mod::lemma_fundamental_div_mod_converse;
use vstd::prelude::*;

use crate::config::ConfigError;

verus! {

/// The sum of a run of weights.
pub open spec fn sum_of(w: Seq<i16>) -> int
    decreases w.len(),
{
    if w.len() == 0 {
        0
    } else {
        sum_of(w.drop_last()) + w.last()
    }
}

/// A pixel grid seen as rows of values.
pub open spec fn grid<T>(pixels: &Vec<Vec<T>>) -> Seq<Seq<T>> {
    pixels@.map_values(|row: Vec<T>| row@)
}

/// Every row of the grid has the width of the first.
pub open spec fn is_rect<T>(g: Seq<Seq<T>>) -> bool {
    forall|y: int| 0 <= y < g.len() ==> #[trigger] g[y].len() == g[0].len()
}

/// `steps` are the running values of folding `term` over `taps`: each step
/// takes the previous value, a pixel, its weight and the divisor `div`.
pub open spec fn is_fold<T, F: Fn(T, T, i16, i128) -> T>(
    term: F,
    taps: Seq<(T, i16)>,
    div: i128,
    steps: Seq<T>,
) -> bool {
    &&& steps.len() == taps.len() + 1
    &&& forall|i: int|
        0 < i <= taps.len() ==> term.ensures(
            (steps[i - 1], taps[i - 1].0, taps[i - 1].1, div),
            #[trigger] steps[i],
        )
}

/// `out` is what folding `term` over `taps` from `zero` yields.
pub open spec fn folds_to<T, F: Fn(T, T, i16, i128) -> T>(
    term: F,
    taps: Seq<(T, i16)>,
    div: i128,
    zero: T,
    out: T,
) -> bool {
    exists|steps: Seq<T>|
        #[trigger] is_fold(term, taps, div, steps) && steps[0] == zero && steps.last() == out
}

/// `s` is a side whose square holds exactly `n` weights.
pub open spec fn is_side_of(n: nat, s: nat) -> bool {
    s * s == n
}

/// `n` weights fill a square window.
pub open spec fn is_square(n: nat) -> bool {
    exists|s: nat| #[trigger] is_side_of(n, s)
}

/// `n` weights fill a square window whose side is odd.
pub open spec fn has_odd_side(n: nat) -> bool {
    exists|s: nat| #[trigger] is_side_of(n, s) && s % 2 == 1
}

/// Why `n` weights cannot make a kernel, if they cannot.
pub open spec fn kernel_error(n: nat) -> Option<ConfigError> {
    if n == 0 {
        Some(ConfigError::EmptyKernel)
    } else if !is_square(n) {
        Some(ConfigError::KernelNotSquare)
    } else if !has_odd_side(n) {
        Some(ConfigError::EvenKernelSide)
    } else {
        None
    }
}

proof fn lemma_square_monotone(a: nat, b: nat)
    requires
        a <= b,
    ensures
        a * a <= b * b,
{
    assert(a * a <= b * b) by (nonlinear_arith)
        requires
            a <= b,
    ;
}

proof fn lemma_side_unique(n: nat, s: nat, t: nat)
    requires
        is_side_of(n, s),
        is_side_of(n, t),
    ensures
        s == t,
{
    if s < t {
        assert(s * s < t * t) by (nonlinear_arith)
            requires
                s < t,
        ;
    } else if t < s {
        assert(t * t < s * s) by (nonlinear_arith)
            requires
                t < s,
        ;
    }
}

fn square(s: usize) -> (r: u128)
    ensures
        r == s * s,
{
    assert(s * s <= u64::MAX * u64::MAX) by (nonlinear_arith)
        requires
            s <= u64::MAX,
    ;
    (s as u128) * (s as u128)
}

/// A square convolution window of integer weights, centred on the pixel it
/// produces. Weights are read row-major with the offsets of [`Kernel::get_data`].
#[derive(Clone)]
pub struct Kernel {
    shape: usize,
    data: Vec<i16>,
    half_range: usize,
    normalize: bool,
}

impl Kernel {
    /// Number of weights along one side of the window.
    pub closed spec fn side(&self) -> nat {
        self.shape as nat
    }

    /// Half the side, rounded down: the largest offset from the centre.
    pub closed spec fn half(&self) -> nat {
        self.half_range as nat
    }

    /// The weights in the order they were given.
    pub closed spec fn weights(&self) -> Seq<i16> {
        self.data@
    }

    /// Whether the filtered value is divided by the sum of the weights.
    pub closed spec fn normalizes(&self) -> bool {
        self.normalize
    }

    /// The window is an odd square holding every weight.
    pub open spec fn wf(&self) -> bool {
        &&& self.side() * self.side() == self.weights().len()
        &&& self.side() % 2 == 1
        &&& self.half() == self.side() / 2
        &&& self.side() <= isize::MAX
    }

    /// The weight at offset `(u, v)` from the centre.
    pub open spec fn weight_at(&self, u: int, v: int) -> i16 {
        self.weights()[(u + self.half()) + (v + self.half()) * self.side()]
    }

    /// What each filtered value is divided by: the sum of the weights when
    /// the kernel normalises, else one.
    pub open spec fn divisor(&self) -> int {
        if self.normalizes() {
            sum_of(self.weights())
        } else {
            1
        }
    }

    /// Whether pixel `(y, x)` of `g` has its whole window inside the grid.
    pub open spec fn is_inner<T>(&self, g: Seq<Seq<T>>, y: int, x: int) -> bool {
        &&& self.half() <= y < g.len() - self.half()
        &&& self.half() <= x < g[y].len() - self.half()
    }

    /// The pixels under the window centred on `(y, x)`, each with its weight,
    /// row offset outermost.
    pub open spec fn window<T>(&self, g: Seq<Seq<T>>, y: int, x: int) -> Seq<(T, i16)> {
        Seq::new(
            self.side() * self.side(),
            |k: int|
                {
                    let u = k / (self.side() as int) - self.half();
                    let v = k % (self.side() as int) - self.half();
                    (g[y + u][x + v], self.weight_at(u, v))
                },
        )
    }

    /// `out` is `g` filtered through this kernel: border pixels are kept and
    /// every inner pixel is `term` folded over its window from `zero`.
    pub open spec fn filtered<T, F: Fn(T, T, i16, i128) -> T>(
        &self,
        g: Seq<Seq<T>>,
        zero: T,
        term: F,
        out: Seq<Seq<T>>,
    ) -> bool {
        &&& out.len() == g.len()
        &&& forall|y: int| 0 <= y < g.len() ==> #[trigger] out[y].len() == g[y].len()
        &&& forall|y: int, x: int|
            0 <= y < g.len() && 0 <= x < g[y].len() && !self.is_inner(g, y, x) ==> #[trigger] out[y][x]
                == g[y][x]
        &&& forall|y: int, x: int|
            0 <= y < g.len() && 0 <= x < g[y].len() && self.is_inner(g, y, x) ==> folds_to(
                term,
                self.window(g, y, x),
                self.divisor() as i128,
                zero,
                #[trigger] out[y][x],
            )
    }

    /// Builds a kernel from its weights. The side is the smallest whole number
    /// whose square is at least the weight count; the weights must fill that
    /// square exactly and the side must be odd.
    pub fn new(data: Vec<i16>, normalize: bool) -> (r: Result<Kernel, ConfigError>)
        ensures
            r is Ok <==> kernel_error(data@.len()) is None,
            r matches Err(e) ==> kernel_error(data@.len()) == Some(e),
            r matches Ok(k) ==> {
                &&& k.wf()
                &&& k.weights() == data@
                &&& k.normalizes() == normalize
            },
    {
        let n: usize = data.len();
        if n == 0 {
            return Err(ConfigError::EmptyKernel);
        }
        let mut s: usize = 0;
        while square(s) < n as u128
            invariant
                s <= n,
                s == 0 || (s - 1) * (s - 1) < n,
            decreases n - s,
        {
            proof {
                if s >= n {
                    lemma_square_monotone(n as nat, s as nat);
                    assert(n <= n * n) by (nonlinear_arith)
                        requires
                            n >= 1,
                    ;
                }
            }
            s = s + 1;
        }
        if square(s) != n as u128 {
            proof {
                assert forall|t: nat| !is_side_of(n as nat, t) by {
                    if t < s {
                        lemma_square_monotone(t, (s - 1) as nat);
                    } else {
                        lemma_square_monotone(s as nat, t);
                    }
                }
            }
            return Err(ConfigError::KernelNotSquare);
        }
        assert(is_side_of(n as nat, s as nat));
        proof {
            if s > isize::MAX {
                assert(s * s >= 2 * s) by (nonlinear_arith)
                    requires
                        s >= 2,
                ;
            }
        }
        if s % 2 == 0 {
            proof {
                assert forall|t: nat| !(#[trigger] is_side_of(n as nat, t) && t % 2 == 1) by {
                    if is_side_of(n as nat, t) {
                        lemma_side_unique(n as nat, s as nat, t);
                    }
                }
            }
            return Err(ConfigError::EvenKernelSide);
        }
        Ok(Kernel { shape: s, data, half_range: s / 2, normalize })
    }

    /// Number of weights along one side of the window.
    pub fn shape(&self) -> (r: usize)
        ensures
            r == self.side(),
    {
        self.shape
    }

    /// Whether the filtered value is divided by the sum of the weights.
    pub fn normalize(&self) -> (r: bool)
        ensures
            r == self.normalizes(),
    {
        self.normalize
    }

    /// The offsets from the centre that the window covers, both ends included.
    pub fn range(&self) -> (r: std::ops::RangeInclusive<isize>)
        requires
            self.wf(),
        ensures
            r@.start == -self.half(),
            r@.end == self.half(),
            !r@.exhausted,
    {
        let h = self.half_range as isize;
        std::ops::RangeInclusive::new(-h, h)
    }

    /// The positions along a line of `len` pixels whose whole window lies on
    /// that line; empty when the line is shorter than the window.
    pub fn vec_range(&self, len: usize) -> (r: std::ops::Range<usize>)
        ensures
            r.start == self.half(),
            r.end == if len >= 2 * self.half() {
                len - self.half()
            } else {
                self.half() as int
            },
    {
        if len >= self.half_range && len - self.half_range >= self.half_range {
            self.half_range..(len - self.half_range)
        } else {
            self.half_range..self.half_range
        }
    }

    /// The weight at offset `(u, v)` from the centre.
    pub fn get_data(&self, u: isize, v: isize) -> (r: i16)
        requires
            self.wf(),
            -self.half() <= u <= self.half(),
            -self.half() <= v <= self.half(),
        ensures
            r == self.weight_at(u as int, v as int),
    {
        let h = self.half_range as isize;
        let i = (u + h) as usize;
        let j = (v + h) as usize;
        let n = self.data.len();
        proof {
            let s = self.side() as int;
            assert(j * s <= (s - 1) * s) by (nonlinear_arith)
                requires
                    j <= s - 1,
                    s >= 1,
            ;
            assert((s - 1) * s + s == s * s) by (nonlinear_arith);
        }
        self.data[i + j * self.shape]
    }

    /// The sum of the weights.
    pub fn sum(&self) -> (r: i128)
        ensures
            r == sum_of(self.weights()),
    {
        let mut total: i128 = 0;
        let mut i: usize = 0;
        while i < self.data.len()
            invariant
                i <= self.data@.len(),
                total == sum_of(self.data@.take(i as int)),
                -0x8000 * i <= total <= 0x7fff * i,
            decreases self.data@.len() - i,
        {
            assert(self.data@.take(i + 1).drop_last() =~= self.data@.take(i as int));
            total = total + self.data[i] as i128;
            i = i + 1;
        }
        assert(self.data@.take(i as int) =~= self.data@);
        total
    }

    /// Filters `pixels`: every pixel whose window lies inside the grid becomes
    /// `term` folded over that window, starting from `zero`, with the divisor
    /// handed to each step; pixels nearer the border than half the side stay.
    pub fn apply<T: Copy, F: Fn(T, T, i16, i128) -> T>(
        &self,
        pixels: &Vec<Vec<T>>,
        zero: T,
        term: &F,
    ) -> (r: Vec<Vec<T>>)
        requires
            self.wf(),
            is_rect(grid(pixels)),
            forall|acc: T, p: T, w: i16, d: i128| term.requires((acc, p, w, d)),
        ensures
            self.filtered(grid(pixels), zero, *term, grid(&r)),
    {
        let g = Ghost(grid(pixels));
        let div: i128 = if self.normalize {
            self.sum()
        } else {
            1
        };
        let height = pixels.len();
        let h = self.half_range;
        let mut out: Vec<Vec<T>> = Vec::new();
        let mut y: usize = 0;
        while y < height
            invariant
                self.wf(),
                g@ == grid(pixels),
                is_rect(g@),
                forall|acc: T, p: T, w: i16, d: i128| term.requires((acc, p, w, d)),
                height == g@.len(),
                h == self.half(),
                div == self.divisor(),
                y <= height,
                out@.len() == y,
                forall|yy: int| 0 <= yy < y ==> #[trigger] out@[yy]@.len() == g@[yy].len(),
                forall|yy: int, x: int|
                    0 <= yy < y && 0 <= x < g@[yy].len() && !self.is_inner(g@, yy, x)
                        ==> #[trigger] out@[yy]@[x] == g@[yy][x],
                forall|yy: int, x: int|
                    0 <= yy < y && 0 <= x < g@[yy].len() && self.is_inner(g@, yy, x) ==> folds_to(
                        *term,
                        self.window(g@, yy, x),
                        div,
                        zero,
                        #[trigger] out@[yy]@[x],
                    ),
            decreases height - y,
        {
            let row = &pixels[y];
            let width = row.len();
            let mut new_row: Vec<T> = Vec::new();
            let mut x: usize = 0;
            while x < width
                invariant
                    self.wf(),
                    g@ == grid(pixels),
                    is_rect(g@),
                    forall|acc: T, p: T, w: i16, d: i128| term.requires((acc, p, w, d)),
                    height == g@.len(),
                    h == self.half(),
                    div == self.divisor(),
                    y < height,
                    row@ == g@[y as int],
                    width == row@.len(),
                    x <= width,
                    new_row@.len() == x,
                    forall|xx: int|
                        0 <= xx < x && !self.is_inner(g@, y as int, xx) ==> #[trigger] new_row@[xx]
                            == g@[y as int][xx],
                    forall|xx: int|
                        0 <= xx < x && self.is_inner(g@, y as int, xx) ==> folds_to(
                            *term,
                            self.window(g@, y as int, xx),
                            div,
                            zero,
                            #[trigger] new_row@[xx],
                        ),
                decreases width - x,
            {
                if y >= h && height - y > h && x >= h && width - x > h {
                    let v = self.window_value(pixels, y, x, zero, term, div);
                    new_row.push(v);
                } else {
                    new_row.push(row[x]);
                }
                x = x + 1;
            }
            out.push(new_row);
            y = y + 1;
        }
        proof {
            assert(grid(&out).len() == g@.len());
        }
        out
    }

    /// `term` folded over the window centred on the inner pixel `(y, x)`.
    fn window_value<T: Copy, F: Fn(T, T, i16, i128) -> T>(
        &self,
        pixels: &Vec<Vec<T>>,
        y: usize,
        x: usize,
        zero: T,
        term: &F,
        div: i128,
    ) -> (r: T)
        requires
            self.wf(),
            is_rect(grid(pixels)),
            0 <= y < pixels@.len(),
            0 <= x < pixels@[y as int]@.len(),
            self.is_inner(grid(pixels), y as int, x as int),
            forall|acc: T, p: T, w: i16, d: i128| term.requires((acc, p, w, d)),
        ensures
            folds_to(*term, self.window(grid(pixels), y as int, x as int), div, zero, r),
    {
        let g = Ghost(grid(pixels));
        let taps = Ghost(self.window(g@, y as int, x as int));
        let s = self.shape;
        let h = self.half_range;
        let height = pixels.len();
        let width = pixels[y].len();
        let top = y - h;
        let left = x - h;
        let mut acc = zero;
        let ghost mut steps: Seq<T> = seq![zero];
        let mut a: usize = 0;
        while a < s
            invariant
                self.wf(),
                g@ == grid(pixels),
                is_rect(g@),
                taps@ == self.window(g@, y as int, x as int),
                forall|acc: T, p: T, w: i16, d: i128| term.requires((acc, p, w, d)),
                s == self.side(),
                h == self.half(),
                top == y - h,
                left == x - h,
                self.is_inner(g@, y as int, x as int),
                0 <= y < g@.len(),
                a <= s,
                height == g@.len(),
                width == g@[y as int].len(),
                steps.len() == a * s + 1,
                steps[0] == zero,
                steps.last() == acc,
                forall|i: int|
                    0 < i <= a * s ==> term.ensures(
                        (steps[i - 1], taps@[i - 1].0, taps@[i - 1].1, div),
                        #[trigger] steps[i],
                    ),
            decreases s - a,
        {
            let mut b: usize = 0;
            while b < s
                invariant
                    self.wf(),
                    g@ == grid(pixels),
                    is_rect(g@),
                    taps@ == self.window(g@, y as int, x as int),
                    forall|acc: T, p: T, w: i16, d: i128| term.requires((acc, p, w, d)),
                    s == self.side(),
                    h == self.half(),
                    top == y - h,
                    left == x - h,
                    self.is_inner(g@, y as int, x as int),
                    0 <= y < g@.len(),
                    a < s,
                    b <= s,
                    height == g@.len(),
                    width == g@[y as int].len(),
                    steps.len() == a * s + b + 1,
                    steps[0] == zero,
                    steps.last() == acc,
                    forall|i: int|
                        0 < i <= a * s + b ==> term.ensures(
                            (steps[i - 1], taps@[i - 1].0, taps@[i - 1].1, div),
                            #[trigger] steps[i],
                        ),
                decreases s - b,
            {
                let k = Ghost(a * s + b);
                proof {
                    lemma_fundamental_div_mod_converse(k@, s as int, a as int, b as int);
                    assert(a * s + b < s * s) by (nonlinear_arith)
                        requires
                            a < s,
                            b < s,
                    ;
                    assert(s == 2 * h + 1);
                    assert(top + a <= y + h);
                    assert(left + b <= x + h);
                    assert(g@[top + a].len() == g@[y as int].len());
                }
                let p = pixels[top + a][left + b];
                let w = self.get_data(a as isize - h as isize, b as isize - h as isize);
                let next = term(acc, p, w, div);
                proof {
                    assert(taps@[k@] == (p, w));
                    steps = steps.push(next);
                }
                acc = next;
                b = b + 1;
            }
            proof {
                assert(a * s + s == (a + 1) * s) by (nonlinear_arith);
            }
            a = a + 1;
        }
        proof {
            assert(is_fold(*term, taps@, div, steps));
        }
        acc
    }
}

/// A kernel as handed over by a scene's user.
pub struct ImageFilter {
    kernel: Kernel,
}

impl ImageFilter {
    /// Builds the filter's kernel from its weights; refused as [`Kernel::new`]
    /// refuses them.
    pub fn new(data: Vec<i16>, normalize: bool) -> (r: Result<ImageFilter, ConfigError>)
        ensures
            r is Ok <==> kernel_error(data@.len()) is None,
            r matches Err(e) ==> kernel_error(data@.len()) == Some(e),
            r matches Ok(f) ==> {
                &&& f.kernel_view().wf()
                &&& f.kernel_view().weights() == data@
                &&& f.kernel_view().normalizes() == normalize
            },
    {
        match Kernel::new(data, normalize) {
            Ok(kernel) => Ok(ImageFilter { kernel }),
            Err(e) => Err(e),
        }
    }

    /// The kernel this filter applies.
    pub closed spec fn kernel_view(&self) -> Kernel {
        self.kernel
    }

    /// Gives up the kernel this filter applies.
    pub fn into_kernel(self) -> (r: Kernel)
        ensures
            r == self.kernel_view(),
    {
        self.kernel
    }

    /// The kernel this filter applies.
    pub fn get_kernel(&self) -> (r: &Kernel)
        ensures
            *r == self.kernel_view(),
    {
        &self.kernel
    }
}

/// The weights of the three-by-three identity kernel: one at the centre,
/// zero elsewhere.
pub open spec fn identity_weights() -> Seq<i16> {
    seq![0i16, 0, 0, 0, 1, 0, 0, 0, 0]
}

proof fn lemma_identity_window<T, F: Fn(T, T, i16, i128) -> T>(
    k: Kernel,
    g: Seq<Seq<T>>,
    y: int,
    x: int,
    zero: T,
    term: F,
    v: T,
)
    requires
        k.wf(),
        k.side() == 3,
        k.weights() == identity_weights(),
        k.is_inner(g, y, x),
        folds_to(term, k.window(g, y, x), k.divisor() as i128, zero, v),
        forall|acc: T, p: T, d: i128, r: T| term.ensures((acc, p, 0i16, d), r) ==> r == acc,
        forall|p: T, d: i128, r: T| term.ensures((zero, p, 1i16, d), r) ==> r == p,
    ensures
        v == g[y][x],
{
    let w = k.window(g, y, x);
    let div = k.divisor() as i128;
    let steps = choose|steps: Seq<T>|
        #[trigger] is_fold(term, w, div, steps) && steps[0] == zero && steps.last() == v;
    assert(k.half() == 1);
    assert(w[0].1 == 0 && w[1].1 == 0 && w[2].1 == 0 && w[3].1 == 0);
    assert(w[4].1 == 1 && w[4].0 == g[y][x]);
    assert(w[5].1 == 0 && w[6].1 == 0 && w[7].1 == 0 && w[8].1 == 0);
    assert(steps[1] == zero);
    assert(steps[2] == zero);
    assert(steps[3] == zero);
    assert(steps[4] == zero);
    assert(steps[5] == g[y][x]);
    assert(steps[6] == g[y][x]);
    assert(steps[7] == g[y][x]);
    assert(steps[8] == g[y][x]);
    assert(steps[9] == g[y][x]);
}

/// Filtering with the identity kernel, without normalisation, leaves every
/// pixel of any grid as it was, for any step whose value is unchanged by a
/// pixel of weight zero and which yields the pixel itself when it weights it
/// by one from `zero`.
pub proof fn lemma_identity_kernel_keeps_grid<T, F: Fn(T, T, i16, i128) -> T>(
    k: Kernel,
    g: Seq<Seq<T>>,
    zero: T,
    term: F,
    out: Seq<Seq<T>>,
)
    requires
        k.wf(),
        k.weights() == identity_weights(),
        !k.normalizes(),
        k.filtered(g, zero, term, out),
        forall|acc: T, p: T, d: i128, r: T| term.ensures((acc, p, 0i16, d), r) ==> r == acc,
        forall|p: T, d: i128, r: T| term.ensures((zero, p, 1i16, d), r) ==> r == p,
    ensures
        out == g,
{
    assert(k.side() == 3) by {
        if k.side() < 3 {
            lemma_square_monotone(k.side(), 2);
        } else if k.side() > 3 {
            lemma_square_monotone(4, k.side());
        }
    }
    assert forall|y: int| 0 <= y < g.len() implies out[y] == g[y] by {
        assert forall|x: int| 0 <= x < g[y].len() implies out[y][x] == g[y][x] by {
            if k.is_inner(g, y, x) {
                lemma_identity_window(k, g, y, x, zero, term, out[y][x]);
            }
        }
        assert(out[y] =~= g[y]);
    }
    assert(out =~= g);
}

} // verus!
