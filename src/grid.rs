use vstd::prelude::*;

use crate::convert::{count_to_i64, wide_to_usize};

verus! {

/// `a / b` rounded up, for a positive `b`.
pub open spec fn ceil_div(a: int, b: int) -> int {
    -((-a) / b)
}

/// The coordinate of grid point `i` when `[start, end)` is cut into `n` equal
/// cells, rounded up to a whole coordinate, so that grid point `i` is the
/// first whole coordinate of cell `i`.
pub open spec fn grid_x(start: int, end: int, n: int, i: int) -> int {
    start + ceil_div((end - start) * i, n)
}

/// The cell of the grid over `[start, end)` with `n` cells that holds `x`:
/// `floor((x - start) / (end - start) * n)`.
pub open spec fn grid_index(start: int, end: int, n: int, x: int) -> int {
    (x - start) * n / (end - start)
}

/// Division of `a` by a positive `b`, rounded toward zero.
pub open spec fn trunc_div(a: int, b: int) -> int {
    if a >= 0 {
        a / b
    } else {
        -((-a) / b)
    }
}

/// The value at `x` of the line through `(x1, y1)` and `(x2, y2)`, rounded
/// toward `y1`: `y1 + (y2 - y1) * (x - x1) / (x2 - x1)`, dividing last.
pub open spec fn linear_blend(x1: int, y1: int, x2: int, y2: int, x: int) -> int {
    y1 + trunc_div((y2 - y1) * (x - x1), x2 - x1)
}

/// What linear interpolation on the grid `v` gives at `x`: nothing when `x`
/// lies before the first grid point or at or past the last one.
pub open spec fn linear_interpolation(v: GridView, x: int) -> Option<int> {
    let n = v.samples.len() as int;
    let k = grid_index(v.start, v.end, n, x);
    if 0 <= k && k + 1 < n {
        Some(
            linear_blend(
                grid_x(v.start, v.end, n, k),
                v.samples[k] as int,
                grid_x(v.start, v.end, n, k + 1),
                v.samples[k + 1] as int,
                x,
            ),
        )
    } else {
        None
    }
}

/// Bounds and samples of a grid function, as mathematical values.
pub struct GridView {
    pub start: int,
    pub end: int,
    pub samples: Seq<i32>,
}

/// A grid is usable when it has at least two samples and every cell is at
/// least one coordinate unit wide.
pub open spec fn valid_grid(v: GridView) -> bool {
    &&& v.samples.len() >= 2
    &&& v.end - v.start >= v.samples.len()
}

/// The mode of reconstruction between samples.
pub enum Interpolation {
    Linear,
}

/// Why a grid function could not be built.
#[derive(Debug, Clone, Copy, PartialEq, Eq, Structural)]
pub enum GridError {
    /// Fewer than two samples, or cells narrower than one coordinate unit.
    Configuration,
    /// The number of samples does not fit the coordinate arithmetic.
    Conversion,
}

/// A function sampled at `N` equally spaced integer coordinates of the
/// half-open interval `[start, end)`.
pub struct SampledFunctionRegular1D {
    data: Vec<i32>,
    start: i32,
    end: i32,
    step: i64,
}

impl View for SampledFunctionRegular1D {
    type V = GridView;

    closed spec fn view(&self) -> GridView {
        GridView { start: self.start as int, end: self.end as int, samples: self.data@ }
    }
}

/// `floor(q / n) >= m` exactly when `q >= m * n`.
proof fn lemma_floor_ge(q: int, n: int, m: int)
    requires
        n > 0,
    ensures
        q / n >= m <==> q >= m * n,
{
    vstd::arithmetic::div_mod::lemma_fundamental_div_mod(q, n);
    let f = q / n;
    let r = q % n;
    if f >= m {
        assert(q >= m * n) by (nonlinear_arith)
            requires
                q == n * f + r,
                0 <= r,
                f >= m,
                n > 0,
        ;
    } else {
        assert(q < m * n) by (nonlinear_arith)
            requires
                q == n * f + r,
                r < n,
                f <= m - 1,
                n > 0,
        ;
    }
}

/// `ceil(a / n) <= d` exactly when `a <= d * n`.
proof fn lemma_ceil_le(a: int, n: int, d: int)
    requires
        n > 0,
    ensures
        ceil_div(a, n) <= d <==> a <= d * n,
{
    lemma_floor_ge(-a, n, -d);
    assert((-d) * n == -(d * n)) by (nonlinear_arith);
}

/// Bounds on a point of the grid: between `start` and `end`, on the side of
/// `start`, whatever the sign of the length; before `end` when cells are at
/// least one unit wide.
proof fn lemma_offset_bounds(len: int, n: int, i: int)
    requires
        0 <= i < n,
    ensures
        len >= 0 ==> 0 <= ceil_div(len * i, n) <= len,
        len < 0 ==> len <= ceil_div(len * i, n) <= 0,
        n <= len ==> ceil_div(len * i, n) <= len - 1,
{
    let c = ceil_div(len * i, n);
    lemma_ceil_le(len * i, n, c);
    lemma_ceil_le(len * i, n, c - 1);
    lemma_ceil_le(len * i, n, 0);
    lemma_ceil_le(len * i, n, -1);
    lemma_ceil_le(len * i, n, len);
    lemma_ceil_le(len * i, n, len - 1);
    if len >= 0 {
        assert(0 <= len * i <= len * n - len) by (nonlinear_arith)
            requires
                len >= 0,
                0 <= i <= n - 1,
        ;
        assert(len * n - len <= len * n);
        assert(!(len * i <= -1 * n));
        if n <= len {
            assert(len * n - len <= (len - 1) * n) by (nonlinear_arith)
                requires
                    n <= len,
            ;
        }
    } else {
        assert(len * n <= len * i <= 0) by (nonlinear_arith)
            requires
                len < 0,
                0 <= i < n,
        ;
        assert(len * n == n * len) by (nonlinear_arith);
        assert(!(len * i <= (len - 1) * n)) by (nonlinear_arith)
            requires
                len * n <= len * i,
                n > 0,
        ;
    }
}

/// `a / b` rounded down, for a positive `b`.
fn floor_div(a: i128, b: i128) -> (r: i128)
    requires
        0 < b <= 0x1_0000_0000_0000_0000_0000,
        -0x1_0000_0000_0000_0000_0000_0000 <= a <= 0x1_0000_0000_0000_0000_0000_0000,
    ensures
        r == a / b,
{
    if a >= 0 {
        a / b
    } else {
        proof {
            let x: int = -(a as int) + b as int - 1;
            let p: int = a as int;
            let m: int = b as int;
            vstd::arithmetic::div_mod::lemma_fundamental_div_mod(x, m);
            vstd::arithmetic::div_mod::lemma_fundamental_div_mod(p, m);
            let q = p / m;
            let u = x / m;
            assert(-u == q) by (nonlinear_arith)
                requires
                    x == -p + m - 1,
                    x == m * u + x % m,
                    0 <= x % m < m,
                    p == m * q + p % m,
                    0 <= p % m < m,
                    m > 0,
            ;
        }
        -((-a + b - 1) / b)
    }
}

/// The coordinate of point `index` of a grid with `sample_count` points over
/// `[start, end)`: `start + (end - start) * index / sample_count`, rounded up.
pub fn get_x(start: i32, end: i32, sample_count: usize, index: usize) -> (r: i32)
    requires
        index < sample_count,
    ensures
        r == grid_x(start as int, end as int, sample_count as int, index as int),
{
    let len: i128 = end as i128 - start as i128;
    let n: i128 = sample_count as i128;
    let i: i128 = index as i128;
    proof {
        lemma_offset_bounds(len as int, n as int, i as int);
        assert(-0x1_0000_0000 * 0x1_0000_0000_0000_0000 <= len * i <= 0x1_0000_0000
            * 0x1_0000_0000_0000_0000) by (nonlinear_arith)
            requires
                -0x1_0000_0000 <= len <= 0x1_0000_0000,
                0 <= i <= 0x1_0000_0000_0000_0000,
        ;
    }
    let off: i128 = -floor_div(-(len * i), n);
    (start as i128 + off) as i32
}

/// The error, if any, of building a grid of `n` samples over `[start, end)`.
pub open spec fn config_error(n: int, start: int, end: int) -> Option<GridError> {
    if n < 2 {
        Some(GridError::Configuration)
    } else if n > i64::MAX {
        Some(GridError::Conversion)
    } else if end - start < n {
        Some(GridError::Configuration)
    } else {
        None
    }
}

/// A coordinate at offset `d` from `start` lies in cell `i` exactly when it
/// lies between grid point `i` (included) and grid point `i + 1` (excluded).
proof fn lemma_cell(len: int, n: int, i: int, d: int)
    requires
        0 < n,
        0 < len,
    ensures
        d * n / len == i <==> ceil_div(len * i, n) <= d && d < ceil_div(len * (i + 1), n),
{
    lemma_floor_ge(d * n, len, i);
    lemma_floor_ge(d * n, len, i + 1);
    lemma_ceil_le(len * i, n, d);
    lemma_ceil_le(len * (i + 1), n, d);
    assert(i * len == len * i && (i + 1) * len == len * (i + 1) && d * n == n * d)
        by (nonlinear_arith);
}

/// Grid point `i` of a grid whose cells are at least one unit wide lies
/// before grid point `i + 1`.
proof fn lemma_point_in_own_cell(len: int, n: int, i: int)
    requires
        0 < n <= len,
    ensures
        ceil_div(len * i, n) < ceil_div(len * (i + 1), n),
{
    let c = ceil_div(len * i, n);
    lemma_ceil_le(len * i, n, c);
    lemma_ceil_le(len * i, n, c - 1);
    lemma_ceil_le(len * (i + 1), n, c);
    assert(!(len * (i + 1) <= c * n)) by (nonlinear_arith)
        requires
            !(len * i <= (c - 1) * n),
            n <= len,
    ;
}

impl SampledFunctionRegular1D {
    /// The grid is usable and its cached step is `(end - start) / N`.
    pub closed spec fn wf(&self) -> bool {
        &&& valid_grid(self@)
        &&& self.step == (self.end - self.start) / (self.data@.len() as int)
    }

    /// Builds the grid over `[start, end)` with the given samples, in
    /// ascending order of coordinate.
    pub fn new(start: i32, end: i32, data: Vec<i32>) -> (r: Result<Self, GridError>)
        ensures
            match config_error(data@.len() as int, start as int, end as int) {
                Some(e) => r == Err::<Self, GridError>(e),
                None => r is Ok,
            },
            r matches Ok(g) ==> g.wf() && g@ == (GridView {
                start: start as int,
                end: end as int,
                samples: data@,
            }),
    {
        let count = data.len();
        if count < 2 {
            return Err(GridError::Configuration);
        }
        let n = match count_to_i64(count) {
            Some(n) => n,
            None => {
                return Err(GridError::Conversion);
            },
        };
        let len: i64 = end as i64 - start as i64;
        if len < n {
            return Err(GridError::Configuration);
        }
        let step = len / n;
        Ok(SampledFunctionRegular1D { data, start, end, step })
    }

    /// Builds the grid of `n` samples over `[start, end)` whose sample `i` is
    /// `f` at grid point `i`.
    pub fn from_function<F: Fn(i32) -> i32>(f: &F, start: i32, end: i32, n: usize) -> (r: Result<
        Self,
        GridError,
    >)
        requires
            forall|x: i32| f.requires((x,)),
        ensures
            match config_error(n as int, start as int, end as int) {
                Some(e) => r == Err::<Self, GridError>(e),
                None => r is Ok,
            },
            r matches Ok(g) ==> {
                &&& g.wf()
                &&& g@.start == start
                &&& g@.end == end
                &&& g@.samples.len() == n
                &&& forall|i: int|
                    0 <= i < n ==> f.ensures(
                        (grid_x(start as int, end as int, n as int, i) as i32,),
                        #[trigger] g@.samples[i],
                    )
            },
    {
        if n < 2 {
            return Err(GridError::Configuration);
        }
        let count = match count_to_i64(n) {
            Some(c) => c,
            None => {
                return Err(GridError::Conversion);
            },
        };
        if (end as i64 - start as i64) < count {
            return Err(GridError::Configuration);
        }
        let mut data: Vec<i32> = Vec::new();
        let mut i: usize = 0;
        while i < n
            invariant
                i <= n,
                data@.len() == i,
                forall|x: i32| f.requires((x,)),
                forall|j: int|
                    0 <= j < i ==> f.ensures(
                        (grid_x(start as int, end as int, n as int, j) as i32,),
                        #[trigger] data@[j],
                    ),
            decreases n - i,
        {
            let x = get_x(start, end, n, i);
            let y = f(x);
            data.push(y);
            i = i + 1;
        }
        SampledFunctionRegular1D::new(start, end, data)
    }

    /// The number of samples `N`.
    pub fn sample_count(&self) -> (r: usize)
        ensures
            r == self@.samples.len(),
    {
        self.data.len()
    }

    /// The distance between neighbouring grid points, `(end - start) / N`.
    pub fn step(&self) -> (r: i64)
        requires
            self.wf(),
        ensures
            r == (self@.end - self@.start) / (self@.samples.len() as int),
    {
        self.step
    }

    /// The length `end - start` of the domain.
    pub fn length(&self) -> (r: i64)
        ensures
            r == self@.end - self@.start,
    {
        self.end as i64 - self.start as i64
    }

    /// The lower bound of the domain.
    pub fn start(&self) -> (r: i32)
        ensures
            r == self@.start,
    {
        self.start
    }

    /// The upper bound of the domain, which is never a grid point.
    pub fn end(&self) -> (r: i32)
        ensures
            r == self@.end,
    {
        self.end
    }

    /// The samples, in ascending order of coordinate.
    pub fn data(&self) -> (r: &Vec<i32>)
        ensures
            r@ == self@.samples,
    {
        &self.data
    }

    /// The coordinate of grid point `i`.
    pub fn get_x(&self, i: usize) -> (r: i32)
        requires
            self.wf(),
            i < self@.samples.len(),
        ensures
            r == grid_x(self@.start, self@.end, self@.samples.len() as int, i as int),
    {
        get_x(self.start, self.end, self.data.len(), i)
    }

    /// The coordinate of the last grid point.
    pub fn last_x(&self) -> (r: i32)
        requires
            self.wf(),
        ensures
            r == grid_x(
                self@.start,
                self@.end,
                self@.samples.len() as int,
                self@.samples.len() - 1,
            ),
    {
        self.get_x(self.data.len() - 1)
    }

    /// The cell that holds `x`, `floor((x - start) / (end - start) * N)`, or
    /// `None` when `x` lies before `start`. The cell may lie past the last
    /// grid point.
    pub fn get_index_from_x(&self, x: i32) -> (r: Option<usize>)
        requires
            self.wf(),
        ensures
            ({
                let k = grid_index(self@.start, self@.end, self@.samples.len() as int, x as int);
                if k < 0 {
                    r is None
                } else {
                    r matches Some(i) && i == k
                }
            }),
    {
        let len: i128 = self.end as i128 - self.start as i128;
        let diff: i128 = x as i128 - self.start as i128;
        let n: i128 = self.data.len() as i128;
        proof {
            assert(-0x1_0000_0000 * 0x1_0000_0000 <= diff * n <= 0x1_0000_0000 * 0x1_0000_0000)
                by (nonlinear_arith)
                requires
                    -0x1_0000_0000 <= diff <= 0x1_0000_0000,
                    0 <= n <= 0x1_0000_0000,
            ;
            let a: int = diff as int;
            let l: int = len as int;
            let m: int = n as int;
            if a >= 0 {
                assert(a * m <= l * a) by (nonlinear_arith)
                    requires
                        a >= 0,
                        m <= l,
                ;
                vstd::arithmetic::div_mod::lemma_div_is_ordered(a * m, l * a, l);
                vstd::arithmetic::div_mod::lemma_div_multiples_vanish(a, l);
                assert((a * m) / l <= a);
            } else {
                vstd::arithmetic::div_mod::lemma_fundamental_div_mod(a * m, l);
                let q = (a * m) / l;
                assert(q < 0) by (nonlinear_arith)
                    requires
                        a < 0,
                        m > 0,
                        l > 0,
                        a * m == l * q + (a * m) % l,
                        0 <= (a * m) % l < l,
                ;
            }
        }
        let k = floor_div(diff * n, len);
        wide_to_usize(k)
    }

    /// The value at `x` of the line through the samples at the two grid
    /// points around `x`, or `None` when `x` lies before the first grid point
    /// or at or past the last one.
    pub fn interpolate_y(&self, x: i32, mode: Interpolation) -> (r: Option<i32>)
        requires
            self.wf(),
        ensures
            r is Some <==> linear_interpolation(self@, x as int) is Some,
            r matches Some(y) ==> linear_interpolation(self@, x as int) == Some(y as int),
    {
        match mode {
            Interpolation::Linear => {
                let i = match self.get_index_from_x(x) {
                    Some(i) => i,
                    None => {
                        return None;
                    },
                };
                if i >= self.data.len() - 1 {
                    return None;
                }
                let x1 = self.get_x(i);
                let x2 = self.get_x(i + 1);
                let y1 = self.data[i];
                let y2 = self.data[i + 1];
                let ghost len: int = self@.end - self@.start;
                let ghost n: int = self@.samples.len() as int;
                proof {
                    lemma_cell(len, n, i as int, x - self@.start);
                }
                let w: i128 = x2 as i128 - x1 as i128;
                let d: i128 = y2 as i128 - y1 as i128;
                let dx: i128 = x as i128 - x1 as i128;
                proof {
                    lemma_blend_bounds(d as int, dx as int, w as int);
                }
                let p: i128 = d * dx;
                let t: i128 = if p >= 0 {
                    p / w
                } else {
                    -((-p) / w)
                };
                let y: i128 = y1 as i128 + t;
                Some(y as i32)
            },
        }
    }

    /// A walk over the pairs `(x, sample)`, in ascending order of `x`.
    pub fn iter(&self) -> (r: SampledFunctionRegular1DIterator<'_>)
        requires
            self.wf(),
        ensures
            r.wf(),
            r.grid() == self@,
            r.position() == 0,
    {
        SampledFunctionRegular1DIterator { iteree: self, index: 0 }
    }
}

/// A walk over the points of a grid function.
pub struct SampledFunctionRegular1DIterator<'a> {
    iteree: &'a SampledFunctionRegular1D,
    index: usize,
}

impl<'a> SampledFunctionRegular1DIterator<'a> {
    /// The grid that is walked.
    pub closed spec fn grid(&self) -> GridView {
        self.iteree@
    }

    /// How many points have been handed out.
    pub closed spec fn position(&self) -> int {
        self.index as int
    }

    /// The walk is over a usable grid and has not gone past its end.
    pub closed spec fn wf(&self) -> bool {
        &&& self.iteree.wf()
        &&& self.index <= self.iteree@.samples.len()
    }

    /// The next pair `(x, sample)`, or `None` once every point was handed out.
    pub fn next(&mut self) -> (r: Option<(i32, i32)>)
        requires
            old(self).wf(),
        ensures
            final(self).wf(),
            final(self).grid() == old(self).grid(),
            ({
                let g = old(self).grid();
                let i = old(self).position();
                if i < g.samples.len() {
                    &&& r == Some(
                        (grid_x(g.start, g.end, g.samples.len() as int, i) as i32, g.samples[i]),
                    )
                    &&& final(self).position() == i + 1
                } else {
                    &&& r is None
                    &&& final(self).position() == i
                }
            }),
    {
        let i = self.index;
        if i >= self.iteree.data.len() {
            return None;
        }
        self.index = i + 1;
        Some((self.iteree.get_x(i), self.iteree.data[i]))
    }
}

/// Between grid points `x1 <= x < x2`, the blend moves from `y1` at most as
/// far as `y2`, and the product that it divides fits 128 bits.
proof fn lemma_blend_bounds(d: int, dx: int, w: int)
    requires
        0 <= dx < w <= 0x1_0000_0000,
        -0x1_0000_0000 <= d <= 0x1_0000_0000,
    ensures
        -0x1_0000_0000 * 0x1_0000_0000 <= d * dx <= 0x1_0000_0000 * 0x1_0000_0000,
        d >= 0 ==> 0 <= trunc_div(d * dx, w) <= d,
        d < 0 ==> d <= trunc_div(d * dx, w) <= 0,
{
    assert(-0x1_0000_0000 * 0x1_0000_0000 <= d * dx <= 0x1_0000_0000 * 0x1_0000_0000)
        by (nonlinear_arith)
        requires
            0 <= dx <= 0x1_0000_0000,
            -0x1_0000_0000 <= d <= 0x1_0000_0000,
    ;
    if d >= 0 {
        assert(0 <= d * dx <= d * w) by (nonlinear_arith)
            requires
                d >= 0,
                0 <= dx < w,
        ;
        lemma_floor_ge(d * dx, w, d + 1);
        lemma_floor_ge(d * dx, w, 0);
        assert((d + 1) * w > d * w) by (nonlinear_arith)
            requires
                w > 0,
        ;
    } else {
        assert(0 <= (-d) * dx <= (-d) * w) by (nonlinear_arith)
            requires
                d < 0,
                0 <= dx < w,
        ;
        assert(-(d * dx) == (-d) * dx) by (nonlinear_arith);
        lemma_floor_ge((-d) * dx, w, -d + 1);
        lemma_floor_ge((-d) * dx, w, 0);
        assert((-d + 1) * w > (-d) * w) by (nonlinear_arith)
            requires
                w > 0,
        ;
    }
}

/// A usable grid has at least two samples, cells at least one unit wide,
/// and a step of at least one.
pub proof fn lemma_grid_usable(g: &SampledFunctionRegular1D)
    requires
        g.wf(),
    ensures
        valid_grid(g@),
        (g@.end - g@.start) / (g@.samples.len() as int) >= 1,
{
    let n = g@.samples.len() as int;
    lemma_floor_ge(g@.end - g@.start, n, 1);
}

/// The first grid point is `start` and the last lies before `end`; when `N`
/// divides `end - start`, the last grid point is `start + step * (N - 1)`.
pub proof fn lemma_grid_ends(start: int, end: int, n: int)
    requires
        n >= 2,
        end - start >= n,
    ensures
        grid_x(start, end, n, 0) == start,
        grid_x(start, end, n, n - 1) < end,
        (end - start) % n == 0 ==> grid_x(start, end, n, n - 1) == start + (end - start) / n * (
        n - 1),
{
    lemma_offset_bounds(end - start, n, n - 1);
    assert((end - start) * 0 == 0);
    if (end - start) % n == 0 {
        let s = (end - start) / n;
        vstd::arithmetic::div_mod::lemma_fundamental_div_mod(end - start, n);
        assert(-((end - start) * (n - 1)) == (-(s * (n - 1))) * n) by (nonlinear_arith)
            requires
                end - start == n * s,
        ;
        vstd::arithmetic::div_mod::lemma_div_multiples_vanish(-(s * (n - 1)), n);
        assert(n * (-(s * (n - 1))) == (-(s * (n - 1))) * n) by (nonlinear_arith);
    }
}

/// A coordinate lies in cell `i` exactly when it lies between grid point `i`
/// (included) and the next grid point, or `end` after the last one.
pub proof fn lemma_cell_membership(start: int, end: int, n: int, i: int, x: int)
    requires
        n >= 2,
        end - start >= n,
        0 <= i < n,
    ensures
        grid_index(start, end, n, x) == i <==> grid_x(start, end, n, i) <= x && x < (if i + 1
            < n {
            grid_x(start, end, n, i + 1)
        } else {
            end
        }),
{
    let len = end - start;
    lemma_cell(len, n, i, x - start);
    if i + 1 == n {
        vstd::arithmetic::div_mod::lemma_div_multiples_vanish(-len, n);
        assert(-(len * (i + 1)) == n * (-len)) by (nonlinear_arith)
            requires
                i + 1 == n,
        ;
    }
}

/// Round trip: the cell of grid point `i` is `i`.
pub proof fn lemma_index_of_grid_point(start: int, end: int, n: int, i: int)
    requires
        n >= 2,
        end - start >= n,
        0 <= i < n,
    ensures
        grid_index(start, end, n, grid_x(start, end, n, i)) == i,
{
    let len = end - start;
    lemma_point_in_own_cell(len, n, i);
    lemma_cell(len, n, i, grid_x(start, end, n, i) - start);
}

/// Interpolation at grid point `i`, of all but the last, gives sample `i`.
pub proof fn lemma_interpolation_at_nodes(v: GridView, i: int)
    requires
        valid_grid(v),
        0 <= i < v.samples.len() - 1,
    ensures
        linear_interpolation(v, grid_x(v.start, v.end, v.samples.len() as int, i)) == Some(
            v.samples[i] as int,
        ),
{
    let n = v.samples.len() as int;
    lemma_index_of_grid_point(v.start, v.end, n, i);
    lemma_point_in_own_cell(v.end - v.start, n, i);
    let x1 = grid_x(v.start, v.end, n, i);
    assert((v.samples[i + 1] - v.samples[i]) * (x1 - x1) == 0);
    assert(0int / (grid_x(v.start, v.end, n, i + 1) - x1) == 0);
}

/// From grid point `i` up to grid point `i + 1`, interpolation lies within
/// one unit of the line through their samples, on the side of sample `i`,
/// and on the line when the division comes out whole.
pub proof fn lemma_interpolation_between_nodes(v: GridView, i: int, x: int)
    requires
        valid_grid(v),
        0 <= i < v.samples.len() - 1,
        grid_x(v.start, v.end, v.samples.len() as int, i) <= x,
        x < grid_x(v.start, v.end, v.samples.len() as int, i + 1),
    ensures
        ({
            let n = v.samples.len() as int;
            let x1 = grid_x(v.start, v.end, n, i);
            let x2 = grid_x(v.start, v.end, n, i + 1);
            let y1 = v.samples[i] as int;
            let y2 = v.samples[i + 1] as int;
            linear_interpolation(v, x) matches Some(y) && {
                &&& -(x2 - x1) < (y2 - y1) * (x - x1) - (y - y1) * (x2 - x1) < x2 - x1
                &&& (y2 >= y1 ==> 0 <= (y2 - y1) * (x - x1) - (y - y1) * (x2 - x1))
                &&& (y2 < y1 ==> (y2 - y1) * (x - x1) - (y - y1) * (x2 - x1) <= 0)
                &&& (((y2 - y1) * (x - x1)) % (x2 - x1) == 0 ==> (y - y1) * (x2 - x1) == (y2
                    - y1) * (x - x1))
            }
        }),
{
    let n = v.samples.len() as int;
    let x1 = grid_x(v.start, v.end, n, i);
    let x2 = grid_x(v.start, v.end, n, i + 1);
    lemma_cell_membership(v.start, v.end, n, i, x);
    lemma_point_in_own_cell(v.end - v.start, n, i);
    let w = x2 - x1;
    let a = (v.samples[i + 1] - v.samples[i]) * (x - x1);
    let t = trunc_div(a, w);
    if a >= 0 {
        vstd::arithmetic::div_mod::lemma_fundamental_div_mod(a, w);
        assert(a - t * w == a % w) by (nonlinear_arith)
            requires
                a == w * t + a % w,
        ;
    } else {
        vstd::arithmetic::div_mod::lemma_fundamental_div_mod(-a, w);
        assert(a - t * w == -((-a) % w)) by (nonlinear_arith)
            requires
                -a == w * ((-a) / w) + (-a) % w,
                t == -((-a) / w),
        ;
        if a % w == 0 {
            vstd::arithmetic::div_mod::lemma_fundamental_div_mod(a, w);
            let q = a / w;
            assert(-a == (-q) * w + 0) by (nonlinear_arith)
                requires
                    a == w * q + a % w,
                    a % w == 0,
            ;
            vstd::arithmetic::div_mod::lemma_fundamental_div_mod_converse_mod(-a, w, -q, 0);
        }
    }
    let d = v.samples[i + 1] - v.samples[i];
    if d >= 0 {
        assert(a >= 0) by (nonlinear_arith)
            requires
                a == d * (x - x1),
                d >= 0,
                x >= x1,
        ;
    } else {
        assert(a <= 0) by (nonlinear_arith)
            requires
                a == d * (x - x1),
                d < 0,
                x >= x1,
        ;
    }
}

} // verus!
