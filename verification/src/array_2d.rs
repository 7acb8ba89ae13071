//! Dense row-major grids addressed by `(x, y)`.

use vstd::prelude::*;

verus! {

/// The mathematical content of a grid: its extent and its cells in row-major
/// order (`x` runs fastest).
pub struct Grid<T> {
    pub width: int,
    pub height: int,
    pub cells: Seq<T>,
}

impl<T> Grid<T> {
    /// A grid is well formed when it has at least one cell in each direction
    /// and exactly `width * height` cells.
    pub open spec fn wf(self) -> bool {
        &&& self.width >= 1
        &&& self.height >= 1
        &&& self.cells.len() == self.width * self.height
    }

    /// The grid has a cell `(x, y)`.
    pub open spec fn in_bounds(self, x: int, y: int) -> bool {
        0 <= x < self.width && 0 <= y < self.height
    }

    /// Position of the cell `(x, y)` in `cells`.
    pub open spec fn offset(self, x: int, y: int) -> int {
        y * self.width + x
    }

    /// What the cell `(x, y)` holds.
    pub open spec fn at(self, x: int, y: int) -> T {
        self.cells[self.offset(x, y)]
    }

    /// The grid with the cell `(x, y)` replaced by `value`.
    pub open spec fn set(self, x: int, y: int, value: T) -> Grid<T> {
        Grid { width: self.width, height: self.height, cells: self.cells.update(self.offset(x, y), value) }
    }
}

/// The `k`-th coordinate pair of a grid `width` cells wide, counted in
/// row-major order.
pub open spec fn coord_at(width: int, k: int) -> (i32, i32) {
    ((k % width) as i32, (k / width) as i32)
}

/// All coordinate pairs of a `width` by `height` grid from the `from`-th on,
/// in row-major order.
pub open spec fn coords_from(width: int, height: int, from: int) -> Seq<(i32, i32)> {
    Seq::new((width * height - from) as nat, |k: int| coord_at(width, from + k))
}

/// Within a well-formed grid, every in-bounds coordinate pair has its own
/// offset inside the cell sequence.
pub proof fn lemma_offset_in_range(width: int, height: int, x: int, y: int)
    requires
        0 <= x < width,
        0 <= y < height,
    ensures
        0 <= y * width + x < width * height,
        (y * width + x) % width == x,
        (y * width + x) / width == y,
{
    assert(y * width >= 0) by (nonlinear_arith)
        requires
            y >= 0,
            width > 0,
    ;
    assert(y * width + x < width * height) by (nonlinear_arith)
        requires
            0 <= x < width,
            0 <= y < height,
    {
        assert((y + 1) * width <= height * width);
    }
    vstd::arithmetic::div_mod::lemma_fundamental_div_mod_converse(y * width + x, width, y, x);
}

/// Every offset below `width * height` is the offset of exactly one in-bounds
/// coordinate pair.
pub proof fn lemma_coord_in_bounds(width: int, height: int, k: int)
    requires
        width >= 1,
        height >= 1,
        0 <= k < width * height,
    ensures
        0 <= k % width < width,
        0 <= k / width < height,
        (k / width) * width + k % width == k,
{
    vstd::arithmetic::div_mod::lemma_fundamental_div_mod(k, width);
    vstd::arithmetic::div_mod::lemma_mod_bound(k, width);
    let q = k / width;
    let r = k % width;
    assert(width * q == q * width) by (nonlinear_arith);
    assert(q >= 0 && q < height) by (nonlinear_arith)
        requires
            q * width + r == k,
            0 <= r < width,
            0 <= k < width * height,
            width >= 1,
    ;
}

/// `num_traits::Zero::zero` for `T`. Nothing is claimed of the value: what
/// the additive identity of an arbitrary `T` is, only its own impl can say.
#[verifier::external_body]
fn zero_value<T: num_traits::Zero>() -> (r: T) {
    T::zero()
}

/// `num_traits::One::one` for `T`. Nothing is claimed of the value: what the
/// multiplicative identity of an arbitrary `T` is, only its own impl can say.
#[verifier::external_body]
fn one_value<T: num_traits::One>() -> (r: T) {
    T::one()
}

/// A grid of `width` by `height` cells, kept row after row.
#[derive(Clone, Debug)]
pub struct Array2D<T> {
    width: i32,
    height: i32,
    data: Vec<T>,
}

impl<T> View for Array2D<T> {
    type V = Grid<T>;

    closed spec fn view(&self) -> Grid<T> {
        Grid { width: self.width as int, height: self.height as int, cells: self.data@ }
    }
}

impl<T> Array2D<T> {
    /// Wraps `data`, which holds the rows of the grid one after another.
    pub fn new(width: i32, height: i32, data: Vec<T>) -> (r: Self)
        requires
            width >= 1,
            height >= 1,
            data@.len() == width * height,
        ensures
            r@ == (Grid { width: width as int, height: height as int, cells: data@ }),
            r@.wf(),
    {
        Array2D { width, height, data }
    }

    /// A grid whose cells all hold `value`.
    pub fn new_with_constant(width: i32, height: i32, value: T) -> (r: Self) where T: Copy
        requires
            width >= 1,
            height >= 1,
            width * height <= usize::MAX,
        ensures
            r@ == (Grid {
                width: width as int,
                height: height as int,
                cells: Seq::new((width * height) as nat, |k: int| value),
            }),
            r@.wf(),
    {
        assert(width * height >= 1) by (nonlinear_arith)
            requires
                width >= 1,
                height >= 1,
        ;
        let n: usize = (width as usize) * (height as usize);
        let mut data: Vec<T> = Vec::new();
        let mut k: usize = 0;
        while k < n
            invariant
                k <= n,
                data@ =~= Seq::new(k as nat, |j: int| value),
            decreases n - k,
        {
            data.push(value);
            k += 1;
        }
        Array2D { width, height, data }
    }

    /// A grid whose cells all hold the additive identity of `T`.
    pub fn zeros(width: i32, height: i32) -> (r: Self) where T: num_traits::Zero + Copy
        requires
            width >= 1,
            height >= 1,
            width * height <= usize::MAX,
        ensures
            r@.width == width,
            r@.height == height,
            r@.wf(),
            forall|j: int, k: int|
                0 <= j < r@.cells.len() && 0 <= k < r@.cells.len() ==> r@.cells[j] == r@.cells[k],
    {
        Array2D::new_with_constant(width, height, zero_value::<T>())
    }

    /// A grid whose cells all hold the multiplicative identity of `T`.
    pub fn ones(width: i32, height: i32) -> (r: Self) where T: num_traits::One + Copy
        requires
            width >= 1,
            height >= 1,
            width * height <= usize::MAX,
        ensures
            r@.width == width,
            r@.height == height,
            r@.wf(),
            forall|j: int, k: int|
                0 <= j < r@.cells.len() && 0 <= k < r@.cells.len() ==> r@.cells[j] == r@.cells[k],
    {
        Array2D::new_with_constant(width, height, one_value::<T>())
    }

    /// The number of columns.
    pub fn width(&self) -> (r: i32)
        ensures
            r == self@.width,
    {
        self.width
    }

    /// The number of rows.
    pub fn height(&self) -> (r: i32)
        ensures
            r == self@.height,
    {
        self.height
    }

    /// The cells in row-major order.
    pub fn as_slice(&self) -> (r: &[T])
        ensures
            r@ == self@.cells,
    {
        self.data.as_slice()
    }

    /// The cells in row-major order, for writing. The extent of the grid is
    /// untouched whatever the caller stores.
    pub fn as_mut_slice(&mut self) -> (r: &mut [T])
        ensures
            r@ == old(self)@.cells,
            final(self)@ == (Grid {
                width: old(self)@.width,
                height: old(self)@.height,
                cells: final(r)@,
            }),
    {
        self.data.as_mut_slice()
    }

    /// Position of the cell `(x, y)` in the underlying vector.
    fn offset(&self, x: i32, y: i32) -> (k: usize)
        requires
            self@.wf(),
            self@.in_bounds(x as int, y as int),
        ensures
            k == self@.offset(x as int, y as int),
            k < self.data@.len(),
    {
        proof {
            lemma_offset_in_range(self.width as int, self.height as int, x as int, y as int);
            assert(0 <= y * self.width <= y * self.width + x);
            assert(self.data.len() == self.width * self.height);
        }
        (y as usize) * (self.width as usize) + (x as usize)
    }

    /// The cell at `(x, y)`.
    pub fn get(&self, x: i32, y: i32) -> (r: &T)
        requires
            self@.wf(),
            self@.in_bounds(x as int, y as int),
        ensures
            *r == self@.at(x as int, y as int),
    {
        let k = self.offset(x, y);
        &self.data[k]
    }

    /// Stores `value` in the cell at `(x, y)`.
    pub fn set(&mut self, x: i32, y: i32, value: T)
        requires
            old(self)@.wf(),
            old(self)@.in_bounds(x as int, y as int),
        ensures
            final(self)@ == old(self)@.set(x as int, y as int, value),
            final(self)@.wf(),
            forall|x2: int, y2: int|
                old(self)@.in_bounds(x2, y2) ==> #[trigger] final(self)@.at(x2, y2) == if x2 == x
                    && y2 == y {
                    value
                } else {
                    old(self)@.at(x2, y2)
                },
    {
        let k = self.offset(x, y);
        self.data[k] = value;
        proof {
            assert forall|x2: int, y2: int| old(self)@.in_bounds(x2, y2) implies #[trigger] self@.at(
                x2,
                y2,
            ) == if x2 == x && y2 == y {
                value
            } else {
                old(self)@.at(x2, y2)
            } by {
                lemma_offset_in_range(self@.width, self@.height, x2, y2);
                lemma_offset_in_range(self@.width, self@.height, x as int, y as int);
            }
        }
    }

    /// A cursor over the coordinate pairs of this grid in row-major order.
    pub fn iter_coords(&self) -> (r: Array2DCoordIter)
        requires
            self@.wf(),
        ensures
            r.wf(),
            r@ == coords_from(self@.width, self@.height, 0),
    {
        let it = Array2DCoordIter { x: 0, y: 0, w: self.width, h: self.height };
        proof {
            assert(self@.width * self@.height >= 1) by (nonlinear_arith)
                requires
                    self@.width >= 1,
                    self@.height >= 1,
            ;
            assert(it.position() == 0);
        }
        it
    }
}

/// A cursor that hands out the coordinate pairs of a grid one by one.
pub struct Array2DCoordIter {
    x: i32,
    y: i32,
    w: i32,
    h: i32,
}

impl Array2DCoordIter {
    /// Number of coordinate pairs handed out so far.
    pub closed spec fn position(&self) -> int {
        self.y * self.w + self.x
    }

    /// The cursor stands on a cell of its grid, or after the last.
    pub closed spec fn wf(&self) -> bool {
        &&& self.w >= 1
        &&& self.h >= 1
        &&& 0 <= self.x < self.w
        &&& 0 <= self.y <= self.h
        &&& self.y == self.h ==> self.x == 0
    }

    /// Hands out the next coordinate pair, or `None` once every pair has been
    /// handed out.
    pub fn next(&mut self) -> (r: Option<(i32, i32)>)
        requires
            old(self).wf(),
        ensures
            final(self).wf(),
            old(self)@.len() == 0 ==> r.is_none() && final(self)@ == old(self)@,
            old(self)@.len() > 0 ==> r == Some(old(self)@[0]) && final(self)@ == old(self)@.skip(1),
    {
        proof {
            self.lemma_view();
        }
        if self.y < self.h {
            let r = (self.x, self.y);
            proof {
                lemma_offset_in_range(self.w as int, self.h as int, self.x as int, self.y as int);
            }
            self.x += 1;
            if self.x == self.w {
                self.x = 0;
                self.y += 1;
            }
            proof {
                self.lemma_view();
                let (w, x0, y0) = (self.w as int, old(self).x as int, old(self).y as int);
                let (x1, y1) = (self.x as int, self.y as int);
                assert(y1 * w + x1 == y0 * w + x0 + 1) by (nonlinear_arith)
                    requires
                        (x1 == x0 + 1 && y1 == y0) || (x1 == 0 && x0 + 1 == w && y1 == y0 + 1),
                ;
                assert(self@ =~= old(self)@.skip(1));
            }
            Some(r)
        } else {
            None
        }
    }

    proof fn lemma_view(&self)
        requires
            self.wf(),
        ensures
            0 <= self.position() <= self.w * self.h,
            self.position() == self.w * self.h <==> self.y == self.h,
            self@.len() == self.w * self.h - self.position(),
    {
        let (w, h, x, y) = (self.w as int, self.h as int, self.x as int, self.y as int);
        assert(0 <= y * w + x <= w * h && ((y * w + x == w * h) <==> y == h)) by (nonlinear_arith)
            requires
                w >= 1,
                h >= 1,
                0 <= x < w,
                0 <= y <= h,
                y == h ==> x == 0,
        {
            if y < h {
                assert((y + 1) * w <= h * w);
            }
        }
    }
}

impl View for Array2DCoordIter {
    type V = Seq<(i32, i32)>;

    /// The coordinate pairs still to be handed out, in order.
    closed spec fn view(&self) -> Seq<(i32, i32)> {
        coords_from(self.w as int, self.h as int, self.position())
    }
}

} // verus!
