//! Cells of a raster that stand above their four neighbours.

use vstd::prelude::*;
use crate::array_2d::{coord_at, lemma_coord_in_bounds, lemma_offset_in_range, Array2D, Grid};

verus! {

/// The cell `(x, y)` does not touch the rim of the grid and holds a value
/// strictly greater than each of the four cells beside it.
pub open spec fn is_local_maximum(grid: Grid<u32>, x: int, y: int) -> bool {
    &&& 1 <= x <= grid.width - 2
    &&& 1 <= y <= grid.height - 2
    &&& grid.at(x, y) > grid.at(x - 1, y)
    &&& grid.at(x, y) > grid.at(x + 1, y)
    &&& grid.at(x, y) > grid.at(x, y - 1)
    &&& grid.at(x, y) > grid.at(x, y + 1)
}

/// The local maxima among the first `k` cells of the grid, in row-major
/// order.
pub open spec fn local_maxima(grid: Grid<u32>, k: nat) -> Seq<(i32, i32)>
    decreases k,
{
    if k == 0 {
        Seq::empty()
    } else {
        let rest = local_maxima(grid, (k - 1) as nat);
        if is_local_maximum(grid, (k - 1) % grid.width, (k - 1) / grid.width) {
            rest.push(coord_at(grid.width, k - 1))
        } else {
            rest
        }
    }
}

/// The list of local maxima names exactly the cells that are local maxima.
pub proof fn lemma_local_maxima_are_exact(grid: Grid<u32>, k: nat, x: int, y: int)
    requires
        grid.wf(),
        grid.width <= i32::MAX,
        grid.height <= i32::MAX,
        k <= grid.cells.len(),
        grid.in_bounds(x, y),
    ensures
        local_maxima(grid, k).contains((x as i32, y as i32)) <==> is_local_maximum(grid, x, y)
            && grid.offset(x, y) < k,
    decreases k,
{
    if k > 0 {
        let j = k - 1;
        lemma_local_maxima_are_exact(grid, j as nat, x, y);
        lemma_coord_in_bounds(grid.width, grid.height, j);
        lemma_offset_in_range(grid.width, grid.height, x, y);
        let rest = local_maxima(grid, j as nat);
        let c = coord_at(grid.width, j);
        if is_local_maximum(grid, j % grid.width, j / grid.width) {
            assert(rest.push(c).contains((x as i32, y as i32)) <==> rest.contains(
                (x as i32, y as i32),
            ) || c == (x as i32, y as i32)) by {
                if rest.contains((x as i32, y as i32)) {
                    let i = choose|i: int| 0 <= i < rest.len() && rest[i] == (x as i32, y as i32);
                    assert(rest.push(c)[i] == (x as i32, y as i32));
                }
                if c == (x as i32, y as i32) {
                    assert(rest.push(c)[rest.len() as int] == c);
                }
            }
        }
    }
}

/// The local maxima are listed in row-major order, none twice.
pub proof fn lemma_local_maxima_ascend(grid: Grid<u32>, k: nat, i: int, j: int)
    requires
        grid.wf(),
        grid.width <= i32::MAX,
        grid.height <= i32::MAX,
        k <= grid.cells.len(),
        0 <= i <= j < local_maxima(grid, k).len(),
    ensures
        is_local_maximum(grid, local_maxima(grid, k)[j].0 as int, local_maxima(grid, k)[j].1 as int),
        grid.offset(local_maxima(grid, k)[j].0 as int, local_maxima(grid, k)[j].1 as int) < k,
        i < j ==> grid.offset(local_maxima(grid, k)[i].0 as int, local_maxima(grid, k)[i].1 as int)
            < grid.offset(local_maxima(grid, k)[j].0 as int, local_maxima(grid, k)[j].1 as int),
        local_maxima(grid, k).len() <= k,
    decreases k,
{
    let rest = local_maxima(grid, (k - 1) as nat);
    lemma_coord_in_bounds(grid.width, grid.height, k - 1);
    if j < rest.len() {
        lemma_local_maxima_ascend(grid, (k - 1) as nat, i, j);
    } else if i < j {
        lemma_local_maxima_ascend(grid, (k - 1) as nat, i, i);
    } else if rest.len() > 0 {
        lemma_local_maxima_ascend(grid, (k - 1) as nat, 0, 0);
    }
}

/// A grid whose cells all hold the same value has no local maximum.
pub proof fn lemma_constant_grid_has_no_local_maximum(grid: Grid<u32>, k: nat)
    requires
        forall|i: int, j: int|
            0 <= i < grid.cells.len() && 0 <= j < grid.cells.len() ==> grid.cells[i]
                == grid.cells[j],
        grid.wf(),
        k <= grid.cells.len(),
    ensures
        local_maxima(grid, k) == Seq::<(i32, i32)>::empty(),
    decreases k,
{
    if k > 0 {
        let j = k - 1;
        lemma_constant_grid_has_no_local_maximum(grid, j as nat);
        lemma_coord_in_bounds(grid.width, grid.height, j);
        let (x, y) = (j % grid.width, j / grid.width);
        if 1 <= x <= grid.width - 2 {
            lemma_offset_in_range(grid.width, grid.height, x, y);
            lemma_offset_in_range(grid.width, grid.height, x - 1, y);
        }
    }
}

/// The cells that stand strictly above their four neighbours, in row-major
/// order. Cells on the rim of the grid are never among them.
pub fn find_local_maxima(array: &Array2D<u32>) -> (result: Vec<(i32, i32)>)
    requires
        array@.wf(),
    ensures
        result@ == local_maxima(array@, array@.cells.len()),
{
    let width = array.width();
    let height = array.height();
    let ghost grid = array@;
    let mut result: Vec<(i32, i32)> = Vec::new();
    let mut y: i32 = 0;
    while y < height
        invariant
            grid == array@,
            grid.wf(),
            width == grid.width,
            height == grid.height,
            0 <= y <= height,
            result@ == local_maxima(grid, (y * width) as nat),
        decreases height - y,
    {
        let mut x: i32 = 0;
        while x < width
            invariant
                grid == array@,
                grid.wf(),
                width == grid.width,
                height == grid.height,
                0 <= y < height,
                0 <= x <= width,
                result@ == local_maxima(grid, (y * width + x) as nat),
            decreases width - x,
        {
            proof {
                lemma_offset_in_range(width as int, height as int, x as int, y as int);
            }
            if 1 <= x && x < width - 1 && 1 <= y && y < height - 1 {
                let here = *array.get(x, y);
                if here > *array.get(x - 1, y) && here > *array.get(x + 1, y) && here > *array.get(
                    x,
                    y - 1,
                ) && here > *array.get(x, y + 1) {
                    result.push((x, y));
                }
            }
            x += 1;
        }
        proof {
            assert((y + 1) * width == y * width + width) by (nonlinear_arith);
        }
        y += 1;
    }
    proof {
        assert(grid.cells.len() == height * width) by (nonlinear_arith)
            requires
                grid.cells.len() == width * height,
        ;
    }
    result
}

} // verus!
