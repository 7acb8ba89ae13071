//! Union-find over the cells of a grid.

use vstd::prelude::*;
use crate::array_2d::{coord_at, lemma_coord_in_bounds, lemma_offset_in_range};
use crate::disjoint_set::DisjointSet;
use crate::partition::{is_partition, merge, representatives, singletons};

verus! {

/// A partition of the cells of a `width` by `height` grid that can only grow
/// coarser. Cells are numbered in row-major order.
pub struct DisjointSet2D {
    width: i32,
    height: i32,
    sets: DisjointSet,
}

impl View for DisjointSet2D {
    type V = Seq<int>;

    /// The number of the representative of every cell.
    closed spec fn view(&self) -> Seq<int> {
        self.sets@
    }
}

impl DisjointSet2D {
    /// The number of columns of the grid.
    pub closed spec fn spec_width(&self) -> int {
        self.width as int
    }

    /// The number of rows of the grid.
    pub closed spec fn spec_height(&self) -> int {
        self.height as int
    }

    /// The classes are a partition of the cells of the grid.
    pub closed spec fn wf(&self) -> bool {
        &&& self.sets.wf()
        &&& self.width >= 1
        &&& self.height >= 1
        &&& self.sets@.len() == self.width * self.height
    }

    /// The grid has a cell at `location`.
    pub open spec fn in_bounds(&self, location: (i32, i32)) -> bool {
        0 <= location.0 < self.spec_width() && 0 <= location.1 < self.spec_height()
    }

    /// The number of the cell at `location`.
    pub open spec fn offset(&self, location: (i32, i32)) -> int {
        location.1 * self.spec_width() + location.0
    }

    /// The cell that represents the class of the cell at `location`.
    pub open spec fn representative(&self, location: (i32, i32)) -> (i32, i32) {
        coord_at(self.spec_width(), self@[self.offset(location)])
    }

    /// A well-formed set is a partition of the cells `0..width * height`.
    pub proof fn lemma_view(&self)
        requires
            self.wf(),
        ensures
            is_partition(self@),
            self@.len() == self.spec_width() * self.spec_height(),
            self.spec_width() >= 1,
            self.spec_height() >= 1,
    {
        self.sets.lemma_view();
    }

    /// The partition of the grid into single cells.
    pub fn new(width: i32, height: i32) -> (r: Self)
        requires
            width >= 1,
            height >= 1,
            width * height <= i32::MAX,
        ensures
            r.wf(),
            r.spec_width() == width,
            r.spec_height() == height,
            r@ == singletons((width * height) as nat),
    {
        assert(width * height >= 1) by (nonlinear_arith)
            requires
                width >= 1,
                height >= 1,
        ;
        DisjointSet2D { width, height, sets: DisjointSet::new(width * height) }
    }

    fn cell_number(&self, location: (i32, i32)) -> (k: i32)
        requires
            self.wf(),
            self.in_bounds(location),
        ensures
            k == self.offset(location),
            0 <= k < self@.len(),
    {
        proof {
            self.sets.lemma_view();
            lemma_offset_in_range(
                self.width as int,
                self.height as int,
                location.0 as int,
                location.1 as int,
            );
            assert(0 <= location.1 * self.width <= location.1 * self.width + location.0);
        }
        location.1 * self.width + location.0
    }

    /// The representative of the cell at `location`. Links along the way are
    /// shortened; the partition is unchanged.
    pub fn find_parent(&mut self, location: (i32, i32)) -> (r: (i32, i32))
        requires
            old(self).wf(),
            old(self).in_bounds(location),
        ensures
            final(self).wf(),
            final(self).spec_width() == old(self).spec_width(),
            final(self).spec_height() == old(self).spec_height(),
            final(self)@ == old(self)@,
            r == old(self).representative(location),
            final(self).in_bounds(r),
            final(self).offset(r) == old(self)@[old(self).offset(location)],
    {
        let k = self.cell_number(location);
        let p = self.sets.find_parent(k);
        proof {
            self.sets.lemma_view();
            assert(0 <= self@[k as int] < self@.len());
            lemma_coord_in_bounds(self.width as int, self.height as int, p as int);
        }
        (p % self.width, p / self.width)
    }

    /// Joins the class of the cell at `location1` to the class of the cell
    /// at `location2`: the representative of the second now stands for both.
    pub fn union(&mut self, location1: (i32, i32), location2: (i32, i32))
        requires
            old(self).wf(),
            old(self).in_bounds(location1),
            old(self).in_bounds(location2),
        ensures
            final(self).wf(),
            final(self).spec_width() == old(self).spec_width(),
            final(self).spec_height() == old(self).spec_height(),
            final(self)@ == merge(old(self)@, old(self).offset(location1), old(self).offset(location2)),
    {
        let k1 = self.cell_number(location1);
        let k2 = self.cell_number(location2);
        self.sets.union(k1, k2);
    }

    /// The number of classes.
    pub fn num_unique_sets(&self) -> (r: i32)
        requires
            self.wf(),
        ensures
            r == representatives(self@).len(),
    {
        self.sets.num_unique_sets()
    }
}

} // verus!
