//! What is kept of a cluster: how many cells it has and where it peaks.

use vstd::prelude::*;
use crate::array_2d::Grid;

verus! {

/// The size of a cluster and its highest density level. A cluster without
/// a cell above level 0 has the peak level 0 at `(-1, -1)`.
#[derive(Clone, Copy, Debug)]
pub struct ClusterSummary {
    pub num_pixels: usize,
    pub max_density: u32,
    pub max_density_location: (i32, i32),
}

/// The summary of no cells at all.
pub open spec fn zero_summary() -> ClusterSummary {
    ClusterSummary { num_pixels: 0, max_density: 0, max_density_location: (-1i32, -1i32) }
}

/// The summary `s` after one more cell at `location` with the level
/// `density`. The peak moves only to a strictly higher cell.
pub open spec fn updated(s: ClusterSummary, location: (i32, i32), density: u32) -> ClusterSummary {
    ClusterSummary {
        num_pixels: (s.num_pixels + 1) as usize,
        max_density: if density > s.max_density {
            density
        } else {
            s.max_density
        },
        max_density_location: if density > s.max_density {
            location
        } else {
            s.max_density_location
        },
    }
}

/// The summary of the cells of `s` and of `other` together. The peak is
/// that of `other` only where it is strictly higher.
pub open spec fn merged(s: ClusterSummary, other: ClusterSummary) -> ClusterSummary {
    ClusterSummary {
        num_pixels: (s.num_pixels + other.num_pixels) as usize,
        max_density: if other.max_density > s.max_density {
            other.max_density
        } else {
            s.max_density
        },
        max_density_location: if other.max_density > s.max_density {
            other.max_density_location
        } else {
            s.max_density_location
        },
    }
}

/// `s` is a summary of the set `cells` of the raster `levels`: it counts
/// them, no cell is above its peak level, and its peak is at one of the
/// cells with that level, or at `(-1, -1)` where no cell is above level 0.
pub open spec fn summarizes(levels: Grid<u32>, cells: Set<(int, int)>, s: ClusterSummary) -> bool {
    &&& cells.finite()
    &&& s.num_pixels == cells.len()
    &&& forall|p: (int, int)| cells.contains(p) ==> levels.at(p.0, p.1) <= s.max_density
    &&& if s.max_density > 0 {
        &&& cells.contains((s.max_density_location.0 as int, s.max_density_location.1 as int))
        &&& levels.at(s.max_density_location.0 as int, s.max_density_location.1 as int)
            == s.max_density
    } else {
        s.max_density_location == (-1i32, -1i32)
    }
}

/// One more cell in the set, one more update of the summary.
pub proof fn lemma_updated_summarizes(
    levels: Grid<u32>,
    cells: Set<(int, int)>,
    s: ClusterSummary,
    location: (i32, i32),
)
    requires
        summarizes(levels, cells, s),
        !cells.contains((location.0 as int, location.1 as int)),
        s.num_pixels < usize::MAX,
    ensures
        summarizes(
            levels,
            cells.insert((location.0 as int, location.1 as int)),
            updated(s, location, levels.at(location.0 as int, location.1 as int)),
        ),
{
}

/// The summaries of two sets without a common cell merge into a summary of
/// their union.
pub proof fn lemma_merged_summarizes(
    levels: Grid<u32>,
    a: Set<(int, int)>,
    b: Set<(int, int)>,
    s: ClusterSummary,
    other: ClusterSummary,
)
    requires
        summarizes(levels, a, s),
        summarizes(levels, b, other),
        a.disjoint(b),
        s.num_pixels + other.num_pixels <= usize::MAX,
    ensures
        summarizes(levels, a.union(b), merged(s, other)),
{
    vstd::set_lib::lemma_set_disjoint_lens(a, b);
}

/// Merging summaries adds the counts and takes the higher peak level,
/// whatever the order; only the place of the peak can depend on the order,
/// and only between equal levels.
pub proof fn lemma_merged_commutes_and_associates(a: ClusterSummary, b: ClusterSummary, c: ClusterSummary)
    requires
        a.num_pixels + b.num_pixels + c.num_pixels <= usize::MAX,
    ensures
        merged(a, b).num_pixels == merged(b, a).num_pixels,
        merged(a, b).max_density == merged(b, a).max_density,
        merged(merged(a, b), c) == merged(a, merged(b, c)),
        a.max_density != b.max_density ==> merged(a, b) == merged(b, a),
{
}

impl ClusterSummary {
    /// The summary of no cells at all.
    pub fn zero() -> (r: ClusterSummary)
        ensures
            r == zero_summary(),
    {
        ClusterSummary { num_pixels: 0, max_density: 0, max_density_location: (-1, -1) }
    }

    /// Takes one more cell into the summary.
    pub fn update(&mut self, location: (i32, i32), density: u32)
        requires
            old(self).num_pixels < usize::MAX,
        ensures
            *final(self) == updated(*old(self), location, density),
    {
        if density > self.max_density {
            self.max_density = density;
            self.max_density_location = location;
        }
        self.num_pixels += 1;
    }

    /// Takes the cells of another summary into this one.
    pub fn update_with_summary(&mut self, other: &Self)
        requires
            old(self).num_pixels + other.num_pixels <= usize::MAX,
        ensures
            *final(self) == merged(*old(self), *other),
    {
        if other.max_density > self.max_density {
            self.max_density = other.max_density;
            self.max_density_location = other.max_density_location;
        }
        self.num_pixels += other.num_pixels;
    }
}

} // verus!
