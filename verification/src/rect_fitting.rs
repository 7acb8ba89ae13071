//! Rectangles that cover the part of a bounding box which a region takes
//! up, found by halving the box again and again.
//!
//! Coordinates are whole numbers that stand for the coordinates of the
//! region in their order. How much of a rectangle the region takes up, and
//! where a rectangle is halved, is handed in as a tree.

use vstd::prelude::*;

verus! {

/// The rectangle from `(x0, y0)` to `(x1, y1)`.
#[derive(Clone, Copy, Debug)]
pub struct Rect {
    pub x0: i64,
    pub y0: i64,
    pub x1: i64,
    pub y1: i64,
}

/// How much of a rectangle a region takes up: all of it, none of it, or
/// some of it, and then the same for its two halves on either side of
/// `mid`.
#[derive(Debug)]
pub enum Coverage {
    Covered,
    Empty,
    Mixed { mid: i64, low: Box<Coverage>, high: Box<Coverage> },
}

/// The level below which a rectangle is halved no further.
pub const DEEPEST_LEVEL: u8 = 11;

impl Rect {
    /// The corners are in order.
    pub open spec fn wf(self) -> bool {
        self.x0 <= self.x1 && self.y0 <= self.y1
    }

    /// The point lies in the rectangle, its lower sides counted in and its
    /// upper sides not.
    pub open spec fn covers(self, x: int, y: int) -> bool {
        self.x0 <= x < self.x1 && self.y0 <= y < self.y1
    }

    /// The rectangle lies in `outer`.
    pub open spec fn within(self, outer: Rect) -> bool {
        &&& outer.x0 <= self.x0
        &&& self.x1 <= outer.x1
        &&& outer.y0 <= self.y0
        &&& self.y1 <= outer.y1
    }

    /// No point lies in both rectangles.
    pub open spec fn disjoint(self, other: Rect) -> bool {
        ||| self.x1 <= other.x0
        ||| other.x1 <= self.x0
        ||| self.y1 <= other.y0
        ||| other.y1 <= self.y0
        ||| self.x1 <= self.x0
        ||| self.y1 <= self.y0
        ||| other.x1 <= other.x0
        ||| other.y1 <= other.y0
    }

    /// The two halves of the rectangle on either side of `mid`: left and
    /// right on an even level, upper and lower on an odd one.
    pub open spec fn halves(self, level: int, mid: i64) -> (Rect, Rect) {
        if level % 2 == 0 {
            (Rect { x1: mid, ..self }, Rect { x0: mid, ..self })
        } else {
            (Rect { y1: mid, ..self }, Rect { y0: mid, ..self })
        }
    }
}

/// Rectangles that do not overlap are those that share no point.
pub proof fn lemma_disjoint_shares_no_point(a: Rect, b: Rect)
    ensures
        a.disjoint(b) <==> forall|x: int, y: int| !(a.covers(x, y) && b.covers(x, y)),
{
    if !a.disjoint(b) {
        let x = if a.x0 >= b.x0 {
            a.x0 as int
        } else {
            b.x0 as int
        };
        let y = if a.y0 >= b.y0 {
            a.y0 as int
        } else {
            b.y0 as int
        };
        assert(a.covers(x, y) && b.covers(x, y));
    }
}

/// The point is a corner of one of the polygons.
pub open spec fn is_corner(polygons: Seq<Vec<(i64, i64)>>, p: (i64, i64)) -> bool {
    exists|i: int, j: int|
        0 <= i < polygons.len() && 0 <= j < polygons[i]@.len() && #[trigger] polygons[i]@[j] == p
}

/// `r` is the least rectangle with every corner of the polygons in it or
/// on its sides.
pub open spec fn is_bounding_rect(polygons: Seq<Vec<(i64, i64)>>, r: Rect) -> bool {
    &&& forall|p: (i64, i64)| #[trigger]
        is_corner(polygons, p) ==> r.x0 <= p.0 <= r.x1 && r.y0 <= p.1 <= r.y1
    &&& exists|p: (i64, i64)| #[trigger] is_corner(polygons, p) && p.0 == r.x0
    &&& exists|p: (i64, i64)| #[trigger] is_corner(polygons, p) && p.0 == r.x1
    &&& exists|p: (i64, i64)| #[trigger] is_corner(polygons, p) && p.1 == r.y0
    &&& exists|p: (i64, i64)| #[trigger] is_corner(polygons, p) && p.1 == r.y1
}

/// The corners among the first `i` polygons and the first `j` corners of
/// the next.
spec fn is_corner_before(polygons: Seq<Vec<(i64, i64)>>, i: int, j: int, p: (i64, i64)) -> bool {
    exists|a: int, b: int|
        0 <= a < polygons.len() && 0 <= b < polygons[a]@.len() && (a < i || (a == i && b < j))
            && #[trigger] polygons[a]@[b] == p
}

spec fn bounds_before(polygons: Seq<Vec<(i64, i64)>>, i: int, j: int, r: Option<Rect>) -> bool {
    match r {
        Some(r) => {
            &&& forall|p: (i64, i64)| #[trigger]
                is_corner_before(polygons, i, j, p) ==> r.x0 <= p.0 <= r.x1 && r.y0 <= p.1 <= r.y1
            &&& exists|p: (i64, i64)| #[trigger] is_corner_before(polygons, i, j, p) && p.0 == r.x0
            &&& exists|p: (i64, i64)| #[trigger] is_corner_before(polygons, i, j, p) && p.0 == r.x1
            &&& exists|p: (i64, i64)| #[trigger] is_corner_before(polygons, i, j, p) && p.1 == r.y0
            &&& exists|p: (i64, i64)| #[trigger] is_corner_before(polygons, i, j, p) && p.1 == r.y1
        },
        None => forall|p: (i64, i64)| !#[trigger] is_corner_before(polygons, i, j, p),
    }
}

/// The bounds of the corners seen so far, with one more corner.
fn widened(r: Option<Rect>, p: (i64, i64)) -> (w: Rect)
    ensures
        w == match r {
            Some(r) => Rect {
                x0: if p.0 < r.x0 {
                    p.0
                } else {
                    r.x0
                },
                y0: if p.1 < r.y0 {
                    p.1
                } else {
                    r.y0
                },
                x1: if p.0 > r.x1 {
                    p.0
                } else {
                    r.x1
                },
                y1: if p.1 > r.y1 {
                    p.1
                } else {
                    r.y1
                },
            },
            None => Rect { x0: p.0, y0: p.1, x1: p.0, y1: p.1 },
        },
{
    match r {
        Some(r) => Rect {
            x0: if p.0 < r.x0 {
                p.0
            } else {
                r.x0
            },
            y0: if p.1 < r.y0 {
                p.1
            } else {
                r.y0
            },
            x1: if p.0 > r.x1 {
                p.0
            } else {
                r.x1
            },
            y1: if p.1 > r.y1 {
                p.1
            } else {
                r.y1
            },
        },
        None => Rect { x0: p.0, y0: p.1, x1: p.0, y1: p.1 },
    }
}

proof fn lemma_widened(
    polygons: Seq<Vec<(i64, i64)>>,
    i: int,
    j: int,
    r: Option<Rect>,
    w: Rect,
)
    requires
        0 <= i < polygons.len(),
        0 <= j < polygons[i]@.len(),
        bounds_before(polygons, i, j, r),
        w == match r {
            Some(r) => Rect {
                x0: if polygons[i]@[j].0 < r.x0 {
                    polygons[i]@[j].0
                } else {
                    r.x0
                },
                y0: if polygons[i]@[j].1 < r.y0 {
                    polygons[i]@[j].1
                } else {
                    r.y0
                },
                x1: if polygons[i]@[j].0 > r.x1 {
                    polygons[i]@[j].0
                } else {
                    r.x1
                },
                y1: if polygons[i]@[j].1 > r.y1 {
                    polygons[i]@[j].1
                } else {
                    r.y1
                },
            },
            None => Rect {
                x0: polygons[i]@[j].0,
                y0: polygons[i]@[j].1,
                x1: polygons[i]@[j].0,
                y1: polygons[i]@[j].1,
            },
        },
    ensures
        bounds_before(polygons, i, j + 1, Some(w)),
{
    let here = polygons[i]@[j];
    assert(is_corner_before(polygons, i, j + 1, here));
    assert forall|p: (i64, i64)| #[trigger] is_corner_before(polygons, i, j + 1, p) implies w.x0
        <= p.0 <= w.x1 && w.y0 <= p.1 <= w.y1 by {
        let (a, b) = choose|a: int, b: int|
            0 <= a < polygons.len() && 0 <= b < polygons[a]@.len() && (a < i || (a == i && b < j
                + 1)) && #[trigger] polygons[a]@[b] == p;
        if !(a == i && b == j) {
            assert(is_corner_before(polygons, i, j, p));
        }
    }
    match r {
        Some(r) => {
            let px0 = choose|p: (i64, i64)| #[trigger]
                is_corner_before(polygons, i, j, p) && p.0 == r.x0;
            let px1 = choose|p: (i64, i64)| #[trigger]
                is_corner_before(polygons, i, j, p) && p.0 == r.x1;
            let py0 = choose|p: (i64, i64)| #[trigger]
                is_corner_before(polygons, i, j, p) && p.1 == r.y0;
            let py1 = choose|p: (i64, i64)| #[trigger]
                is_corner_before(polygons, i, j, p) && p.1 == r.y1;
            lemma_corner_stays(polygons, i, j, px0);
            lemma_corner_stays(polygons, i, j, px1);
            lemma_corner_stays(polygons, i, j, py0);
            lemma_corner_stays(polygons, i, j, py1);
            let qx0 = if here.0 < r.x0 {
                here
            } else {
                px0
            };
            let qx1 = if here.0 > r.x1 {
                here
            } else {
                px1
            };
            let qy0 = if here.1 < r.y0 {
                here
            } else {
                py0
            };
            let qy1 = if here.1 > r.y1 {
                here
            } else {
                py1
            };
            assert(is_corner_before(polygons, i, j + 1, qx0) && qx0.0 == w.x0);
            assert(is_corner_before(polygons, i, j + 1, qx1) && qx1.0 == w.x1);
            assert(is_corner_before(polygons, i, j + 1, qy0) && qy0.1 == w.y0);
            assert(is_corner_before(polygons, i, j + 1, qy1) && qy1.1 == w.y1);
        },
        None => {},
    }
}

proof fn lemma_corner_stays(polygons: Seq<Vec<(i64, i64)>>, i: int, j: int, p: (i64, i64))
    requires
        is_corner_before(polygons, i, j, p),
    ensures
        is_corner_before(polygons, i, j + 1, p),
        is_corner_before(polygons, i + 1, 0, p) || j < polygons[i]@.len() || i >= polygons.len(),
{
    let (a, b) = choose|a: int, b: int|
        0 <= a < polygons.len() && 0 <= b < polygons[a]@.len() && (a < i || (a == i && b < j))
            && #[trigger] polygons[a]@[b] == p;
    assert(polygons[a]@[b] == p);
}

/// The least rectangle with every corner of the polygons in it or on its
/// sides; `None` where the polygons have no corner.
pub fn polygon_bounding_rect(polygons: &Vec<Vec<(i64, i64)>>) -> (r: Option<Rect>)
    ensures
        match r {
            Some(r) => is_bounding_rect(polygons@, r) && r.wf(),
            None => forall|p: (i64, i64)| !#[trigger] is_corner(polygons@, p),
        },
{
    let mut bounds: Option<Rect> = None;
    let mut i: usize = 0;
    while i < polygons.len()
        invariant
            i <= polygons@.len(),
            bounds_before(polygons@, i as int, 0, bounds),
        decreases polygons@.len() - i,
    {
        let polygon = &polygons[i];
        let mut j: usize = 0;
        while j < polygon.len()
            invariant
                i < polygons@.len(),
                polygon@ == polygons@[i as int]@,
                j <= polygon@.len(),
                bounds_before(polygons@, i as int, j as int, bounds),
            decreases polygon@.len() - j,
        {
            let w = widened(bounds, polygon[j]);
            proof {
                lemma_widened(polygons@, i as int, j as int, bounds, w);
            }
            bounds = Some(w);
            j += 1;
        }
        proof {
            lemma_next_polygon(polygons@, i as int, bounds);
        }
        i += 1;
    }
    proof {
        lemma_all_polygons(polygons@, bounds);
    }
    bounds
}

proof fn lemma_next_polygon(polygons: Seq<Vec<(i64, i64)>>, i: int, r: Option<Rect>)
    requires
        0 <= i < polygons.len(),
        bounds_before(polygons, i, polygons[i]@.len() as int, r),
    ensures
        bounds_before(polygons, i + 1, 0, r),
{
    let n = polygons[i]@.len() as int;
    assert forall|p: (i64, i64)|
        is_corner_before(polygons, i + 1, 0, p) <==> is_corner_before(polygons, i, n, p) by {
        if is_corner_before(polygons, i + 1, 0, p) {
            let (a, b) = choose|a: int, b: int|
                0 <= a < polygons.len() && 0 <= b < polygons[a]@.len() && (a < i + 1 || (a == i + 1
                    && b < 0)) && #[trigger] polygons[a]@[b] == p;
            assert(polygons[a]@[b] == p);
        }
        if is_corner_before(polygons, i, n, p) {
            let (a, b) = choose|a: int, b: int|
                0 <= a < polygons.len() && 0 <= b < polygons[a]@.len() && (a < i || (a == i && b
                    < n)) && #[trigger] polygons[a]@[b] == p;
            assert(polygons[a]@[b] == p);
        }
    }
    match r {
        Some(r) => {
            let px0 = choose|p: (i64, i64)| #[trigger]
                is_corner_before(polygons, i, n, p) && p.0 == r.x0;
            let px1 = choose|p: (i64, i64)| #[trigger]
                is_corner_before(polygons, i, n, p) && p.0 == r.x1;
            let py0 = choose|p: (i64, i64)| #[trigger]
                is_corner_before(polygons, i, n, p) && p.1 == r.y0;
            let py1 = choose|p: (i64, i64)| #[trigger]
                is_corner_before(polygons, i, n, p) && p.1 == r.y1;
            assert(is_corner_before(polygons, i + 1, 0, px0) && px0.0 == r.x0);
            assert(is_corner_before(polygons, i + 1, 0, px1) && px1.0 == r.x1);
            assert(is_corner_before(polygons, i + 1, 0, py0) && py0.1 == r.y0);
            assert(is_corner_before(polygons, i + 1, 0, py1) && py1.1 == r.y1);
            assert forall|p: (i64, i64)| #[trigger]
                is_corner_before(polygons, i + 1, 0, p) implies r.x0 <= p.0 <= r.x1 && r.y0 <= p.1
                <= r.y1 by {
                assert(is_corner_before(polygons, i, n, p));
            }
        },
        None => {
            assert forall|p: (i64, i64)| !#[trigger] is_corner_before(polygons, i + 1, 0, p) by {
                assert(!is_corner_before(polygons, i, n, p));
            }
        },
    }
}

proof fn lemma_all_polygons(polygons: Seq<Vec<(i64, i64)>>, r: Option<Rect>)
    requires
        bounds_before(polygons, polygons.len() as int, 0, r),
    ensures
        match r {
            Some(r) => is_bounding_rect(polygons, r) && r.wf(),
            None => forall|p: (i64, i64)| !#[trigger] is_corner(polygons, p),
        },
{
    let n = polygons.len() as int;
    assert forall|p: (i64, i64)| is_corner(polygons, p) <==> is_corner_before(
        polygons,
        n,
        0,
        p,
    ) by {
        if is_corner(polygons, p) {
            let (a, b) = choose|a: int, b: int|
                0 <= a < polygons.len() && 0 <= b < polygons[a]@.len() && #[trigger] polygons[a]@[b]
                    == p;
            assert(polygons[a]@[b] == p);
        }
        if is_corner_before(polygons, n, 0, p) {
            let (a, b) = choose|a: int, b: int|
                0 <= a < polygons.len() && 0 <= b < polygons[a]@.len() && (a < n || (a == n && b
                    < 0)) && #[trigger] polygons[a]@[b] == p;
            assert(polygons[a]@[b] == p);
        }
    }
    match r {
        Some(r) => {
            let px0 = choose|p: (i64, i64)| #[trigger]
                is_corner_before(polygons, n, 0, p) && p.0 == r.x0;
            let px1 = choose|p: (i64, i64)| #[trigger]
                is_corner_before(polygons, n, 0, p) && p.0 == r.x1;
            let py0 = choose|p: (i64, i64)| #[trigger]
                is_corner_before(polygons, n, 0, p) && p.1 == r.y0;
            let py1 = choose|p: (i64, i64)| #[trigger]
                is_corner_before(polygons, n, 0, p) && p.1 == r.y1;
            assert(is_corner(polygons, px0) && px0.0 == r.x0);
            assert(is_corner(polygons, px1) && px1.0 == r.x1);
            assert(is_corner(polygons, py0) && py0.1 == r.y0);
            assert(is_corner(polygons, py1) && py1.1 == r.y1);
            assert forall|p: (i64, i64)| #[trigger] is_corner(polygons, p) implies r.x0 <= p.0
                <= r.x1 && r.y0 <= p.1 <= r.y1 by {
                assert(is_corner_before(polygons, n, 0, p));
            }
        },
        None => {
            assert forall|p: (i64, i64)| !#[trigger] is_corner(polygons, p) by {
                assert(!is_corner_before(polygons, n, 0, p));
            }
        },
    }
}

/// The rectangles emitted for `rect` at `level` under the coverage `tree`,
/// and whether all of `rect` counts as covered. A covered rectangle is
/// emitted whole; a mixed one is halved, down to the deepest level, and
/// emitted whole where both halves count as covered; below the deepest
/// level a mixed rectangle counts as covered and nothing is emitted for it.
pub open spec fn fitted(tree: Coverage, rect: Rect, level: int) -> (Seq<Rect>, bool)
    decreases tree,
{
    match tree {
        Coverage::Covered => (seq![rect], true),
        Coverage::Empty => (Seq::empty(), false),
        Coverage::Mixed { mid, low, high } => if level <= DEEPEST_LEVEL {
            let first = fitted(*low, rect.halves(level, mid).0, level + 1);
            let second = fitted(*high, rect.halves(level, mid).1, level + 1);
            if first.1 && second.1 {
                (seq![rect], true)
            } else {
                (first.0 + second.0, false)
            }
        } else {
            (Seq::empty(), true)
        },
    }
}

/// Wherever the tree halves a rectangle, it does so between two of its
/// sides.
pub open spec fn halves_inside(tree: Coverage, rect: Rect, level: int) -> bool
    decreases tree,
{
    match tree {
        Coverage::Mixed { mid, low, high } => level <= DEEPEST_LEVEL ==> {
            &&& if level % 2 == 0 {
                rect.x0 <= mid <= rect.x1
            } else {
                rect.y0 <= mid <= rect.y1
            }
            &&& halves_inside(*low, rect.halves(level, mid).0, level + 1)
            &&& halves_inside(*high, rect.halves(level, mid).1, level + 1)
        },
        _ => true,
    }
}

/// The rectangles are well formed, lie in `outer`, and no two of them
/// share a point.
pub open spec fn tiles(rects: Seq<Rect>, outer: Rect) -> bool {
    &&& forall|i: int| 0 <= i < rects.len() ==> (#[trigger] rects[i]).wf() && rects[i].within(outer)
    &&& forall|i: int, j: int|
        0 <= i < j < rects.len() ==> (#[trigger] rects[i]).disjoint(#[trigger] rects[j])
}

/// The rectangles emitted for a rectangle lie in it, and no two of them
/// share a point.
pub proof fn lemma_fitted_tiles(tree: Coverage, rect: Rect, level: int)
    requires
        rect.wf(),
        halves_inside(tree, rect, level),
    ensures
        tiles(fitted(tree, rect, level).0, rect),
    decreases tree,
{
    match tree {
        Coverage::Mixed { mid, low, high } => {
            if level <= DEEPEST_LEVEL {
                let (r1, r2) = rect.halves(level, mid);
                lemma_fitted_tiles(*low, r1, level + 1);
                lemma_fitted_tiles(*high, r2, level + 1);
                let first = fitted(*low, r1, level + 1);
                let second = fitted(*high, r2, level + 1);
                if !(first.1 && second.1) {
                    let all = first.0 + second.0;
                    assert forall|i: int| 0 <= i < all.len() implies (#[trigger] all[i]).wf()
                        && all[i].within(rect) by {
                        if i < first.0.len() {
                            assert(all[i] == first.0[i]);
                            assert(first.0[i].within(r1));
                        } else {
                            assert(all[i] == second.0[i - first.0.len()]);
                            assert(second.0[i - first.0.len()].within(r2));
                        }
                    }
                    assert forall|i: int, j: int| 0 <= i < j < all.len() implies (
                    #[trigger] all[i]).disjoint(#[trigger] all[j]) by {
                        if j < first.0.len() {
                            assert(all[i] == first.0[i] && all[j] == first.0[j]);
                        } else if i >= first.0.len() {
                            assert(all[i] == second.0[i - first.0.len()]);
                            assert(all[j] == second.0[j - first.0.len()]);
                        } else {
                            assert(all[i] == first.0[i]);
                            assert(all[j] == second.0[j - first.0.len()]);
                            assert(first.0[i].within(r1) && first.0[i].wf());
                            assert(second.0[j - first.0.len()].within(r2));
                        }
                    }
                }
            }
        },
        _ => {},
    }
}

/// Emits the rectangles for `rect` at `level` under the coverage `tree`:
/// appends them to `output` and tells whether all of `rect` counts as
/// covered.
pub fn rects_from_coverage(tree: &Coverage, rect: Rect, level: u8, output: &mut Vec<Rect>) -> (covered:
    bool)
    ensures
        final(output)@ == old(output)@ + fitted(*tree, rect, level as int).0,
        covered == fitted(*tree, rect, level as int).1,
    decreases *tree,
{
    match tree {
        Coverage::Covered => {
            output.push(rect);
            proof {
                assert(output@ =~= old(output)@ + seq![rect]);
            }
            true
        },
        Coverage::Empty => {
            proof {
                assert(output@ =~= old(output)@ + Seq::<Rect>::empty());
            }
            false
        },
        Coverage::Mixed { mid, low, high } => {
            if level <= DEEPEST_LEVEL {
                let (r1, r2) = if level % 2 == 0 {
                    (
                        Rect { x0: rect.x0, y0: rect.y0, x1: *mid, y1: rect.y1 },
                        Rect { x0: *mid, y0: rect.y0, x1: rect.x1, y1: rect.y1 },
                    )
                } else {
                    (
                        Rect { x0: rect.x0, y0: rect.y0, x1: rect.x1, y1: *mid },
                        Rect { x0: rect.x0, y0: *mid, x1: rect.x1, y1: rect.y1 },
                    )
                };
                assert((r1, r2) == rect.halves(level as int, *mid));
                let cnt = output.len();
                let c1 = rects_from_coverage(&**low, r1, level + 1, output);
                let ghost middle = output@;
                let c2 = rects_from_coverage(&**high, r2, level + 1, output);
                if c1 && c2 {
                    proof {
                        assert(output@.take(cnt as int) =~= old(output)@);
                    }
                    output.truncate(cnt);
                    output.push(rect);
                    proof {
                        assert(output@ =~= old(output)@ + seq![rect]);
                    }
                    true
                } else {
                    proof {
                        assert(output@ =~= old(output)@ + (fitted(**low, r1, level + 1).0 + fitted(
                            **high,
                            r2,
                            level + 1,
                        ).0));
                    }
                    false
                }
            } else {
                proof {
                    assert(output@ =~= old(output)@ + Seq::<Rect>::empty());
                }
                true
            }
        },
    }
}

/// The rectangle that two rectangles make up together, if they share a
/// whole side: two with the same left and right sides of which one ends
/// where the other begins, or two with the same upper and lower sides.
pub open spec fn union_of(r1: Rect, r2: Rect) -> Option<Rect> {
    if r1.x0 == r2.x0 && r1.x1 == r2.x1 {
        if r1.y1 == r2.y0 {
            Some(Rect { x0: r1.x0, y0: r1.y0, x1: r1.x1, y1: r2.y1 })
        } else if r2.y1 == r1.y0 {
            Some(Rect { x0: r1.x0, y0: r2.y0, x1: r1.x1, y1: r1.y1 })
        } else {
            None
        }
    } else if r1.y0 == r2.y0 && r1.y1 == r2.y1 {
        if r1.x1 == r2.x0 {
            Some(Rect { x0: r1.x0, y0: r1.y0, x1: r2.x1, y1: r1.y1 })
        } else if r2.x1 == r1.x0 {
            Some(Rect { x0: r2.x0, y0: r1.y0, x1: r1.x1, y1: r1.y1 })
        } else {
            None
        }
    } else {
        None
    }
}

/// The rectangle that `r1` and `r2` make up together, if they share a
/// whole side.
pub fn union_two_rects(r1: &Rect, r2: &Rect) -> (r: Option<Rect>)
    ensures
        r == union_of(*r1, *r2),
{
    if r1.x0 == r2.x0 && r1.x1 == r2.x1 {
        if r1.y1 == r2.y0 {
            return Some(Rect { x0: r1.x0, y0: r1.y0, x1: r1.x1, y1: r2.y1 });
        } else if r2.y1 == r1.y0 {
            return Some(Rect { x0: r1.x0, y0: r2.y0, x1: r1.x1, y1: r1.y1 });
        }
    } else if r1.y0 == r2.y0 && r1.y1 == r2.y1 {
        if r1.x1 == r2.x0 {
            return Some(Rect { x0: r1.x0, y0: r1.y0, x1: r2.x1, y1: r1.y1 });
        } else if r2.x1 == r1.x0 {
            return Some(Rect { x0: r2.x0, y0: r1.y0, x1: r1.x1, y1: r1.y1 });
        }
    }
    None
}

/// The rectangle that two well-formed rectangles make up together takes
/// up what the two take up, and nothing else.
pub proof fn lemma_union_of(r1: Rect, r2: Rect, outer: Rect)
    requires
        r1.wf(),
        r2.wf(),
        union_of(r1, r2) is Some,
    ensures
        union_of(r1, r2).unwrap().wf(),
        forall|x: int, y: int|
            union_of(r1, r2).unwrap().covers(x, y) <==> r1.covers(x, y) || r2.covers(x, y),
        r1.within(outer) && r2.within(outer) ==> union_of(r1, r2).unwrap().within(outer),
        forall|other: Rect|
            r1.disjoint(other) && r2.disjoint(other) ==> #[trigger] union_of(
                r1,
                r2,
            ).unwrap().disjoint(other),
{
}

/// The places `i1 < i2` hold the first two rectangles that share a whole
/// side: no pair with a lesser first place does, and none with the same
/// first place and a lesser second.
pub open spec fn is_first_pair(rects: Seq<Rect>, i1: int, i2: int) -> bool {
    &&& 0 <= i1 < i2 < rects.len()
    &&& union_of(rects[i1], rects[i2]) is Some
    &&& forall|j1: int, j2: int|
        0 <= j1 < j2 < rects.len() && (j1 < i1 || (j1 == i1 && j2 < i2)) ==> #[trigger] union_of(
            rects[j1],
            rects[j2],
        ) is None
}

/// The first two rectangles that share a whole side, if any two do.
pub open spec fn first_pair(rects: Seq<Rect>) -> Option<(int, int)> {
    if exists|p: (int, int)| #[trigger] is_first_pair(rects, p.0, p.1) {
        Some(choose|p: (int, int)| #[trigger] is_first_pair(rects, p.0, p.1))
    } else {
        None
    }
}

proof fn lemma_first_pair_is_unique(rects: Seq<Rect>, i1: int, i2: int)
    requires
        is_first_pair(rects, i1, i2),
    ensures
        first_pair(rects) == Some((i1, i2)),
{
    assert(is_first_pair(rects, (i1, i2).0, (i1, i2).1));
    let p = choose|p: (int, int)| #[trigger] is_first_pair(rects, p.0, p.1);
    if p.0 < i1 || (p.0 == i1 && p.1 < i2) {
        assert(union_of(rects[p.0], rects[p.1]) is None);
    }
    if i1 < p.0 || (i1 == p.0 && i2 < p.1) {
        assert(union_of(rects[i1], rects[i2]) is None);
    }
}

/// The rectangles with those at `i1` and `i2` taken out and the one that
/// the two make up together put at the end.
pub open spec fn united_once(rects: Seq<Rect>, i1: int, i2: int) -> Seq<Rect> {
    rects.remove(i2).remove(i1).push(union_of(rects[i1], rects[i2]).unwrap())
}

/// The rectangles after the first two that share a whole side have been
/// made one, again and again, until no two share a whole side.
pub open spec fn united(rects: Seq<Rect>) -> Seq<Rect>
    decreases rects.len(),
{
    match first_pair(rects) {
        Some((i1, i2)) => if 0 <= i1 < i2 < rects.len() {
            united(united_once(rects, i1, i2))
        } else {
            rects
        },
        None => rects,
    }
}

/// Some rectangle of the sequence takes up the point.
pub open spec fn covered(rects: Seq<Rect>, x: int, y: int) -> bool {
    exists|i: int| 0 <= i < rects.len() && (#[trigger] rects[i]).covers(x, y)
}

/// Making two rectangles one keeps the rectangles in their box and apart,
/// and they take up what they took up before.
pub proof fn lemma_united_once_tiles(rects: Seq<Rect>, i1: int, i2: int, outer: Rect)
    requires
        tiles(rects, outer),
        0 <= i1 < i2 < rects.len(),
        union_of(rects[i1], rects[i2]) is Some,
    ensures
        tiles(united_once(rects, i1, i2), outer),
        forall|x: int, y: int| covered(united_once(rects, i1, i2), x, y) <==> covered(rects, x, y),
{
    let one = union_of(rects[i1], rects[i2]).unwrap();
    let after = united_once(rects, i1, i2);
    let kept = rects.remove(i2).remove(i1);
    let place = |k: int|
        if k < i1 {
            k
        } else if k < i2 - 1 {
            k + 1
        } else {
            k + 2
        };
    lemma_union_of(rects[i1], rects[i2], outer);
    assert forall|k: int| 0 <= k < kept.len() implies #[trigger] kept[k] == rects[place(k)]
        && place(k) != i1 && place(k) != i2 && 0 <= place(k) < rects.len() by {}
    assert forall|k: int| 0 <= k < after.len() implies (#[trigger] after[k]).wf()
        && after[k].within(outer) by {
        if k < kept.len() {
            assert(after[k] == kept[k]);
        }
    }
    assert forall|a: int, b: int| 0 <= a < b < after.len() implies (#[trigger] after[a]).disjoint(
        #[trigger] after[b],
    ) by {
        assert(after[a] == kept[a]);
        let pa = place(a);
        if b < kept.len() {
            assert(after[b] == kept[b]);
            let pb = place(b);
            assert(rects[pa].disjoint(rects[pb]));
        } else {
            if pa < i1 {
                assert(rects[pa].disjoint(rects[i1]));
            } else {
                assert(rects[i1].disjoint(rects[pa]));
            }
            if pa < i2 {
                assert(rects[pa].disjoint(rects[i2]));
            } else {
                assert(rects[i2].disjoint(rects[pa]));
            }
        }
    }
    assert forall|x: int, y: int| covered(after, x, y) <==> covered(rects, x, y) by {
        if covered(after, x, y) {
            let k = choose|k: int| 0 <= k < after.len() && (#[trigger] after[k]).covers(x, y);
            if k < kept.len() {
                assert(after[k] == kept[k]);
                assert(rects[place(k)].covers(x, y));
            } else {
                assert(rects[i1].covers(x, y) || rects[i2].covers(x, y));
            }
        }
        if covered(rects, x, y) {
            let k = choose|k: int| 0 <= k < rects.len() && (#[trigger] rects[k]).covers(x, y);
            if k == i1 || k == i2 {
                assert(after[kept.len() as int].covers(x, y));
            } else {
                let back = if k < i1 {
                    k
                } else if k < i2 {
                    k - 1
                } else {
                    k - 2
                };
                assert(kept[back] == rects[place(back)]);
                assert(after[back] == kept[back]);
                assert(after[back].covers(x, y));
            }
        }
    }
}

/// However many rectangles are made one, the rectangles stay in their box
/// and apart, they take up what they took up before, and in the end no two
/// of them share a whole side.
pub proof fn lemma_united_tiles(rects: Seq<Rect>, outer: Rect)
    requires
        tiles(rects, outer),
    ensures
        tiles(united(rects), outer),
        forall|x: int, y: int| covered(united(rects), x, y) <==> covered(rects, x, y),
        first_pair(united(rects)) is None,
        united(rects).len() <= rects.len(),
    decreases rects.len(),
{
    match first_pair(rects) {
        Some((i1, i2)) => {
            assert(is_first_pair(rects, i1, i2));
            lemma_united_once_tiles(rects, i1, i2, outer);
            let next = united_once(rects, i1, i2);
            lemma_united_tiles(next, outer);
            assert forall|x: int, y: int| covered(united(rects), x, y) <==> covered(
                rects,
                x,
                y,
            ) by {
                assert(covered(united(next), x, y) <==> covered(next, x, y));
                assert(covered(next, x, y) <==> covered(rects, x, y));
            }
        },
        None => {},
    }
}

/// The first two rectangles that share a whole side, and the rectangle
/// that they make up together.
fn find_first_pair(rects: &Vec<Rect>) -> (r: Option<(usize, usize, Rect)>)
    ensures
        match r {
            Some((i1, i2, one)) => first_pair(rects@) == Some((i1 as int, i2 as int)) && i1 < i2
                < rects@.len() && union_of(rects@[i1 as int], rects@[i2 as int]) == Some(one),
            None => first_pair(rects@) is None,
        },
{
    let n = rects.len();
    let mut i1: usize = 0;
    while i1 < n
        invariant
            n == rects@.len(),
            i1 <= n,
            forall|j1: int, j2: int|
                0 <= j1 < j2 < n && j1 < i1 ==> #[trigger] union_of(rects@[j1], rects@[j2]) is None,
        decreases n - i1,
    {
        let mut i2: usize = i1 + 1;
        while i2 < n
            invariant
                n == rects@.len(),
                i1 < n,
                i1 < i2 <= n,
                forall|j1: int, j2: int|
                    0 <= j1 < j2 < n && (j1 < i1 || (j1 == i1 && j2 < i2)) ==> #[trigger] union_of(
                        rects@[j1],
                        rects@[j2],
                    ) is None,
            decreases n - i2,
        {
            match union_two_rects(&rects[i1], &rects[i2]) {
                Some(one) => {
                    proof {
                        lemma_first_pair_is_unique(rects@, i1 as int, i2 as int);
                    }
                    return Some((i1, i2, one));
                },
                None => {},
            }
            i2 += 1;
        }
        i1 += 1;
    }
    proof {
        assert forall|p: (int, int)| !#[trigger] is_first_pair(rects@, p.0, p.1) by {
            if is_first_pair(rects@, p.0, p.1) {
                assert(union_of(rects@[p.0], rects@[p.1]) is None);
            }
        }
    }
    None
}

/// Makes one rectangle of the first two that share a whole side, again and
/// again, until no two do.
pub fn unite_rects(rects: Vec<Rect>) -> (r: Vec<Rect>)
    ensures
        r@ == united(rects@),
{
    let ghost given = rects@;
    let mut rects = rects;
    loop
        invariant
            united(rects@) == united(given),
        ensures
            rects@ == united(given),
        decreases rects@.len(),
    {
        match find_first_pair(&rects) {
            Some((i1, i2, one)) => {
                rects.remove(i2);
                rects.remove(i1);
                rects.push(one);
            },
            None => {
                break ;
            },
        }
    }
    rects
}

/// The rectangles that cover what the coverage `tree` of the box `bounds`
/// counts as covered, with those that share a whole side made one.
pub fn rects_from_multi_polygon2(tree: &Coverage, bounds: Rect) -> (r: Vec<Rect>)
    ensures
        r@ == united(fitted(*tree, bounds, 0).0),
{
    let mut rects: Vec<Rect> = Vec::new();
    rects_from_coverage(tree, bounds, 0, &mut rects);
    proof {
        assert(rects@ =~= fitted(*tree, bounds, 0).0);
    }
    unite_rects(rects)
}

/// The rectangles fitted to a box lie in the box, and no two of them share
/// a point.
pub proof fn lemma_fit_tiles_the_box(tree: Coverage, bounds: Rect)
    requires
        bounds.wf(),
        halves_inside(tree, bounds, 0),
    ensures
        tiles(united(fitted(tree, bounds, 0).0), bounds),
{
    lemma_fitted_tiles(tree, bounds, 0);
    lemma_united_tiles(fitted(tree, bounds, 0).0, bounds);
}

} // verus!
