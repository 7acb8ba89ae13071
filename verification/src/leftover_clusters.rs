//! Clusters for the cells that no peak has claimed: one for each region of
//! such cells.

use std::collections::VecDeque;
use vstd::prelude::*;
use crate::array_2d::{lemma_coord_in_bounds, lemma_offset_in_range, Array2D, Grid};
use crate::cluster_summary::{lemma_updated_summarizes, summarizes, ClusterSummary};
use crate::cluster_graph::labels_below;
use crate::initial_clusters::beside;
use crate::regions::region;
use crate::regions::{
    adjacent,
    is_trail,
    labelled_below,
    lemma_labelled_below_bound,
    lemma_labelled_below_change,
    lemma_labelled_below_update,
    lemma_trail_extends,
    lemma_trail_persists,
    lemma_trail_reverses,
    lemma_trails_join,
    linked,
};

verus! {

spec fn cell(p: (i32, i32)) -> (int, int) {
    (p.0 as int, p.1 as int)
}

/// The state of a flood from `start` that gives the label `c` to cells
/// which carried -1 in `base`: the cells in `done` have been dealt with,
/// those in `queue` are waiting, and of the cells beside `cur` the first
/// `tried` have been looked at.
#[verifier::opaque]
spec fn flooding(
    base: Grid<i32>,
    labels: Grid<i32>,
    c: int,
    start: (int, int),
    queue: Seq<(i32, i32)>,
    done: Set<(int, int)>,
    trails: Map<(int, int), Seq<(int, int)>>,
    cur: Option<(int, int)>,
    tried: int,
) -> bool {
    &&& base.wf()
    &&& labels.wf()
    &&& labels.width == base.width
    &&& labels.height == base.height
    &&& c != -1
    &&& c as i32 == c
    &&& done.finite()
    &&& labels.in_bounds(start.0, start.1)
    &&& labels.at(start.0, start.1) == c
    &&& forall|x: int, y: int| base.in_bounds(x, y) ==> #[trigger] base.at(x, y) != c
    &&& forall|x: int, y: int|
        base.in_bounds(x, y) ==> #[trigger] labels.at(x, y) == base.at(x, y) || (base.at(x, y)
            == -1 && labels.at(x, y) == c)
    &&& forall|i: int|
        0 <= i < queue.len() ==> {
            &&& labels.in_bounds(cell(#[trigger] queue[i]).0, cell(queue[i]).1)
            &&& labels.at(cell(queue[i]).0, cell(queue[i]).1) == c
            &&& !done.contains(cell(queue[i]))
            &&& cur != Some(cell(queue[i]))
        }
    &&& forall|i: int, j: int| 0 <= i < j < queue.len() ==> queue[i] != queue[j]
    &&& forall|p: (int, int)|
        done.contains(p) ==> labels.in_bounds(p.0, p.1) && labels.at(p.0, p.1) == c && cur != Some(
            p,
        )
    &&& cur matches Some(p) ==> labels.in_bounds(p.0, p.1) && labels.at(p.0, p.1) == c
    &&& forall|x: int, y: int|
        labels.in_bounds(x, y) && #[trigger] labels.at(x, y) == c ==> {
            ||| done.contains((x, y))
            ||| cur == Some((x, y))
            ||| exists|i: int| 0 <= i < queue.len() && cell(#[trigger] queue[i]) == (x, y)
        }
    &&& forall|p: (int, int), q: (int, int)|
        done.contains(p) && #[trigger] adjacent(p, q) && labels.in_bounds(q.0, q.1) ==> labels.at(
            q.0,
            q.1,
        ) != -1
    &&& cur matches Some(p) ==> forall|d: int|
        0 <= d < tried && labels.in_bounds(p.0 + beside(d).0, p.1 + beside(d).1)
            ==> #[trigger] labels.at(p.0 + beside(d).0, p.1 + beside(d).1) != -1
    &&& forall|x: int, y: int|
        labels.in_bounds(x, y) && #[trigger] labels.at(x, y) == c ==> {
            &&& trails.contains_key((x, y))
            &&& is_trail(labels, c, trails[(x, y)])
            &&& trails[(x, y)].first() == start
            &&& trails[(x, y)].last() == (x, y)
        }
    &&& done.len() + queue.len() + (if cur is Some {
        1int
    } else {
        0int
    }) == labelled_below(labels.cells, c, labels.cells.len())
    &&& labelled_below(labels.cells, -1, labels.cells.len()) + labelled_below(
        labels.cells,
        c,
        labels.cells.len(),
    ) == labelled_below(base.cells, -1, base.cells.len())
}

/// What the flood needs to know of its state to go on.
proof fn lemma_flooding_facts(
    base: Grid<i32>,
    labels: Grid<i32>,
    c: int,
    start: (int, int),
    queue: Seq<(i32, i32)>,
    done: Set<(int, int)>,
    trails: Map<(int, int), Seq<(int, int)>>,
    cur: Option<(int, int)>,
    tried: int,
)
    requires
        flooding(base, labels, c, start, queue, done, trails, cur, tried),
    ensures
        base.wf(),
        labels.wf(),
        labels.width == base.width,
        labels.height == base.height,
        c != -1,
        labels.at(start.0, start.1) == c,
        done.finite(),
        cur matches Some(p) ==> labels.in_bounds(p.0, p.1) && !done.contains(p),
        done.len() + queue.len() + (if cur is Some {
            1int
        } else {
            0int
        }) == labelled_below(labels.cells, c, labels.cells.len()),
        labelled_below(labels.cells, c, labels.cells.len()) <= labels.cells.len(),
        labelled_below(labels.cells, -1, labels.cells.len()) + labelled_below(
            labels.cells,
            c,
            labels.cells.len(),
        ) == labelled_below(base.cells, -1, base.cells.len()),
{
    reveal(flooding);
    lemma_labelled_below_bound(labels.cells, c, labels.cells.len());
    if let Some(p) = cur {
        if done.contains(p) {
            assert(cur != Some(p));
        }
    }
}

/// Nothing is to be done for a cell beside `p` that lies off the grid or
/// has a label.
proof fn lemma_flood_skips(
    base: Grid<i32>,
    labels: Grid<i32>,
    c: int,
    start: (int, int),
    queue: Seq<(i32, i32)>,
    done: Set<(int, int)>,
    trails: Map<(int, int), Seq<(int, int)>>,
    p: (int, int),
    d: int,
)
    requires
        flooding(base, labels, c, start, queue, done, trails, Some(p), d),
        0 <= d < 4,
        labels.in_bounds(p.0 + beside(d).0, p.1 + beside(d).1) ==> labels.at(
            p.0 + beside(d).0,
            p.1 + beside(d).1,
        ) != -1,
    ensures
        flooding(base, labels, c, start, queue, done, trails, Some(p), d + 1),
{
    reveal(flooding);
    assert forall|d2: int|
        0 <= d2 < d + 1 && labels.in_bounds(
            p.0 + beside(d2).0,
            p.1 + beside(d2).1,
        ) implies #[trigger] labels.at(p.0 + beside(d2).0, p.1 + beside(d2).1) != -1 by {
        if d2 < d {
            assert(labels.at(p.0 + beside(d2).0, p.1 + beside(d2).1) != -1);
        }
    }
}

/// The flood sets out with its first cell waiting.
proof fn lemma_flood_starts(base: Grid<i32>, labels: Grid<i32>, c: int, start: (int, int))
    requires
        base.wf(),
        base.in_bounds(start.0, start.1),
        base.at(start.0, start.1) == -1,
        c != -1,
        c as i32 == c,
        start.0 as i32 == start.0,
        start.1 as i32 == start.1,
        forall|x: int, y: int| base.in_bounds(x, y) ==> #[trigger] base.at(x, y) != c,
        labels == base.set(start.0, start.1, c as i32),
        labels.wf(),
        forall|x: int, y: int|
            base.in_bounds(x, y) ==> #[trigger] labels.at(x, y) == if x == start.0 && y
                == start.1 {
                c as i32
            } else {
                base.at(x, y)
            },
    ensures
        flooding(
            base,
            labels,
            c,
            start,
            seq![(start.0 as i32, start.1 as i32)],
            Set::empty(),
            Map::empty().insert(start, seq![start]),
            None,
            0,
        ),
{
    reveal(flooding);
    let queue = seq![(start.0 as i32, start.1 as i32)];
    lemma_offset_in_range(base.width, base.height, start.0, start.1);
    lemma_labelled_below_update(base.cells, c, base.offset(start.0, start.1), base.cells.len());
    lemma_labelled_below_change(
        base.cells,
        -1,
        base.offset(start.0, start.1),
        c as i32,
        base.cells.len(),
    );
    lemma_none_labelled(base, c, base.cells.len());
    assert(is_trail(labels, c, seq![start]));
    assert forall|x: int, y: int| labels.in_bounds(x, y) && #[trigger] labels.at(x, y)
        == c implies {
        ||| Set::<(int, int)>::empty().contains((x, y))
        ||| None::<(int, int)> == Some((x, y))
        ||| exists|i: int| 0 <= i < queue.len() && cell(#[trigger] queue[i]) == (x, y)
    } by {
        assert(cell(queue[0]) == start);
    }
}

/// The first of the waiting cells is taken up.
proof fn lemma_flood_pops(
    base: Grid<i32>,
    labels: Grid<i32>,
    c: int,
    start: (int, int),
    waiting: Seq<(i32, i32)>,
    done: Set<(int, int)>,
    trails: Map<(int, int), Seq<(int, int)>>,
)
    requires
        flooding(base, labels, c, start, waiting, done, trails, None, 0),
        waiting.len() > 0,
    ensures
        flooding(
            base,
            labels,
            c,
            start,
            waiting.subrange(1, waiting.len() as int),
            done,
            trails,
            Some(cell(waiting[0])),
            0,
        ),
{
    reveal(flooding);
    let p = cell(waiting[0]);
    let queue = waiting.subrange(1, waiting.len() as int);
    assert forall|i: int| 0 <= i < queue.len() implies {
        &&& labels.in_bounds(cell(#[trigger] queue[i]).0, cell(queue[i]).1)
        &&& labels.at(cell(queue[i]).0, cell(queue[i]).1) == c
        &&& !done.contains(cell(queue[i]))
        &&& Some(p) != Some(cell(queue[i]))
    } by {
        assert(queue[i] == waiting[i + 1]);
        assert(waiting[0] != waiting[i + 1]);
    }
    assert forall|i: int, j: int| 0 <= i < j < queue.len() implies queue[i] != queue[j] by {
        assert(queue[i] == waiting[i + 1] && queue[j] == waiting[j + 1]);
    }
    assert forall|x2: int, y2: int| labels.in_bounds(x2, y2) && #[trigger] labels.at(x2, y2)
        == c implies {
        ||| done.contains((x2, y2))
        ||| Some(p) == Some((x2, y2))
        ||| exists|i: int| 0 <= i < queue.len() && cell(#[trigger] queue[i]) == (x2, y2)
    } by {
        if !done.contains((x2, y2)) && p != (x2, y2) {
            let i = choose|i: int| 0 <= i < waiting.len() && cell(#[trigger] waiting[i]) == (x2, y2);
            assert(i > 0);
            assert(cell(queue[i - 1]) == (x2, y2));
        }
    }
    assert(labels.in_bounds(cell(waiting[0]).0, cell(waiting[0]).1));
}

/// The cell `p` has looked at the four cells beside it.
proof fn lemma_flood_finishes(
    base: Grid<i32>,
    labels: Grid<i32>,
    c: int,
    start: (int, int),
    queue: Seq<(i32, i32)>,
    done: Set<(int, int)>,
    trails: Map<(int, int), Seq<(int, int)>>,
    p: (int, int),
)
    requires
        flooding(base, labels, c, start, queue, done, trails, Some(p), 4),
    ensures
        flooding(base, labels, c, start, queue, done.insert(p), trails, None, 0),
{
    reveal(flooding);
    let finished = done.insert(p);
    if done.contains(p) {
        assert(Some(p) != Some(p));
    }
    assert forall|p2: (int, int), q2: (int, int)|
        finished.contains(p2) && #[trigger] adjacent(p2, q2) && labels.in_bounds(
            q2.0,
            q2.1,
        ) implies labels.at(q2.0, q2.1) != -1 by {
        if p2 == p {
            let d2 = if q2.0 == p.0 - 1 {
                0int
            } else if q2.0 == p.0 + 1 {
                1int
            } else if q2.1 == p.1 - 1 {
                2int
            } else {
                3int
            };
            assert(q2 == (p.0 + beside(d2).0, p.1 + beside(d2).1));
            assert(labels.at(p.0 + beside(d2).0, p.1 + beside(d2).1) != -1);
        }
    }
    assert forall|i: int| 0 <= i < queue.len() implies {
        &&& labels.in_bounds(cell(#[trigger] queue[i]).0, cell(queue[i]).1)
        &&& labels.at(cell(queue[i]).0, cell(queue[i]).1) == c
        &&& !finished.contains(cell(queue[i]))
        &&& None::<(int, int)> != Some(cell(queue[i]))
    } by {
        assert(Some(p) != Some(cell(queue[i])));
    }
}

/// With no cell waiting the flood is over.
proof fn lemma_flood_ends(
    base: Grid<i32>,
    labels: Grid<i32>,
    c: int,
    start: (int, int),
    queue: Seq<(i32, i32)>,
    done: Set<(int, int)>,
    trails: Map<(int, int), Seq<(int, int)>>,
)
    requires
        flooding(base, labels, c, start, queue, done, trails, None, 0),
        queue.len() == 0,
    ensures
        flood_done(base, labels, c, start),
        region(labels, c) == done,
        labelled_below(labels.cells, -1, labels.cells.len()) < labelled_below(
            base.cells,
            -1,
            base.cells.len(),
        ),
{
    reveal(flooding);
    assert(region(labels, c) =~= done) by {
        assert forall|q: (int, int)| region(labels, c).contains(q) implies done.contains(q) by {
            assert(labels.at(q.0, q.1) == c);
        }
    }
    assert forall|x: int, y: int| labels.in_bounds(x, y) && #[trigger] labels.at(x, y)
        == c implies linked(labels, c, start, (x, y)) by {
        assert(is_trail(labels, c, trails[(x, y)]));
    }
    assert forall|p: (int, int), q: (int, int)|
        labels.in_bounds(p.0, p.1) && labels.at(p.0, p.1) == c && #[trigger] adjacent(p, q)
            && labels.in_bounds(q.0, q.1) implies labels.at(q.0, q.1) != -1 by {
        assert(done.contains(p));
    }
    assert(done.contains(start));
    assert(done.len() >= 1) by {
        if done.len() == 0 {
            assert(done =~= Set::<(int, int)>::empty());
        }
    }
}

/// Looks at the `d`-th cell beside `(x, y)` and takes it into the flood if
/// it carries no label yet.
fn spread(
    cluster_map: &mut Array2D<i32>,
    queue: &mut VecDeque<(i32, i32)>,
    x: i32,
    y: i32,
    d: u8,
    cluster: i32,
    Ghost(base): Ghost<Grid<i32>>,
    Ghost(start): Ghost<(int, int)>,
    Ghost(done): Ghost<Set<(int, int)>>,
    Ghost(trails): Ghost<Map<(int, int), Seq<(int, int)>>>,
) -> (r: Ghost<Map<(int, int), Seq<(int, int)>>>)
    requires
        d < 4,
        flooding(
            base,
            old(cluster_map)@,
            cluster as int,
            start,
            old(queue)@,
            done,
            trails,
            Some((x as int, y as int)),
            d as int,
        ),
    ensures
        flooding(
            base,
            final(cluster_map)@,
            cluster as int,
            start,
            final(queue)@,
            done,
            r@,
            Some((x as int, y as int)),
            d + 1,
        ),
        2 * labelled_below(final(cluster_map)@.cells, cluster as int, base.cells.len())
            - final(queue)@.len() >= 2 * labelled_below(
            old(cluster_map)@.cells,
            cluster as int,
            base.cells.len(),
        ) - old(queue)@.len(),
{
    proof {
        lemma_flooding_facts(
            base,
            cluster_map@,
            cluster as int,
            start,
            queue@,
            done,
            trails,
            Some((x as int, y as int)),
            d as int,
        );
    }
    let width = cluster_map.width();
    let height = cluster_map.height();
    let ghost labels = cluster_map@;
    let ghost c = cluster as int;
    let ghost p = (x as int, y as int);
    let (dx, dy): (i32, i32) = if d == 0 {
        (-1, 0)
    } else if d == 1 {
        (1, 0)
    } else if d == 2 {
        (0, -1)
    } else {
        (0, 1)
    };
    assert((dx as int, dy as int) == beside(d as int));
    let (px, py) = (x + dx, y + dy);
    if px < 0 || px >= width || py < 0 || py >= height {
        proof {
            lemma_flood_skips(base, labels, c, start, queue@, done, trails, p, d as int);
        }
        return Ghost(trails);
    }
    if *cluster_map.get(px, py) != -1 {
        proof {
            lemma_flood_skips(base, labels, c, start, queue@, done, trails, p, d as int);
        }
        return Ghost(trails);
    }
    let ghost q = (px as int, py as int);
    cluster_map.set(px, py, cluster);
    queue.push_back((px, py));
    let ghost next = trails.insert(q, trails[p].push(q));
    proof {
        reveal(flooding);
        let after = cluster_map@;
        lemma_offset_in_range(width as int, height as int, q.0, q.1);
        lemma_labelled_below_update(labels.cells, c, labels.offset(q.0, q.1), labels.cells.len());
        lemma_labelled_below_change(
            labels.cells,
            -1,
            labels.offset(q.0, q.1),
            cluster,
            labels.cells.len(),
        );
        assert(adjacent(p, q));
        assert(labels.at(p.0, p.1) == c);
        assert forall|x2: int, y2: int| after.in_bounds(x2, y2) && #[trigger] after.at(x2, y2)
            == c implies {
            &&& next.contains_key((x2, y2))
            &&& is_trail(after, c, next[(x2, y2)])
            &&& next[(x2, y2)].first() == start
            &&& next[(x2, y2)].last() == (x2, y2)
        } by {
            if (x2, y2) == q {
                lemma_trail_persists(labels, after, c, trails[p]);
                lemma_trail_extends(after, c, trails[p], q);
            } else {
                assert(labels.at(x2, y2) == c);
                lemma_trail_persists(labels, after, c, trails[(x2, y2)]);
            }
        }
        assert forall|x2: int, y2: int| after.in_bounds(x2, y2) && #[trigger] after.at(x2, y2)
            == c implies {
            ||| done.contains((x2, y2))
            ||| Some(p) == Some((x2, y2))
            ||| exists|i: int| 0 <= i < queue@.len() && cell(#[trigger] queue@[i]) == (x2, y2)
        } by {
            if (x2, y2) == q {
                assert(cell(queue@[old(queue)@.len() as int]) == q);
            } else {
                assert(labels.at(x2, y2) == c);
                if !done.contains((x2, y2)) && p != (x2, y2) {
                    let i = choose|i: int|
                        0 <= i < old(queue)@.len() && cell(#[trigger] old(queue)@[i]) == (x2, y2);
                    assert(cell(queue@[i]) == (x2, y2));
                }
            }
        }
        assert forall|i: int| 0 <= i < queue@.len() implies {
            &&& after.in_bounds(cell(#[trigger] queue@[i]).0, cell(queue@[i]).1)
            &&& after.at(cell(queue@[i]).0, cell(queue@[i]).1) == c
            &&& !done.contains(cell(queue@[i]))
            &&& Some(p) != Some(cell(queue@[i]))
        } by {
            if i < old(queue)@.len() {
                assert(queue@[i] == old(queue)@[i]);
                assert(labels.at(cell(queue@[i]).0, cell(queue@[i]).1) == c);
            }
        }
        assert forall|i: int, j: int| 0 <= i < j < queue@.len() implies queue@[i] != queue@[j] by {
            if j == old(queue)@.len() {
                assert(queue@[i] == old(queue)@[i]);
                assert(labels.at(cell(queue@[i]).0, cell(queue@[i]).1) == c);
            } else {
                assert(queue@[i] == old(queue)@[i] && queue@[j] == old(queue)@[j]);
            }
        }
        assert forall|d2: int|
            0 <= d2 < d + 1 && after.in_bounds(
                p.0 + beside(d2).0,
                p.1 + beside(d2).1,
            ) implies #[trigger] after.at(p.0 + beside(d2).0, p.1 + beside(d2).1) != -1 by {
            if d2 < d {
                assert(labels.at(p.0 + beside(d2).0, p.1 + beside(d2).1) != -1);
            }
        }
        assert forall|p2: (int, int), q2: (int, int)|
            done.contains(p2) && #[trigger] adjacent(p2, q2) && after.in_bounds(
                q2.0,
                q2.1,
            ) implies after.at(q2.0, q2.1) != -1 by {
            assert(labels.at(q2.0, q2.1) != -1);
        }
        assert forall|x2: int, y2: int| base.in_bounds(x2, y2) implies #[trigger] after.at(x2, y2)
            == base.at(x2, y2) || (base.at(x2, y2) == -1 && after.at(x2, y2) == c) by {
            assert(labels.at(x2, y2) == base.at(x2, y2) || (base.at(x2, y2) == -1 && labels.at(
                x2,
                y2,
            ) == c));
        }
        assert forall|p2: (int, int)| done.contains(p2) implies after.in_bounds(p2.0, p2.1)
            && after.at(p2.0, p2.1) == c && Some(p) != Some(p2) by {
            assert(labels.at(p2.0, p2.1) == c);
        }
    }
    Ghost(next)
}

/// What a flood from `start` leaves of the labels `before`: cells with a
/// label keep it; the cells that got the label `c` are joined to `start` by
/// trails of such cells, and no cell beside one of them is left without a
/// label.
spec fn flood_done(before: Grid<i32>, after: Grid<i32>, c: int, start: (int, int)) -> bool {
    &&& after.wf()
    &&& after.width == before.width
    &&& after.height == before.height
    &&& forall|x: int, y: int|
        before.in_bounds(x, y) ==> #[trigger] after.at(x, y) == before.at(x, y) || (before.at(x, y)
            == -1 && after.at(x, y) == c)
    &&& after.at(start.0, start.1) == c
    &&& forall|p: (int, int), q: (int, int)|
        after.in_bounds(p.0, p.1) && after.at(p.0, p.1) == c && #[trigger] adjacent(p, q)
            && after.in_bounds(q.0, q.1) ==> after.at(q.0, q.1) != -1
    &&& forall|x: int, y: int|
        after.in_bounds(x, y) && #[trigger] after.at(x, y) == c ==> linked(after, c, start, (x, y))
}

/// Gives the label `cluster` to the cell `(x0, y0)`, which carries none,
/// and to every cell without a label that a trail of such cells joins to
/// it. Returns the summary of those cells.
fn flood(
    density_map: &Array2D<u32>,
    cluster_map: &mut Array2D<i32>,
    x0: i32,
    y0: i32,
    cluster: i32,
) -> (summary: ClusterSummary)
    requires
        density_map@.wf(),
        old(cluster_map)@.wf(),
        density_map@.width == old(cluster_map)@.width,
        density_map@.height == old(cluster_map)@.height,
        old(cluster_map)@.in_bounds(x0 as int, y0 as int),
        old(cluster_map)@.at(x0 as int, y0 as int) == -1,
        cluster != -1,
        forall|x: int, y: int|
            old(cluster_map)@.in_bounds(x, y) ==> #[trigger] old(cluster_map)@.at(x, y) != cluster,
    ensures
        flood_done(
            old(cluster_map)@,
            final(cluster_map)@,
            cluster as int,
            (x0 as int, y0 as int),
        ),
        summarizes(density_map@, region(final(cluster_map)@, cluster as int), summary),
        labelled_below(final(cluster_map)@.cells, -1, final(cluster_map)@.cells.len())
            < labelled_below(old(cluster_map)@.cells, -1, old(cluster_map)@.cells.len()),
{
    let ghost base = cluster_map@;
    let ghost levels = density_map@;
    let ghost start = (x0 as int, y0 as int);
    let ghost c = cluster as int;
    let cell_count = cluster_map.as_slice().len();
    cluster_map.set(x0, y0, cluster);
    let mut queue: VecDeque<(i32, i32)> = VecDeque::new();
    queue.push_back((x0, y0));
    let mut summary = ClusterSummary::zero();
    let ghost mut done: Set<(int, int)> = Set::empty();
    let ghost mut trails: Map<(int, int), Seq<(int, int)>> = Map::empty().insert(start, seq![start]);
    proof {
        lemma_flood_starts(base, cluster_map@, c, start);
        assert(queue@ =~= seq![(start.0 as i32, start.1 as i32)]);
    }
    loop
        invariant
            levels == density_map@,
            levels.wf(),
            levels.width == base.width,
            levels.height == base.height,
            cell_count == base.cells.len(),
            cluster_map@.cells.len() == base.cells.len(),
            flooding(base, cluster_map@, c, start, queue@, done, trails, None, 0),
            c == cluster,
            summarizes(levels, done, summary),
        ensures
            flooding(base, cluster_map@, c, start, queue@, done, trails, None, 0),
            queue@.len() == 0,
            summarizes(levels, done, summary),
        decreases
                2 * (base.cells.len() - labelled_below(cluster_map@.cells, c, base.cells.len()))
                    + queue@.len(),
    {
        let ghost waiting = queue@;
        let ghost taken = labelled_below(cluster_map@.cells, c, base.cells.len());
        proof {
            lemma_flooding_facts(base, cluster_map@, c, start, queue@, done, trails, None, 0);
        }
        let (x, y) = match queue.pop_front() {
            Some(p) => p,
            None => {
                break ;
            },
        };
        let ghost p = (x as int, y as int);
        proof {
            lemma_flood_pops(base, cluster_map@, c, start, waiting, done, trails);
            assert(cell(waiting[0]) == p);
        }
        let mut d: u8 = 0;
        while d < 4
            invariant
                0 <= d <= 4,
                p == (x as int, y as int),
                c == cluster,
                cluster_map@.cells.len() == base.cells.len(),
                flooding(base, cluster_map@, c, start, queue@, done, trails, Some(p), d as int),
                2 * labelled_below(cluster_map@.cells, c, base.cells.len()) - queue@.len() >= 2
                    * taken - waiting.len() + 1,
            decreases 4 - d,
        {
            let Ghost(next) = spread(
                cluster_map,
                &mut queue,
                x,
                y,
                d,
                cluster,
                Ghost(base),
                Ghost(start),
                Ghost(done),
                Ghost(trails),
            );
            proof {
                trails = next;
                lemma_flooding_facts(
                    base,
                    cluster_map@,
                    c,
                    start,
                    queue@,
                    done,
                    trails,
                    Some(p),
                    d + 1,
                );
            }
            d += 1;
        }
        proof {
            lemma_flooding_facts(base, cluster_map@, c, start, queue@, done, trails, Some(p), 4);
            lemma_updated_summarizes(levels, done, summary, (x, y));
            lemma_flood_finishes(base, cluster_map@, c, start, queue@, done, trails, p);
        }
        summary.update((x, y), *density_map.get(x, y));
        proof {
            done = done.insert(p);
        }
    }
    proof {
        lemma_flood_ends(base, cluster_map@, c, start, queue@, done, trails);
    }
    summary
}

proof fn lemma_none_labelled(labels: Grid<i32>, c: int, k: nat)
    requires
        labels.wf(),
        k <= labels.cells.len(),
        forall|x: int, y: int| labels.in_bounds(x, y) ==> #[trigger] labels.at(x, y) != c,
    ensures
        labelled_below(labels.cells, c, k) == 0,
    decreases k,
{
    if k > 0 {
        lemma_none_labelled(labels, c, (k - 1) as nat);
        lemma_coord_in_bounds(labels.width, labels.height, k - 1);
        assert(labels.at((k - 1) % labels.width, (k - 1) / labels.width) != c);
    }
}

/// `start` is the first cell with the label `c` in row-major order, and a
/// trail of cells with that label joins it to every other one.
pub open spec fn flooded_from(labels: Grid<i32>, c: int, start: (int, int)) -> bool {
    &&& labels.in_bounds(start.0, start.1)
    &&& labels.at(start.0, start.1) == c
    &&& forall|x: int, y: int|
        labels.in_bounds(x, y) && #[trigger] labels.at(x, y) == c ==> linked(
            labels,
            c,
            start,
            (x, y),
        ) && labels.offset(start.0, start.1) <= labels.offset(x, y)
}

/// The clusters from `first` on, one for each entry of `starts`, were each
/// flooded from its entry, and the entries come in row-major order.
pub open spec fn flooded_in_order(labels: Grid<i32>, first: int, starts: Seq<(int, int)>) -> bool {
    &&& forall|i: int| 0 <= i < starts.len() ==> flooded_from(labels, first + i, #[trigger] starts[i])
    &&& forall|i: int, j: int|
        0 <= i < j < starts.len() ==> labels.offset((#[trigger] starts[i]).0, starts[i].1)
            < labels.offset((#[trigger] starts[j]).0, starts[j].1)
}

proof fn lemma_flooded_from_persists(before: Grid<i32>, after: Grid<i32>, c: int, start: (int, int))
    requires
        flooded_from(before, c, start),
        after.width == before.width,
        after.height == before.height,
        forall|x: int, y: int|
            before.in_bounds(x, y) ==> (#[trigger] after.at(x, y) == c <==> before.at(x, y) == c),
    ensures
        flooded_from(after, c, start),
{
    assert forall|x: int, y: int| after.in_bounds(x, y) && #[trigger] after.at(x, y)
        == c implies linked(after, c, start, (x, y)) && after.offset(start.0, start.1)
        <= after.offset(x, y) by {
        assert(before.at(x, y) == c);
        let path = choose|path: Seq<(int, int)>| #[trigger]
            is_trail(before, c, path) && path.first() == start && path.last() == (x, y);
        lemma_trail_persists(before, after, c, path);
    }
}

/// What the flooding of the cells without a cluster leaves of the labels
/// `before` and the summaries `found`: cells with a cluster keep it; every
/// other cell has one of the new clusters, the same as the cells beside it
/// that had none either; the new clusters were each flooded from their
/// first cell, in row-major order of those cells; the summaries found
/// before stand, and each new summary is that of the cells of its cluster.
pub open spec fn leftovers_flooded(
    levels: Grid<u32>,
    before: Grid<i32>,
    found: Seq<ClusterSummary>,
    labels: Grid<i32>,
    summaries: Seq<ClusterSummary>,
) -> bool {
    &&& labels.wf()
    &&& labels.width == before.width
    &&& labels.height == before.height
    &&& summaries.len() >= found.len()
    &&& summaries.take(found.len() as int) == found
    &&& forall|x: int, y: int|
        before.in_bounds(x, y) ==> if before.at(x, y) != -1 {
            #[trigger] labels.at(x, y) == before.at(x, y)
        } else {
            found.len() <= labels.at(x, y) < summaries.len()
        }
    &&& forall|c: int|
        found.len() <= c < summaries.len() ==> summarizes(
            levels,
            region(labels, c),
            #[trigger] summaries[c],
        )
    &&& forall|c: int|
        found.len() <= c < summaries.len() ==> (#[trigger] summaries[c]).num_pixels >= 1
    &&& forall|p: (int, int), q: (int, int)|
        before.in_bounds(p.0, p.1) && before.in_bounds(q.0, q.1) && #[trigger] adjacent(p, q)
            && before.at(p.0, p.1) == -1 && before.at(q.0, q.1) == -1 ==> labels.at(p.0, p.1)
            == labels.at(q.0, q.1)
    &&& exists|starts: Seq<(int, int)>|
        starts.len() == summaries.len() - found.len() && #[trigger] flooded_in_order(
            labels,
            found.len() as int,
            starts,
        )
}

/// Makes a cluster of every region of cells that carry no label. The grid
/// is scanned in row-major order; a cell with the label -1 starts a new
/// cluster, which takes every such cell that a trail of such cells joins
/// to it. The summaries of the new clusters are appended to `clusters`.
pub fn find_unlabeled_clusters(
    density_map: &Array2D<u32>,
    cluster_map: &mut Array2D<i32>,
    clusters: &mut Vec<ClusterSummary>,
)
    requires
        density_map@.wf(),
        old(cluster_map)@.wf(),
        density_map@.width == old(cluster_map)@.width,
        density_map@.height == old(cluster_map)@.height,
        labels_below(old(cluster_map)@, old(clusters)@.len() as int),
        density_map@.cells.len() <= i32::MAX,
        old(clusters)@.len() + labelled_below(
            old(cluster_map)@.cells,
            -1,
            old(cluster_map)@.cells.len(),
        ) <= i32::MAX,
    ensures
        leftovers_flooded(
            density_map@,
            old(cluster_map)@,
            old(clusters)@,
            final(cluster_map)@,
            final(clusters)@,
        ),
{
    let width = density_map.width();
    let height = density_map.height();
    let ghost levels = density_map@;
    let ghost entry = cluster_map@;
    let ghost first = clusters@.len() as int;
    let cell_count = density_map.as_slice().len();
    assert(width * height == cell_count);
    let n: i32 = width * height;
    let ghost mut starts: Seq<(int, int)> = Seq::empty();
    proof {
        assert(clusters@.take(first) =~= old(clusters)@);
        assert forall|x: int, y: int| entry.in_bounds(x, y) implies -1 <= #[trigger] entry.at(x, y)
            < first by {
            lemma_offset_in_range(entry.width, entry.height, x, y);
        }
    }
    let mut j: i32 = 0;
    while j < n
        invariant
            levels == density_map@,
            levels.wf(),
            entry == old(cluster_map)@,
            entry.wf(),
            cluster_map@.wf(),
            width == entry.width,
            height == entry.height,
            levels.width == width,
            levels.height == height,
            cluster_map@.width == width,
            cluster_map@.height == height,
            n == entry.cells.len(),
            first == old(clusters)@.len(),
            n <= i32::MAX,
            0 <= j <= n,
            first <= clusters@.len(),
            clusters@.len() + labelled_below(cluster_map@.cells, -1, cluster_map@.cells.len())
                <= i32::MAX,
            clusters@.take(first) == old(clusters)@,
            starts.len() == clusters@.len() - first,
            forall|x: int, y: int| entry.in_bounds(x, y) ==> -1 <= #[trigger] entry.at(x, y) < first,
            forall|x: int, y: int|
                entry.in_bounds(x, y) ==> if entry.at(x, y) != -1 {
                    #[trigger] cluster_map@.at(x, y) == entry.at(x, y)
                } else {
                    cluster_map@.at(x, y) == -1 || first <= cluster_map@.at(x, y) < clusters@.len()
                },
            forall|x: int, y: int|
                entry.in_bounds(x, y) && entry.offset(x, y) < j ==> #[trigger] cluster_map@.at(x, y)
                    != -1,
            forall|c: int|
                first <= c < clusters@.len() ==> summarizes(
                    levels,
                    region(cluster_map@, c),
                    #[trigger] clusters@[c],
                ),
            forall|p: (int, int), q: (int, int)|
                entry.in_bounds(p.0, p.1) && entry.in_bounds(q.0, q.1) && #[trigger] adjacent(p, q)
                    && entry.at(p.0, p.1) == -1 && entry.at(q.0, q.1) == -1 && cluster_map@.at(
                    p.0,
                    p.1,
                ) != -1 ==> cluster_map@.at(p.0, p.1) == cluster_map@.at(q.0, q.1),
            flooded_in_order(cluster_map@, first, starts),
            forall|i: int|
                0 <= i < starts.len() ==> entry.offset((#[trigger] starts[i]).0, starts[i].1) < j,
        decreases n - j,
    {
        proof {
            lemma_coord_in_bounds(width as int, height as int, j as int);
        }
        let (x0, y0) = (j % width, j / width);
        if *cluster_map.get(x0, y0) == -1 {
            let cluster = clusters.len() as i32;
            let ghost before = cluster_map@;
            let ghost found = clusters@;
            let summary = flood(density_map, cluster_map, x0, y0, cluster);
            clusters.push(summary);
            proof {
                let after = cluster_map@;
                let c = cluster as int;
                let start = (x0 as int, y0 as int);
                assert(clusters@.take(first) =~= found.take(first));
                assert forall|k: int| first <= k < clusters@.len() implies summarizes(
                    levels,
                    region(after, k),
                    #[trigger] clusters@[k],
                ) by {
                    if k < c {
                        assert(region(after, k) =~= region(before, k));
                        assert(clusters@[k] == found[k]);
                    }
                }
                assert forall|p: (int, int), q: (int, int)|
                    entry.in_bounds(p.0, p.1) && entry.in_bounds(q.0, q.1) && #[trigger] adjacent(
                        p,
                        q,
                    ) && entry.at(p.0, p.1) == -1 && entry.at(q.0, q.1) == -1 && after.at(p.0, p.1)
                        != -1 implies after.at(p.0, p.1) == after.at(q.0, q.1) by {
                    assert(adjacent(q, p));
                    if after.at(p.0, p.1) == c {
                        assert(after.at(q.0, q.1) != -1);
                        if after.at(q.0, q.1) != c {
                            assert(before.at(q.0, q.1) == after.at(q.0, q.1));
                            assert(before.at(p.0, p.1) == before.at(q.0, q.1));
                        }
                    } else {
                        assert(before.at(p.0, p.1) == after.at(p.0, p.1));
                        assert(before.at(q.0, q.1) == before.at(p.0, p.1));
                    }
                }
                let longer = starts.push(start);
                assert forall|i: int| 0 <= i < longer.len() implies flooded_from(
                    after,
                    first + i,
                    #[trigger] longer[i],
                ) by {
                    if i < starts.len() {
                        assert(flooded_from(before, first + i, starts[i]));
                        lemma_flooded_from_persists(before, after, first + i, starts[i]);
                    } else {
                        assert forall|x: int, y: int|
                            after.in_bounds(x, y) && #[trigger] after.at(x, y) == c implies linked(
                            after,
                            c,
                            start,
                            (x, y),
                        ) && after.offset(start.0, start.1) <= after.offset(x, y) by {
                            if entry.offset(x, y) < j {
                                assert(before.at(x, y) != -1);
                            }
                        }
                    }
                }
                starts = longer;
            }
        }
        j += 1;
    }
    proof {
        assert forall|x: int, y: int| entry.in_bounds(x, y) implies entry.offset(x, y) < n by {
            lemma_offset_in_range(entry.width, entry.height, x, y);
        }
        let labels = cluster_map@;
        assert forall|c: int| first <= c < clusters@.len() implies (
        #[trigger] clusters@[c]).num_pixels >= 1 by {
            assert(flooded_from(labels, first + (c - first), starts[c - first]));
            assert(region(labels, c).contains(starts[c - first]));
            assert(summarizes(levels, region(labels, c), clusters@[c]));
            if region(labels, c).len() == 0 {
                assert(region(labels, c) =~= Set::<(int, int)>::empty());
            }
        }
        assert(flooded_in_order(labels, first, starts));
    }
}

/// Cells along a trail of cells without a label come into one cluster.
proof fn lemma_trail_is_flooded_as_one(
    levels: Grid<u32>,
    before: Grid<i32>,
    found: Seq<ClusterSummary>,
    labels: Grid<i32>,
    summaries: Seq<ClusterSummary>,
    trail: Seq<(int, int)>,
)
    requires
        leftovers_flooded(levels, before, found, labels, summaries),
        is_trail(before, -1, trail),
    ensures
        labels.at(trail.last().0, trail.last().1) == labels.at(trail.first().0, trail.first().1),
    decreases trail.len(),
{
    if trail.len() > 1 {
        let front = trail.drop_last();
        assert forall|i: int| 0 <= i < front.len() implies before.in_bounds(
            (#[trigger] front[i]).0,
            front[i].1,
        ) && before.at(front[i].0, front[i].1) == -1 by {
            assert(front[i] == trail[i]);
        }
        assert forall|i: int| 0 <= i < front.len() - 1 implies adjacent(
            #[trigger] front[i],
            front[i + 1],
        ) by {
            assert(front[i] == trail[i] && front[i + 1] == trail[i + 1]);
            assert(adjacent(trail[i], trail[i + 1]));
        }
        lemma_trail_is_flooded_as_one(levels, before, found, labels, summaries, front);
        let k = trail.len() - 2;
        assert(front.last() == trail[k]);
        assert(adjacent(trail[k], trail[k + 1]));
        assert(before.at(trail[k].0, trail[k].1) == -1);
        assert(before.at(trail[k + 1].0, trail[k + 1].1) == -1);
    }
}

/// The new clusters are the regions of the cells that had no label: two
/// such cells come into the same cluster exactly when a trail of such
/// cells joins them.
pub proof fn lemma_leftovers_are_regions(
    levels: Grid<u32>,
    before: Grid<i32>,
    found: Seq<ClusterSummary>,
    labels: Grid<i32>,
    summaries: Seq<ClusterSummary>,
    p: (int, int),
    q: (int, int),
)
    requires
        leftovers_flooded(levels, before, found, labels, summaries),
        forall|x: int, y: int| before.in_bounds(x, y) ==> #[trigger] before.at(x, y) < found.len(),
        before.in_bounds(p.0, p.1),
        before.in_bounds(q.0, q.1),
        before.at(p.0, p.1) == -1,
        before.at(q.0, q.1) == -1,
    ensures
        labels.at(p.0, p.1) == labels.at(q.0, q.1) <==> linked(before, -1, p, q),
{
    if linked(before, -1, p, q) {
        let trail = choose|trail: Seq<(int, int)>| #[trigger]
            is_trail(before, -1, trail) && trail.first() == p && trail.last() == q;
        lemma_trail_is_flooded_as_one(levels, before, found, labels, summaries, trail);
    }
    if labels.at(p.0, p.1) == labels.at(q.0, q.1) {
        let c = labels.at(p.0, p.1) as int;
        let starts = choose|starts: Seq<(int, int)>|
            starts.len() == summaries.len() - found.len() && #[trigger] flooded_in_order(
                labels,
                found.len() as int,
                starts,
            );
        let s = starts[c - found.len()];
        assert(flooded_from(labels, found.len() + (c - found.len()), s));
        assert(linked(labels, c, s, p));
        assert(linked(labels, c, s, q));
        let to_p = choose|path: Seq<(int, int)>| #[trigger]
            is_trail(labels, c, path) && path.first() == s && path.last() == p;
        let to_q = choose|path: Seq<(int, int)>| #[trigger]
            is_trail(labels, c, path) && path.first() == s && path.last() == q;
        lemma_trail_reverses(labels, c, to_p);
        lemma_trails_join(labels, c, to_p.reverse(), to_q);
        let joined = to_p.reverse() + to_q.skip(1);
        assert forall|i: int| 0 <= i < joined.len() implies before.in_bounds(
            (#[trigger] joined[i]).0,
            joined[i].1,
        ) && before.at(joined[i].0, joined[i].1) == -1 by {
            assert(labels.at(joined[i].0, joined[i].1) == c);
        }
        assert(is_trail(before, -1, joined));
    }
}

} // verus!
