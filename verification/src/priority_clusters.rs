//! Clusters grown downhill from the local maxima of a raster, the highest
//! cells first.

use vstd::prelude::*;
use crate::array_2d::{lemma_offset_in_range, Array2D, Grid};
use crate::cluster_summary::{lemma_updated_summarizes, summarizes, zero_summary, ClusterSummary};
use crate::density_queue::{holds, one_per_cell, DensityQueue, QueueItem};
use crate::find_local_maxima::{
    find_local_maxima,
    is_local_maximum,
    lemma_local_maxima_ascend,
    local_maxima,
};
use crate::initial_clusters::beside;
use crate::regions::region;
use crate::regions::{
    adjacent,
    descends,
    is_descent,
    is_trail,
    labelled_below,
    lemma_descent_extends,
    lemma_descent_falls,
    lemma_labelled_below_bound,
    lemma_labelled_below_change,
    lemma_trail_persists,
};

verus! {

/// The cell as a pair of whole numbers.
pub open spec fn cell(p: (i32, i32)) -> (int, int) {
    (p.0 as int, p.1 as int)
}

/// The cell is one of the seeds.
pub open spec fn is_seed(seeds: Seq<(i32, i32)>, p: (int, int)) -> bool {
    exists|k: int| 0 <= k < seeds.len() && cell(#[trigger] seeds[k]) == p
}

/// The growth of the clusters at one moment: the cells in `done` have
/// passed their cluster on, those in `queue` are waiting to, none of them
/// above `ceiling`, and of the cells beside `cur` the first `tried` have
/// been looked at. `trails` and `parents` remember how each cell was
/// reached.
pub struct Growth {
    pub labels: Grid<i32>,
    pub queue: Seq<QueueItem>,
    pub done: Set<(int, int)>,
    pub ceiling: int,
    pub trails: Map<(int, int), Seq<(int, int)>>,
    pub parents: Map<(int, int), (int, int)>,
    pub cur: Option<(int, int)>,
    pub tried: int,
}

/// The cell has passed its cluster on, or is about to.
spec fn settled(g: Growth, q: (int, int)) -> bool {
    g.done.contains(q) || g.cur == Some(q)
}

/// `q` is the cell that `p` got its cluster from: it lies beside `p`, in
/// the same cluster, at least as high as `p` and as every settled cell
/// beside `p`.
spec fn is_parent(levels: Grid<u32>, g: Growth, p: (int, int), q: (int, int)) -> bool {
    &&& adjacent(p, q)
    &&& g.labels.in_bounds(q.0, q.1)
    &&& g.labels.at(q.0, q.1) == g.labels.at(p.0, p.1)
    &&& levels.at(q.0, q.1) >= levels.at(p.0, p.1)
    &&& levels.at(q.0, q.1) >= g.ceiling
    &&& settled(g, q)
    &&& forall|q2: (int, int)|
        #[trigger] adjacent(p, q2) && settled(g, q2) ==> levels.at(q2.0, q2.1) <= levels.at(
            q.0,
            q.1,
        )
}

spec fn shaped(levels: Grid<u32>, seeds: Seq<(i32, i32)>, g: Growth) -> bool {
    &&& levels.wf()
    &&& g.labels.wf()
    &&& g.labels.width == levels.width
    &&& g.labels.height == levels.height
    &&& g.done.finite()
    &&& forall|x: int, y: int|
        g.labels.in_bounds(x, y) ==> -1 <= #[trigger] g.labels.at(x, y) < seeds.len()
    &&& forall|k: int|
        0 <= k < seeds.len() ==> g.labels.in_bounds(cell(#[trigger] seeds[k]).0, cell(seeds[k]).1)
            && g.labels.at(cell(seeds[k]).0, cell(seeds[k]).1) == k
}

spec fn queued(levels: Grid<u32>, g: Growth) -> bool {
    &&& one_per_cell(g.queue)
    &&& forall|it: QueueItem| #[trigger]
        holds(g.queue, it) ==> {
            &&& g.labels.in_bounds(cell(it.location).0, cell(it.location).1)
            &&& g.labels.at(cell(it.location).0, cell(it.location).1) == it.cluster
            &&& it.cluster != -1
            &&& it.density == levels.at(cell(it.location).0, cell(it.location).1)
            &&& !g.done.contains(cell(it.location))
            &&& it.density <= g.ceiling
            &&& g.cur != Some(cell(it.location))
        }
}

spec fn finished(levels: Grid<u32>, g: Growth) -> bool {
    &&& forall|p: (int, int)| #[trigger]
        g.done.contains(p) ==> {
            &&& g.labels.in_bounds(p.0, p.1)
            &&& g.labels.at(p.0, p.1) != -1
            &&& levels.at(p.0, p.1) >= g.ceiling
            &&& g.cur != Some(p)
        }
    &&& g.cur matches Some(p) ==> g.labels.in_bounds(p.0, p.1) && g.labels.at(p.0, p.1) != -1
        && levels.at(p.0, p.1) == g.ceiling
}

spec fn covered(g: Growth) -> bool {
    forall|x: int, y: int|
        g.labels.in_bounds(x, y) && #[trigger] g.labels.at(x, y) != -1 ==> {
            ||| g.done.contains((x, y))
            ||| g.cur == Some((x, y))
            ||| exists|it: QueueItem| #[trigger] holds(g.queue, it) && cell(it.location) == (x, y)
        }
}

/// The cell `q` beside the settled cell `p` is no cell for `p` to pass its
/// cluster on to: it has a label, or it is higher.
spec fn blocked(levels: Grid<u32>, g: Growth, p: (int, int), q: (int, int)) -> bool {
    g.labels.in_bounds(q.0, q.1) ==> g.labels.at(q.0, q.1) != -1 || levels.at(q.0, q.1)
        > levels.at(p.0, p.1)
}

spec fn closed(levels: Grid<u32>, g: Growth) -> bool {
    &&& forall|p: (int, int), q: (int, int)|
        g.done.contains(p) && #[trigger] adjacent(p, q) ==> blocked(levels, g, p, q)
    &&& g.cur matches Some(p) ==> forall|d: int|
        0 <= d < g.tried ==> #[trigger] blocked(
            levels,
            g,
            p,
            (p.0 + beside(d).0, p.1 + beside(d).1),
        )
}

#[verifier::opaque]
spec fn trailed(levels: Grid<u32>, seeds: Seq<(i32, i32)>, g: Growth) -> bool {
    forall|x: int, y: int|
        g.labels.in_bounds(x, y) && #[trigger] g.labels.at(x, y) != -1 ==> {
            &&& g.trails.contains_key((x, y))
            &&& is_descent(levels, g.labels, g.labels.at(x, y) as int, g.trails[(x, y)])
            &&& g.trails[(x, y)].first() == cell(seeds[g.labels.at(x, y) as int])
            &&& g.trails[(x, y)].last() == (x, y)
        }
}

#[verifier::opaque]
spec fn parented(levels: Grid<u32>, seeds: Seq<(i32, i32)>, g: Growth) -> bool {
    forall|x: int, y: int|
        g.labels.in_bounds(x, y) && #[trigger] g.labels.at(x, y) != -1 ==> is_seed(seeds, (x, y))
            || (g.parents.contains_key((x, y)) && is_parent(levels, g, (x, y), g.parents[(x, y)]))
}

/// A cluster has no cell but its seed until the seed has passed it on.
spec fn rooted(seeds: Seq<(i32, i32)>, g: Growth) -> bool {
    forall|x: int, y: int|
        g.labels.in_bounds(x, y) && #[trigger] g.labels.at(x, y) != -1 ==> (x, y) == cell(
            seeds[g.labels.at(x, y) as int],
        ) || settled(g, cell(seeds[g.labels.at(x, y) as int]))
}

spec fn counted(g: Growth) -> bool {
    g.done.len() + g.queue.len() + (if g.cur is Some {
        1int
    } else {
        0int
    }) + labelled_below(g.labels.cells, -1, g.labels.cells.len()) == g.labels.cells.len()
}

spec fn climbing(levels: Grid<u32>, seeds: Seq<(i32, i32)>, g: Growth) -> bool {
    &&& shaped(levels, seeds, g)
    &&& queued(levels, g)
    &&& finished(levels, g)
    &&& covered(g)
    &&& closed(levels, g)
    &&& trailed(levels, seeds, g)
    &&& parented(levels, seeds, g)
    &&& rooted(seeds, g)
    &&& counted(g)
}

/// The grid `after` is the grid `before` with the label `c` in the cell
/// `q`, which carried none.
spec fn claimed(before: Grid<i32>, after: Grid<i32>, q: (int, int), c: int) -> bool {
    &&& before.wf()
    &&& after.wf()
    &&& after.width == before.width
    &&& after.height == before.height
    &&& before.in_bounds(q.0, q.1)
    &&& before.at(q.0, q.1) == -1
    &&& c != -1
    &&& forall|x: int, y: int|
        before.in_bounds(x, y) ==> #[trigger] after.at(x, y) == if (x, y) == q {
            c
        } else {
            before.at(x, y) as int
        }
}

/// The queue `after` is the queue `before` with `item` put in.
spec fn pushed(before: Seq<QueueItem>, after: Seq<QueueItem>, item: QueueItem) -> bool {
    &&& after.len() == before.len() + 1
    &&& forall|it: QueueItem| holds(after, it) <==> holds(before, it) || it == item
    &&& one_per_cell(before) && (forall|i: int|
        0 <= i < before.len() ==> before[i].location != item.location) ==> one_per_cell(after)
}

/// The queue `after` is the queue `before` with `top`, an item of the
/// highest level, taken out.
spec fn popped(before: Seq<QueueItem>, after: Seq<QueueItem>, top: QueueItem) -> bool {
    &&& holds(before, top)
    &&& after.len() == before.len() - 1
    &&& forall|it: QueueItem| holds(before, it) ==> it.density <= top.density
    &&& forall|it: QueueItem| holds(after, it) ==> holds(before, it)
    &&& forall|it: QueueItem| holds(before, it) && it != top ==> holds(after, it)
    &&& one_per_cell(before) ==> one_per_cell(after) && forall|it: QueueItem|
        holds(after, it) ==> it.location != top.location
}

/// A descent stays a descent while its cells keep their label.
proof fn lemma_descent_persists(
    levels: Grid<u32>,
    before: Grid<i32>,
    after: Grid<i32>,
    c: int,
    path: Seq<(int, int)>,
)
    requires
        is_descent(levels, before, c, path),
        after.width == before.width,
        after.height == before.height,
        forall|x: int, y: int|
            before.in_bounds(x, y) && before.at(x, y) == c ==> #[trigger] after.at(x, y) == c,
    ensures
        is_descent(levels, after, c, path),
{
    lemma_trail_persists(before, after, c, path);
}


/// Nothing is to be done for a cell beside `cur` that has a label or is
/// higher.
proof fn lemma_skip(levels: Grid<u32>, seeds: Seq<(i32, i32)>, g: Growth, p: (int, int))
    requires
        climbing(levels, seeds, g),
        g.cur == Some(p),
        0 <= g.tried < 4,
        blocked(levels, g, p, (p.0 + beside(g.tried).0, p.1 + beside(g.tried).1)),
    ensures
        climbing(levels, seeds, Growth { tried: g.tried + 1, ..g }),
{
    let next = Growth { tried: g.tried + 1, ..g };
    assert(shaped(levels, seeds, next));
    assert(queued(levels, next)) by {
        assert forall|it: QueueItem| #[trigger] holds(next.queue, it) implies {
            &&& next.labels.in_bounds(cell(it.location).0, cell(it.location).1)
            &&& next.labels.at(cell(it.location).0, cell(it.location).1) == it.cluster
            &&& it.cluster != -1
            &&& it.density == levels.at(cell(it.location).0, cell(it.location).1)
            &&& !next.done.contains(cell(it.location))
            &&& it.density <= next.ceiling
            &&& next.cur != Some(cell(it.location))
        } by {
            assert(holds(g.queue, it));
        }
    }
    assert(finished(levels, next)) by {
        assert forall|p2: (int, int)| #[trigger] next.done.contains(p2) implies {
            &&& next.labels.in_bounds(p2.0, p2.1)
            &&& next.labels.at(p2.0, p2.1) != -1
            &&& levels.at(p2.0, p2.1) >= next.ceiling
            &&& next.cur != Some(p2)
        } by {
            assert(g.done.contains(p2));
        }
    }
    assert(covered(next)) by {
        assert forall|x: int, y: int|
            next.labels.in_bounds(x, y) && #[trigger] next.labels.at(x, y) != -1 implies {
            ||| next.done.contains((x, y))
            ||| next.cur == Some((x, y))
            ||| exists|it: QueueItem| #[trigger]
                holds(next.queue, it) && cell(it.location) == (x, y)
        } by {
            assert(g.labels.at(x, y) != -1);
        }
    }
    assert(counted(next));
    assert(rooted(seeds, next)) by {
        assert forall|x: int, y: int|
            next.labels.in_bounds(x, y) && #[trigger] next.labels.at(x, y) != -1 implies (x, y)
            == cell(seeds[next.labels.at(x, y) as int]) || settled(
            next,
            cell(seeds[next.labels.at(x, y) as int]),
        ) by {
            assert(g.labels.at(x, y) != -1);
            let s = cell(seeds[g.labels.at(x, y) as int]);
            if (x, y) != s {
                assert(settled(g, s));
            }
        }
    }
    assert(trailed(levels, seeds, next)) by {
        reveal(trailed);
    }
    assert(parented(levels, seeds, next)) by {
        reveal(parented);
        assert forall|x: int, y: int|
            next.labels.in_bounds(x, y) && #[trigger] next.labels.at(x, y) != -1 implies is_seed(
            seeds,
            (x, y),
        ) || (next.parents.contains_key((x, y)) && is_parent(
            levels,
            next,
            (x, y),
            next.parents[(x, y)],
        )) by {
            if !is_seed(seeds, (x, y)) {
                let q = g.parents[(x, y)];
                assert(is_parent(levels, g, (x, y), q));
                assert forall|q2: (int, int)|
                    #[trigger] adjacent((x, y), q2) && settled(next, q2) implies levels.at(
                    q2.0,
                    q2.1,
                ) <= levels.at(q.0, q.1) by {
                    assert(settled(g, q2));
                }
            }
        }
    }
    assert(closed(levels, next)) by {
        assert forall|d: int| 0 <= d < next.tried implies #[trigger] blocked(
            levels,
            next,
            p,
            (p.0 + beside(d).0, p.1 + beside(d).1),
        ) by {
            if d < g.tried {
                assert(blocked(levels, g, p, (p.0 + beside(d).0, p.1 + beside(d).1)));
            }
        }
        assert forall|p2: (int, int), q: (int, int)|
            next.done.contains(p2) && #[trigger] adjacent(p2, q) implies blocked(
            levels,
            next,
            p2,
            q,
        ) by {
            assert(blocked(levels, g, p2, q));
        }
    }
}

/// The cell `q` beside `cur` is taken into the cluster of `cur`.
#[verifier::rlimit(30)]
proof fn lemma_claim(
    levels: Grid<u32>,
    seeds: Seq<(i32, i32)>,
    g: Growth,
    next: Growth,
    p: (int, int),
    q: (int, int),
    item: QueueItem,
)
    requires
        climbing(levels, seeds, g),
        g.cur == Some(p),
        0 <= g.tried < 4,
        q == (p.0 + beside(g.tried).0, p.1 + beside(g.tried).1),
        levels.at(q.0, q.1) <= levels.at(p.0, p.1),
        claimed(g.labels, next.labels, q, g.labels.at(p.0, p.1) as int),
        next.labels == g.labels.set(q.0, q.1, g.labels.at(p.0, p.1)),
        cell(item.location) == q,
        item.density == levels.at(q.0, q.1),
        item.cluster == g.labels.at(p.0, p.1),
        pushed(g.queue, next.queue, item),
        next.done == g.done,
        next.ceiling == g.ceiling,
        next.cur == g.cur,
        next.tried == g.tried + 1,
        next.trails == g.trails.insert(q, g.trails[p].push(q)),
        next.parents == g.parents.insert(q, p),
    ensures
        climbing(levels, seeds, next),
        labelled_below(next.labels.cells, -1, next.labels.cells.len()) + 1 == labelled_below(
            g.labels.cells,
            -1,
            g.labels.cells.len(),
        ),
{
    let c = g.labels.at(p.0, p.1) as int;
    assert(adjacent(p, q) && adjacent(q, p));
    assert(-1 <= g.labels.at(p.0, p.1) < seeds.len());
    lemma_offset_in_range(g.labels.width, g.labels.height, q.0, q.1);
    lemma_labelled_below_change(
        g.labels.cells,
        -1,
        g.labels.offset(q.0, q.1),
        g.labels.at(p.0, p.1),
        g.labels.cells.len(),
    );
    assert(shaped(levels, seeds, next)) by {
        assert forall|x: int, y: int| next.labels.in_bounds(x, y) implies -1
            <= #[trigger] next.labels.at(x, y) < seeds.len() by {
            assert(-1 <= g.labels.at(x, y) < seeds.len());
        }
        assert forall|k: int| 0 <= k < seeds.len() implies next.labels.in_bounds(
            cell(#[trigger] seeds[k]).0,
            cell(seeds[k]).1,
        ) && next.labels.at(cell(seeds[k]).0, cell(seeds[k]).1) == k by {
            assert(g.labels.at(cell(seeds[k]).0, cell(seeds[k]).1) == k);
        }
    }
    assert(queued(levels, next)) by {
        assert forall|i: int| 0 <= i < g.queue.len() implies g.queue[i].location
            != item.location by {
            assert(holds(g.queue, g.queue[i]));
        }
        assert forall|it: QueueItem| #[trigger] holds(next.queue, it) implies {
            &&& next.labels.in_bounds(cell(it.location).0, cell(it.location).1)
            &&& next.labels.at(cell(it.location).0, cell(it.location).1) == it.cluster
            &&& it.cluster != -1
            &&& it.density == levels.at(cell(it.location).0, cell(it.location).1)
            &&& !next.done.contains(cell(it.location))
            &&& it.density <= next.ceiling
            &&& next.cur != Some(cell(it.location))
        } by {
            if it != item {
                assert(holds(g.queue, it));
            } else {
                if g.done.contains(q) {
                    assert(g.labels.at(q.0, q.1) != -1);
                }
            }
        }
    }
    assert(finished(levels, next)) by {
        assert forall|p2: (int, int)| #[trigger] next.done.contains(p2) implies {
            &&& next.labels.in_bounds(p2.0, p2.1)
            &&& next.labels.at(p2.0, p2.1) != -1
            &&& levels.at(p2.0, p2.1) >= next.ceiling
            &&& next.cur != Some(p2)
        } by {
            assert(g.done.contains(p2));
        }
    }
    assert(covered(next)) by {
        assert forall|x: int, y: int|
            next.labels.in_bounds(x, y) && #[trigger] next.labels.at(x, y) != -1 implies {
            ||| next.done.contains((x, y))
            ||| next.cur == Some((x, y))
            ||| exists|it: QueueItem| #[trigger]
                holds(next.queue, it) && cell(it.location) == (x, y)
        } by {
            if (x, y) == q {
                assert(holds(next.queue, item) && cell(item.location) == q);
            } else {
                assert(g.labels.at(x, y) != -1);
                if !g.done.contains((x, y)) && g.cur != Some((x, y)) {
                    let it = choose|it: QueueItem| #[trigger]
                        holds(g.queue, it) && cell(it.location) == (x, y);
                    assert(holds(next.queue, it));
                }
            }
        }
    }
    assert(closed(levels, next)) by {
        assert forall|p2: (int, int), q2: (int, int)|
            next.done.contains(p2) && #[trigger] adjacent(p2, q2) implies blocked(
            levels,
            next,
            p2,
            q2,
        ) by {
            assert(blocked(levels, g, p2, q2));
        }
        assert forall|d: int| 0 <= d < next.tried implies #[trigger] blocked(
            levels,
            next,
            p,
            (p.0 + beside(d).0, p.1 + beside(d).1),
        ) by {
            if d < g.tried {
                assert(blocked(levels, g, p, (p.0 + beside(d).0, p.1 + beside(d).1)));
            }
        }
    }
    assert(rooted(seeds, next)) by {
        assert forall|x: int, y: int|
            next.labels.in_bounds(x, y) && #[trigger] next.labels.at(x, y) != -1 implies (x, y)
            == cell(seeds[next.labels.at(x, y) as int]) || settled(
            next,
            cell(seeds[next.labels.at(x, y) as int]),
        ) by {
            if (x, y) == q {
                let s = cell(seeds[c]);
                assert(g.labels.at(p.0, p.1) != -1);
                if p != s {
                    assert(settled(g, s));
                }
                assert(settled(g, p));
                assert(settled(next, s));
            } else {
                assert(g.labels.at(x, y) != -1);
                let s = cell(seeds[g.labels.at(x, y) as int]);
                if (x, y) != s {
                    assert(settled(g, s));
                    assert(settled(next, s));
                }
            }
        }
    }
    assert(trailed(levels, seeds, next)) by {
        reveal(trailed);
        assert forall|x: int, y: int|
            next.labels.in_bounds(x, y) && #[trigger] next.labels.at(x, y) != -1 implies {
            &&& next.trails.contains_key((x, y))
            &&& is_descent(levels, next.labels, next.labels.at(x, y) as int, next.trails[(x, y)])
            &&& next.trails[(x, y)].first() == cell(seeds[next.labels.at(x, y) as int])
            &&& next.trails[(x, y)].last() == (x, y)
        } by {
            assert(g.labels.at(p.0, p.1) != -1);
            if (x, y) == q {
                lemma_descent_persists(levels, g.labels, next.labels, c, g.trails[p]);
                lemma_descent_extends(levels, next.labels, c, g.trails[p], q);
            } else {
                assert(g.labels.at(x, y) != -1);
                lemma_descent_persists(
                    levels,
                    g.labels,
                    next.labels,
                    g.labels.at(x, y) as int,
                    g.trails[(x, y)],
                );
            }
        }
    }
    assert(parented(levels, seeds, next)) by {
        reveal(parented);
        assert forall|x: int, y: int|
            next.labels.in_bounds(x, y) && #[trigger] next.labels.at(x, y) != -1 implies is_seed(
            seeds,
            (x, y),
        ) || (next.parents.contains_key((x, y)) && is_parent(
            levels,
            next,
            (x, y),
            next.parents[(x, y)],
        )) by {
            if (x, y) == q {
                assert forall|q2: (int, int)|
                    #[trigger] adjacent(q, q2) && settled(next, q2) implies levels.at(q2.0, q2.1)
                    <= levels.at(p.0, p.1) by {
                    if g.done.contains(q2) {
                        assert(adjacent(q2, q));
                        assert(blocked(levels, g, q2, q));
                    }
                }
                assert(is_parent(levels, next, q, p));
            } else {
                assert(g.labels.at(x, y) != -1);
                if !is_seed(seeds, (x, y)) {
                    let parent = g.parents[(x, y)];
                    assert(is_parent(levels, g, (x, y), parent));
                    assert(settled(g, parent));
                    assert(g.labels.at(parent.0, parent.1) != -1);
                    assert forall|q2: (int, int)|
                        #[trigger] adjacent((x, y), q2) && settled(next, q2) implies levels.at(
                        q2.0,
                        q2.1,
                    ) <= levels.at(parent.0, parent.1) by {
                        assert(settled(g, q2));
                    }
                    assert(is_parent(levels, next, (x, y), parent));
                }
            }
        }
    }
}

/// The highest of the waiting cells is taken up.
proof fn lemma_pop(levels: Grid<u32>, seeds: Seq<(i32, i32)>, g: Growth, next: Growth, top: QueueItem)
    requires
        climbing(levels, seeds, g),
        g.cur is None,
        popped(g.queue, next.queue, top),
        next.labels == g.labels,
        next.done == g.done,
        next.ceiling == top.density,
        next.cur == Some(cell(top.location)),
        next.tried == 0,
        next.trails == g.trails,
        next.parents == g.parents,
    ensures
        climbing(levels, seeds, next),
        top.cluster == g.labels.at(cell(top.location).0, cell(top.location).1),
        top.cluster != -1,
        g.labels.in_bounds(cell(top.location).0, cell(top.location).1),
        top.density == levels.at(cell(top.location).0, cell(top.location).1),
        !g.done.contains(cell(top.location)),
{
    let p = cell(top.location);
    assert(holds(g.queue, top));
    assert(queued(levels, next)) by {
        assert forall|it: QueueItem| #[trigger] holds(next.queue, it) implies {
            &&& next.labels.in_bounds(cell(it.location).0, cell(it.location).1)
            &&& next.labels.at(cell(it.location).0, cell(it.location).1) == it.cluster
            &&& it.cluster != -1
            &&& it.density == levels.at(cell(it.location).0, cell(it.location).1)
            &&& !next.done.contains(cell(it.location))
            &&& it.density <= next.ceiling
            &&& next.cur != Some(cell(it.location))
        } by {
            assert(holds(g.queue, it));
        }
    }
    assert(finished(levels, next)) by {
        assert forall|p2: (int, int)| #[trigger] next.done.contains(p2) implies {
            &&& next.labels.in_bounds(p2.0, p2.1)
            &&& next.labels.at(p2.0, p2.1) != -1
            &&& levels.at(p2.0, p2.1) >= next.ceiling
            &&& next.cur != Some(p2)
        } by {
            assert(g.done.contains(p2));
        }
    }
    assert(covered(next)) by {
        assert forall|x: int, y: int|
            next.labels.in_bounds(x, y) && #[trigger] next.labels.at(x, y) != -1 implies {
            ||| next.done.contains((x, y))
            ||| next.cur == Some((x, y))
            ||| exists|it: QueueItem| #[trigger]
                holds(next.queue, it) && cell(it.location) == (x, y)
        } by {
            assert(g.labels.at(x, y) != -1);
            if !g.done.contains((x, y)) {
                let it = choose|it: QueueItem| #[trigger]
                    holds(g.queue, it) && cell(it.location) == (x, y);
                if it != top {
                    assert(holds(next.queue, it));
                }
            }
        }
    }
    assert(closed(levels, next)) by {
        assert forall|p2: (int, int), q2: (int, int)|
            next.done.contains(p2) && #[trigger] adjacent(p2, q2) implies blocked(
            levels,
            next,
            p2,
            q2,
        ) by {
            assert(blocked(levels, g, p2, q2));
        }
    }
    assert(rooted(seeds, next)) by {
        assert forall|x: int, y: int|
            next.labels.in_bounds(x, y) && #[trigger] next.labels.at(x, y) != -1 implies (x, y)
            == cell(seeds[next.labels.at(x, y) as int]) || settled(
            next,
            cell(seeds[next.labels.at(x, y) as int]),
        ) by {
            assert(g.labels.at(x, y) != -1);
            let s = cell(seeds[g.labels.at(x, y) as int]);
            if (x, y) != s {
                assert(settled(g, s));
                assert(g.done.contains(s));
            }
        }
    }
    assert(trailed(levels, seeds, next)) by {
        reveal(trailed);
    }
    assert(parented(levels, seeds, next)) by {
        reveal(parented);
        assert forall|x: int, y: int|
            next.labels.in_bounds(x, y) && #[trigger] next.labels.at(x, y) != -1 implies is_seed(
            seeds,
            (x, y),
        ) || (next.parents.contains_key((x, y)) && is_parent(
            levels,
            next,
            (x, y),
            next.parents[(x, y)],
        )) by {
            if !is_seed(seeds, (x, y)) {
                let parent = g.parents[(x, y)];
                assert(is_parent(levels, g, (x, y), parent));
                assert(settled(g, parent));
                assert forall|q2: (int, int)|
                    #[trigger] adjacent((x, y), q2) && settled(next, q2) implies levels.at(
                    q2.0,
                    q2.1,
                ) <= levels.at(parent.0, parent.1) by {
                    if g.done.contains(q2) {
                        assert(settled(g, q2));
                    }
                }
                assert(is_parent(levels, next, (x, y), parent));
            }
        }
    }
}

/// The cell `cur` has looked at the four cells beside it.
proof fn lemma_finish(levels: Grid<u32>, seeds: Seq<(i32, i32)>, g: Growth, p: (int, int))
    requires
        climbing(levels, seeds, g),
        g.cur == Some(p),
        g.tried == 4,
    ensures
        climbing(levels, seeds, Growth { done: g.done.insert(p), cur: None, tried: 0, ..g }),
        !g.done.contains(p),
{
    let next = Growth { done: g.done.insert(p), cur: None, tried: 0, ..g };
    if g.done.contains(p) {
        assert(g.cur != Some(p));
    }
    assert(queued(levels, next)) by {
        assert forall|it: QueueItem| #[trigger] holds(next.queue, it) implies {
            &&& next.labels.in_bounds(cell(it.location).0, cell(it.location).1)
            &&& next.labels.at(cell(it.location).0, cell(it.location).1) == it.cluster
            &&& it.cluster != -1
            &&& it.density == levels.at(cell(it.location).0, cell(it.location).1)
            &&& !next.done.contains(cell(it.location))
            &&& it.density <= next.ceiling
            &&& next.cur != Some(cell(it.location))
        } by {
            assert(holds(g.queue, it));
        }
    }
    assert(finished(levels, next)) by {
        assert forall|p2: (int, int)| #[trigger] next.done.contains(p2) implies {
            &&& next.labels.in_bounds(p2.0, p2.1)
            &&& next.labels.at(p2.0, p2.1) != -1
            &&& levels.at(p2.0, p2.1) >= next.ceiling
            &&& next.cur != Some(p2)
        } by {
            if p2 != p {
                assert(g.done.contains(p2));
            }
        }
    }
    assert(covered(next)) by {
        assert forall|x: int, y: int|
            next.labels.in_bounds(x, y) && #[trigger] next.labels.at(x, y) != -1 implies {
            ||| next.done.contains((x, y))
            ||| next.cur == Some((x, y))
            ||| exists|it: QueueItem| #[trigger]
                holds(next.queue, it) && cell(it.location) == (x, y)
        } by {
            assert(g.labels.at(x, y) != -1);
        }
    }
    assert(closed(levels, next)) by {
        assert forall|p2: (int, int), q2: (int, int)|
            next.done.contains(p2) && #[trigger] adjacent(p2, q2) implies blocked(
            levels,
            next,
            p2,
            q2,
        ) by {
            if p2 == p {
                let d = if q2.0 == p.0 - 1 {
                    0int
                } else if q2.0 == p.0 + 1 {
                    1int
                } else if q2.1 == p.1 - 1 {
                    2int
                } else {
                    3int
                };
                assert(q2 == (p.0 + beside(d).0, p.1 + beside(d).1));
                assert(blocked(levels, g, p, (p.0 + beside(d).0, p.1 + beside(d).1)));
            } else {
                assert(blocked(levels, g, p2, q2));
            }
        }
    }
    assert(rooted(seeds, next)) by {
        assert forall|x: int, y: int|
            next.labels.in_bounds(x, y) && #[trigger] next.labels.at(x, y) != -1 implies (x, y)
            == cell(seeds[next.labels.at(x, y) as int]) || settled(
            next,
            cell(seeds[next.labels.at(x, y) as int]),
        ) by {
            assert(g.labels.at(x, y) != -1);
            let s = cell(seeds[g.labels.at(x, y) as int]);
            if (x, y) != s {
                assert(settled(g, s));
            }
        }
    }
    assert(trailed(levels, seeds, next)) by {
        reveal(trailed);
    }
    assert(parented(levels, seeds, next)) by {
        reveal(parented);
        assert forall|x: int, y: int|
            next.labels.in_bounds(x, y) && #[trigger] next.labels.at(x, y) != -1 implies is_seed(
            seeds,
            (x, y),
        ) || (next.parents.contains_key((x, y)) && is_parent(
            levels,
            next,
            (x, y),
            next.parents[(x, y)],
        )) by {
            if !is_seed(seeds, (x, y)) {
                let parent = g.parents[(x, y)];
                assert(is_parent(levels, g, (x, y), parent));
                assert(settled(g, parent));
                assert forall|q2: (int, int)|
                    #[trigger] adjacent((x, y), q2) && settled(next, q2) implies levels.at(
                    q2.0,
                    q2.1,
                ) <= levels.at(parent.0, parent.1) by {
                    assert(settled(g, q2));
                }
                assert(is_parent(levels, next, (x, y), parent));
            }
        }
    }
}


/// One more seed starts a cluster of its own.
proof fn lemma_seed(
    levels: Grid<u32>,
    seeds: Seq<(i32, i32)>,
    g: Growth,
    next: Growth,
    s: (i32, i32),
    item: QueueItem,
)
    requires
        climbing(levels, seeds, g),
        g.cur is None,
        g.done == Set::<(int, int)>::empty(),
        g.ceiling == u32::MAX,
        seeds.len() < i32::MAX,
        claimed(g.labels, next.labels, cell(s), seeds.len() as int),
        next.labels == g.labels.set(cell(s).0, cell(s).1, seeds.len() as i32),
        item.location == s,
        item.density == levels.at(cell(s).0, cell(s).1),
        item.cluster == seeds.len(),
        pushed(g.queue, next.queue, item),
        next.done == g.done,
        next.ceiling == g.ceiling,
        next.cur == g.cur,
        next.tried == g.tried,
        next.trails == g.trails.insert(cell(s), seq![cell(s)]),
        next.parents == g.parents,
        forall|x: int, y: int|
            g.labels.in_bounds(x, y) && #[trigger] g.labels.at(x, y) != -1 ==> is_seed(seeds, (x, y)),
    ensures
        climbing(levels, seeds.push(s), next),
        forall|x: int, y: int|
            next.labels.in_bounds(x, y) && #[trigger] next.labels.at(x, y) != -1 ==> is_seed(
                seeds.push(s),
                (x, y),
            ),
        labelled_below(next.labels.cells, -1, next.labels.cells.len()) + 1 == labelled_below(
            g.labels.cells,
            -1,
            g.labels.cells.len(),
        ),
{
    let q = cell(s);
    let more = seeds.push(s);
    let c = seeds.len() as int;
    lemma_offset_in_range(g.labels.width, g.labels.height, q.0, q.1);
    lemma_labelled_below_change(
        g.labels.cells,
        -1,
        g.labels.offset(q.0, q.1),
        seeds.len() as i32,
        g.labels.cells.len(),
    );
    assert forall|x: int, y: int|
        next.labels.in_bounds(x, y) && #[trigger] next.labels.at(x, y) != -1 implies is_seed(
        more,
        (x, y),
    ) by {
        if (x, y) == q {
            assert(cell(more[c]) == q);
        } else {
            assert(g.labels.at(x, y) != -1);
            let k = choose|k: int| 0 <= k < seeds.len() && cell(#[trigger] seeds[k]) == (x, y);
            assert(cell(more[k]) == (x, y));
        }
    }
    assert(shaped(levels, more, next)) by {
        assert forall|x: int, y: int| next.labels.in_bounds(x, y) implies -1
            <= #[trigger] next.labels.at(x, y) < more.len() by {
            assert(-1 <= g.labels.at(x, y) < seeds.len());
        }
        assert forall|k: int| 0 <= k < more.len() implies next.labels.in_bounds(
            cell(#[trigger] more[k]).0,
            cell(more[k]).1,
        ) && next.labels.at(cell(more[k]).0, cell(more[k]).1) == k by {
            if k < seeds.len() {
                assert(more[k] == seeds[k]);
                assert(g.labels.at(cell(seeds[k]).0, cell(seeds[k]).1) == k);
            }
        }
    }
    assert(queued(levels, next)) by {
        assert forall|i: int| 0 <= i < g.queue.len() implies g.queue[i].location
            != item.location by {
            assert(holds(g.queue, g.queue[i]));
        }
        assert forall|it: QueueItem| #[trigger] holds(next.queue, it) implies {
            &&& next.labels.in_bounds(cell(it.location).0, cell(it.location).1)
            &&& next.labels.at(cell(it.location).0, cell(it.location).1) == it.cluster
            &&& it.cluster != -1
            &&& it.density == levels.at(cell(it.location).0, cell(it.location).1)
            &&& !next.done.contains(cell(it.location))
            &&& it.density <= next.ceiling
            &&& next.cur != Some(cell(it.location))
        } by {
            if it != item {
                assert(holds(g.queue, it));
            }
        }
    }
    assert(covered(next)) by {
        assert forall|x: int, y: int|
            next.labels.in_bounds(x, y) && #[trigger] next.labels.at(x, y) != -1 implies {
            ||| next.done.contains((x, y))
            ||| next.cur == Some((x, y))
            ||| exists|it: QueueItem| #[trigger]
                holds(next.queue, it) && cell(it.location) == (x, y)
        } by {
            if (x, y) == q {
                assert(holds(next.queue, item) && cell(item.location) == q);
            } else {
                assert(g.labels.at(x, y) != -1);
                let it = choose|it: QueueItem| #[trigger]
                    holds(g.queue, it) && cell(it.location) == (x, y);
                assert(holds(next.queue, it));
            }
        }
    }
    assert(trailed(levels, more, next)) by {
        reveal(trailed);
        assert forall|x: int, y: int|
            next.labels.in_bounds(x, y) && #[trigger] next.labels.at(x, y) != -1 implies {
            &&& next.trails.contains_key((x, y))
            &&& is_descent(levels, next.labels, next.labels.at(x, y) as int, next.trails[(x, y)])
            &&& next.trails[(x, y)].first() == cell(more[next.labels.at(x, y) as int])
            &&& next.trails[(x, y)].last() == (x, y)
        } by {
            if (x, y) == q {
                assert(is_trail(next.labels, c, seq![q]));
            } else {
                assert(g.labels.at(x, y) != -1);
                assert(-1 <= g.labels.at(x, y) < seeds.len());
                assert(more[g.labels.at(x, y) as int] == seeds[g.labels.at(x, y) as int]);
                lemma_descent_persists(
                    levels,
                    g.labels,
                    next.labels,
                    g.labels.at(x, y) as int,
                    g.trails[(x, y)],
                );
            }
        }
    }
    assert(parented(levels, more, next)) by {
        reveal(parented);
    }
    assert(rooted(more, next)) by {
        assert forall|x: int, y: int|
            next.labels.in_bounds(x, y) && #[trigger] next.labels.at(x, y) != -1 implies (x, y)
            == cell(more[next.labels.at(x, y) as int]) || settled(
            next,
            cell(more[next.labels.at(x, y) as int]),
        ) by {
            if (x, y) != q {
                assert(g.labels.at(x, y) != -1);
                let k = choose|k: int| 0 <= k < seeds.len() && cell(#[trigger] seeds[k]) == (x, y);
                assert(g.labels.at(cell(seeds[k]).0, cell(seeds[k]).1) == k);
                assert(more[k] == seeds[k]);
            }
        }
    }
}

proof fn lemma_all_unlabelled(cells: Seq<i32>, k: nat)
    requires
        k <= cells.len(),
        forall|i: int| 0 <= i < cells.len() ==> cells[i] == -1,
    ensures
        labelled_below(cells, -1, k) == k,
    decreases k,
{
    if k > 0 {
        lemma_all_unlabelled(cells, (k - 1) as nat);
    }
}

/// The cells of `done` that carry the label `c`.
spec fn done_in(done: Set<(int, int)>, labels: Grid<i32>, c: int) -> Set<(int, int)> {
    Set::new(|p: (int, int)| done.contains(p) && labels.at(p.0, p.1) == c)
}

/// The summary of a cluster is empty until its seed has passed the cluster
/// on, and peaks at the seed from then on.
spec fn peaks_at_seeds(
    levels: Grid<u32>,
    seeds: Seq<(i32, i32)>,
    done: Set<(int, int)>,
    clusters: Seq<ClusterSummary>,
) -> bool {
    forall|c: int|
        0 <= c < seeds.len() ==> if done.contains(cell(seeds[c])) {
            &&& (#[trigger] clusters[c]).max_density == levels.at(cell(seeds[c]).0, cell(seeds[c]).1)
            &&& clusters[c].max_density_location == seeds[c]
        } else {
            clusters[c] == zero_summary()
        }
}

/// Looks at the `d`-th cell beside the cell of `top` and takes it into the
/// cluster of `top` if it carries no label yet and is no higher.
fn descend(
    density_map: &Array2D<u32>,
    cluster_map: &mut Array2D<i32>,
    heap: &mut DensityQueue,
    top: QueueItem,
    d: u8,
    Ghost(seeds): Ghost<Seq<(i32, i32)>>,
    Ghost(g): Ghost<Growth>,
) -> (r: Ghost<Growth>)
    requires
        d < 4,
        old(heap).wf(),
        g.labels == old(cluster_map)@,
        g.queue == old(heap)@,
        g.cur == Some(cell(top.location)),
        g.tried == d,
        g.ceiling == top.density,
        top.cluster == old(cluster_map)@.at(cell(top.location).0, cell(top.location).1),
        top.density == density_map@.at(cell(top.location).0, cell(top.location).1),
        climbing(density_map@, seeds, g),
    ensures
        final(heap).wf(),
        r@.labels == final(cluster_map)@,
        r@.queue == final(heap)@,
        r@.cur == g.cur,
        r@.tried == d + 1,
        r@.ceiling == g.ceiling,
        r@.done == g.done,
        climbing(density_map@, seeds, r@),
        top.cluster == final(cluster_map)@.at(cell(top.location).0, cell(top.location).1),
        forall|p: (int, int)|
            g.done.contains(p) ==> final(cluster_map)@.at(p.0, p.1) == old(cluster_map)@.at(
                p.0,
                p.1,
            ),
        2 * labelled_below(final(cluster_map)@.cells, -1, final(cluster_map)@.cells.len())
            + final(heap)@.len() <= 2 * labelled_below(
            old(cluster_map)@.cells,
            -1,
            old(cluster_map)@.cells.len(),
        ) + old(heap)@.len(),
{
    let width = cluster_map.width();
    let height = cluster_map.height();
    let ghost levels = density_map@;
    let ghost p = cell(top.location);
    let (x, y) = top.location;
    let (dx, dy): (i32, i32) = if d == 0 {
        (-1, 0)
    } else if d == 1 {
        (1, 0)
    } else if d == 2 {
        (0, -1)
    } else {
        (0, 1)
    };
    assert((dx as int, dy as int) == beside(d as int));
    let (px, py) = (x + dx, y + dy);
    let ghost q = (px as int, py as int);
    if px < 0 || px >= width || py < 0 || py >= height {
        proof {
            lemma_skip(levels, seeds, g, p);
        }
        return Ghost(Growth { tried: g.tried + 1, ..g });
    }
    if *cluster_map.get(px, py) != -1 {
        proof {
            lemma_skip(levels, seeds, g, p);
        }
        return Ghost(Growth { tried: g.tried + 1, ..g });
    }
    let density = *density_map.get(px, py);
    if density > top.density {
        proof {
            lemma_skip(levels, seeds, g, p);
        }
        return Ghost(Growth { tried: g.tried + 1, ..g });
    }
    cluster_map.set(px, py, top.cluster);
    let item = QueueItem { location: (px, py), density, cluster: top.cluster };
    heap.push(item);
    let ghost next = Growth {
        labels: cluster_map@,
        queue: heap@,
        done: g.done,
        ceiling: g.ceiling,
        trails: g.trails.insert(q, g.trails[p].push(q)),
        parents: g.parents.insert(q, p),
        cur: g.cur,
        tried: g.tried + 1,
    };
    proof {
        assert(-1 <= g.labels.at(p.0, p.1) < seeds.len());
        assert(g.labels.at(p.0, p.1) != -1);
        lemma_claim(levels, seeds, g, next, p, q, item);
        assert forall|p2: (int, int)| g.done.contains(p2) implies cluster_map@.at(p2.0, p2.1)
            == old(cluster_map)@.at(p2.0, p2.1) by {
            assert(g.labels.at(p2.0, p2.1) != -1);
        }
    }
    Ghost(next)
}

/// The cell `q` is one that `p` may have got its cluster from: it lies
/// beside `p`, in the same cluster, at least as high as `p` and as every
/// cell beside `p` that has a label.
pub open spec fn climbs_to(levels: Grid<u32>, labels: Grid<i32>, p: (int, int), q: (int, int)) -> bool {
    &&& adjacent(p, q)
    &&& labels.in_bounds(q.0, q.1)
    &&& labels.at(q.0, q.1) == labels.at(p.0, p.1)
    &&& levels.at(q.0, q.1) >= levels.at(p.0, p.1)
    &&& forall|q2: (int, int)|
        #[trigger] adjacent(p, q2) && labels.in_bounds(q2.0, q2.1) && labels.at(q2.0, q2.1) != -1
            ==> levels.at(q2.0, q2.1) <= levels.at(q.0, q.1)
}

/// What the growth from the local maxima leaves: every local maximum has
/// the cluster of its number; every cell with a cluster is reached from the
/// local maximum of that cluster by a trail of its cells that never rises,
/// and got the cluster from a cell beside it that is at least as high as it
/// and as every other cell with a cluster beside it; a cell without a
/// cluster is higher than every cell with a cluster beside it; and each
/// summary is that of the cells of its cluster, with the peak at its local
/// maximum.
pub open spec fn grown_from_maxima(
    levels: Grid<u32>,
    labels: Grid<i32>,
    summaries: Seq<ClusterSummary>,
) -> bool {
    let seeds = local_maxima(levels, levels.cells.len());
    &&& labels.wf()
    &&& labels.width == levels.width
    &&& labels.height == levels.height
    &&& summaries.len() == seeds.len()
    &&& forall|x: int, y: int|
        labels.in_bounds(x, y) ==> -1 <= #[trigger] labels.at(x, y) < summaries.len()
    &&& forall|k: int|
        0 <= k < summaries.len() ==> labels.at(cell(#[trigger] seeds[k]).0, cell(seeds[k]).1) == k
    &&& forall|x: int, y: int|
        labels.in_bounds(x, y) && #[trigger] labels.at(x, y) != -1 ==> descends(
            levels,
            labels,
            labels.at(x, y) as int,
            cell(seeds[labels.at(x, y) as int]),
            (x, y),
        )
    &&& forall|x: int, y: int|
        labels.in_bounds(x, y) && #[trigger] labels.at(x, y) != -1 ==> is_seed(seeds, (x, y))
            || exists|q: (int, int)| #[trigger] climbs_to(levels, labels, (x, y), q)
    &&& forall|p: (int, int), q: (int, int)|
        labels.in_bounds(p.0, p.1) && labels.in_bounds(q.0, q.1) && #[trigger] adjacent(p, q)
            && labels.at(p.0, p.1) == -1 && labels.at(q.0, q.1) != -1 ==> levels.at(q.0, q.1)
            < levels.at(p.0, p.1)
    &&& forall|c: int|
        0 <= c < summaries.len() ==> summarizes(levels, region(labels, c), #[trigger] summaries[c])
    &&& forall|c: int| 0 <= c < summaries.len() ==> (#[trigger] summaries[c]).num_pixels >= 1
    &&& forall|c: int|
        0 <= c < summaries.len() ==> (#[trigger] summaries[c]).max_density == levels.at(
            cell(seeds[c]).0,
            cell(seeds[c]).1,
        ) && summaries[c].max_density_location == seeds[c]
}

/// Grows a cluster from every local maximum of the raster. The cells that
/// belong to a cluster pass it on in the order of their level, the highest
/// first: a cell gives its cluster to each cell beside it that has none
/// yet and is no higher. The clusters are numbered by their local maxima in
/// row-major order; cells that no cluster reaches keep the label -1.
/// Returns the label of every cell and the summary of every cluster.
pub fn find_initial_clusters(density_map: &Array2D<u32>) -> (r: (Array2D<i32>, Vec<ClusterSummary>))
    requires
        density_map@.wf(),
        density_map@.cells.len() <= i32::MAX,
    ensures
        grown_from_maxima(density_map@, r.0@, r.1@),
{
    let width = density_map.width();
    let height = density_map.height();
    let ghost levels = density_map@;
    let cell_count = density_map.as_slice().len();
    assert(width * height == cell_count);
    let mut cluster_map = Array2D::<i32>::new_with_constant(width, height, -1);
    let local_maxima = find_local_maxima(density_map);
    let ghost maxima = local_maxima@;
    let mut heap = DensityQueue::new();
    let mut clusters: Vec<ClusterSummary> = Vec::new();
    let ghost mut g = Growth {
        labels: cluster_map@,
        queue: heap@,
        done: Set::empty(),
        ceiling: u32::MAX as int,
        trails: Map::empty(),
        parents: Map::empty(),
        cur: None,
        tried: 0,
    };
    proof {
        lemma_all_unlabelled(cluster_map@.cells, cluster_map@.cells.len());
        assert forall|x: int, y: int| g.labels.in_bounds(x, y) implies #[trigger] g.labels.at(x, y)
            == -1 by {
            lemma_offset_in_range(width as int, height as int, x, y);
        }
        assert(trailed(levels, Seq::<(i32, i32)>::empty(), g)) by {
            reveal(trailed);
        }
        assert(parented(levels, Seq::<(i32, i32)>::empty(), g)) by {
            reveal(parented);
        }
        assert(climbing(levels, Seq::<(i32, i32)>::empty(), g));
        assert(maxima.take(0) =~= Seq::<(i32, i32)>::empty());
        if maxima.len() > 0 {
            lemma_local_maxima_ascend(levels, levels.cells.len(), 0, 0);
        }
    }
    let mut k: usize = 0;
    while k < local_maxima.len()
        invariant
            levels == density_map@,
            levels.wf(),
            levels.cells.len() <= i32::MAX,
            maxima == local_maxima@,
            maxima == crate::find_local_maxima::local_maxima(levels, levels.cells.len()),
            maxima.len() <= levels.cells.len(),
            width == levels.width,
            height == levels.height,
            k <= maxima.len(),
            clusters@.len() == k,
            forall|c: int| 0 <= c < k ==> #[trigger] clusters@[c] == zero_summary(),
            heap.wf(),
            g.labels == cluster_map@,
            g.queue == heap@,
            g.done == Set::<(int, int)>::empty(),
            g.cur is None,
            g.ceiling == u32::MAX,
            g.tried == 0,
            climbing(levels, maxima.take(k as int), g),
            forall|x: int, y: int|
                g.labels.in_bounds(x, y) && #[trigger] g.labels.at(x, y) != -1 ==> is_seed(
                    maxima.take(k as int),
                    (x, y),
                ),
        decreases maxima.len() - k,
    {
        let location = local_maxima[k];
        let ghost seeds = maxima.take(k as int);
        proof {
            lemma_local_maxima_ascend(levels, levels.cells.len(), k as int, k as int);
            let s = cell(location);
            if g.labels.at(s.0, s.1) != -1 {
                let i = choose|i: int| 0 <= i < seeds.len() && cell(#[trigger] seeds[i]) == s;
                assert(seeds[i] == maxima[i]);
                lemma_local_maxima_ascend(levels, levels.cells.len(), i, k as int);
            }
        }
        let cluster = clusters.len() as i32;
        clusters.push(ClusterSummary::zero());
        let item = QueueItem {
            location,
            density: *density_map.get(location.0, location.1),
            cluster,
        };
        heap.push(item);
        cluster_map.set(location.0, location.1, cluster);
        proof {
            let next = Growth {
                labels: cluster_map@,
                queue: heap@,
                trails: g.trails.insert(cell(location), seq![cell(location)]),
                ..g
            };
            lemma_seed(levels, seeds, g, next, location, item);
            assert(maxima.take(k + 1) =~= seeds.push(location));
            g = next;
        }
        k += 1;
    }
    let ghost seeds = maxima;
    proof {
        assert(peaks_at_seeds(levels, seeds, g.done, clusters@));
        assert(maxima.take(k as int) =~= maxima);
        assert forall|c: int| 0 <= c < clusters@.len() implies summarizes(
            levels,
            done_in(g.done, g.labels, c),
            #[trigger] clusters@[c],
        ) by {
            assert(done_in(g.done, g.labels, c) =~= Set::<(int, int)>::empty());
        }
    }
    loop
        invariant
            levels == density_map@,
            levels.wf(),
            cell_count == levels.cells.len(),
            clusters@.len() == seeds.len(),
            heap.wf(),
            g.labels == cluster_map@,
            g.queue == heap@,
            g.cur is None,
            g.tried == 0,
            climbing(levels, seeds, g),
            seeds == crate::find_local_maxima::local_maxima(levels, levels.cells.len()),
            levels.cells.len() <= i32::MAX,
            levels.width <= i32::MAX,
            levels.height <= i32::MAX,
            peaks_at_seeds(levels, seeds, g.done, clusters@),
            forall|c: int|
                0 <= c < clusters@.len() ==> summarizes(
                    levels,
                    done_in(g.done, g.labels, c),
                    #[trigger] clusters@[c],
                ),
        ensures
            heap@.len() == 0,
        decreases
                2 * labelled_below(cluster_map@.cells, -1, cluster_map@.cells.len()) + heap@.len(),
    {
        let ghost before = g;
        let ghost waiting = heap@.len();
        let top = match heap.pop() {
            Some(top) => top,
            None => {
                break ;
            },
        };
        let ghost p = cell(top.location);
        proof {
            let next = Growth {
                queue: heap@,
                ceiling: top.density as int,
                cur: Some(p),
                tried: 0,
                ..g
            };
            lemma_pop(levels, seeds, g, next, top);
            g = next;
        }
        let mut d: u8 = 0;
        while d < 4
            invariant
                0 <= d <= 4,
                levels == density_map@,
                heap.wf(),
                g.labels == cluster_map@,
                g.queue == heap@,
                g.cur == Some(cell(top.location)),
                g.tried == d,
                g.ceiling == top.density,
                g.done == before.done,
                p == cell(top.location),
                top.cluster == cluster_map@.at(p.0, p.1),
                top.density == levels.at(p.0, p.1),
                climbing(levels, seeds, g),
                forall|p2: (int, int)|
                    before.done.contains(p2) ==> cluster_map@.at(p2.0, p2.1) == before.labels.at(
                        p2.0,
                        p2.1,
                    ),
                2 * labelled_below(cluster_map@.cells, -1, cluster_map@.cells.len()) + heap@.len()
                    <= 2 * labelled_below(before.labels.cells, -1, before.labels.cells.len())
                    + waiting - 1,
            decreases 4 - d,
        {
            let Ghost(next) = descend(
                density_map,
                &mut cluster_map,
                &mut heap,
                top,
                d,
                Ghost(seeds),
                Ghost(g),
            );
            proof {
                g = next;
            }
            d += 1;
        }
        let ghost found = clusters@;
        proof {
            lemma_finish(levels, seeds, g, p);
            let c = top.cluster as int;
            assert(-1 <= g.labels.at(p.0, p.1) < seeds.len());
            let mine = done_in(before.done, before.labels, c);
            assert(summarizes(levels, mine, found[c]));
            assert(mine.subset_of(g.done));
            vstd::set_lib::lemma_len_subset(mine, g.done);
            lemma_labelled_below_bound(g.labels.cells, -1, g.labels.cells.len());
            lemma_updated_summarizes(levels, mine, found[c], top.location);
        }
        proof {
            let c = top.cluster as int;
            let s = cell(seeds[c]);
            if p == s {
                lemma_local_maxima_ascend(levels, levels.cells.len(), c, c);
                assert(is_local_maximum(levels, s.0, s.1));
                assert(found[c] == zero_summary());
            } else {
                assert(settled(g, s));
                assert(g.done.contains(s));
                assert(is_descent(levels, g.labels, c, g.trails[p]) && g.trails[p].first() == s
                    && g.trails[p].last() == p) by {
                    reveal(trailed);
                }
                lemma_descent_falls(levels, g.labels, c, g.trails[p]);
            }
        }
        let mut summary = clusters[top.cluster as usize];
        summary.update(top.location, top.density);
        clusters[top.cluster as usize] = summary;
        proof {
            let next = Growth { done: g.done.insert(p), cur: None, tried: 0, ..g };
            let c = top.cluster as int;
            assert(peaks_at_seeds(levels, seeds, next.done, clusters@)) by {
                assert forall|c2: int| 0 <= c2 < seeds.len() implies if next.done.contains(
                    cell(seeds[c2]),
                ) {
                    &&& (#[trigger] clusters@[c2]).max_density == levels.at(
                        cell(seeds[c2]).0,
                        cell(seeds[c2]).1,
                    )
                    &&& clusters@[c2].max_density_location == seeds[c2]
                } else {
                    clusters@[c2] == zero_summary()
                } by {
                    assert(g.labels.at(cell(seeds[c2]).0, cell(seeds[c2]).1) == c2);
                    if c2 != c {
                        assert(cell(seeds[c2]) != p);
                        assert(clusters@[c2] == found[c2]);
                    }
                }
            }
            assert forall|c2: int| 0 <= c2 < clusters@.len() implies summarizes(
                levels,
                done_in(next.done, next.labels, c2),
                #[trigger] clusters@[c2],
            ) by {
                let was = done_in(before.done, before.labels, c2);
                let now = done_in(next.done, next.labels, c2);
                assert(summarizes(levels, was, found[c2]));
                if c2 == c {
                    assert(now =~= was.insert(p));
                } else {
                    assert(now =~= was);
                }
            }
            g = next;
        }
    }
    proof {
        let labels = cluster_map@;
        assert forall|it: QueueItem| !holds(g.queue, it) by {}
        assert forall|x: int, y: int| labels.in_bounds(x, y) && #[trigger] labels.at(x, y)
            != -1 implies g.done.contains((x, y)) by {}
        assert forall|k: int| 0 <= k < clusters@.len() implies labels.at(
            cell(#[trigger] seeds[k]).0,
            cell(seeds[k]).1,
        ) == k by {}
        assert forall|x: int, y: int| labels.in_bounds(x, y) && #[trigger] labels.at(x, y)
            != -1 implies descends(
            levels,
            labels,
            labels.at(x, y) as int,
            cell(seeds[labels.at(x, y) as int]),
            (x, y),
        ) by {
            reveal(trailed);
            assert(is_descent(levels, labels, labels.at(x, y) as int, g.trails[(x, y)]));
        }
        assert forall|x: int, y: int| labels.in_bounds(x, y) && #[trigger] labels.at(x, y)
            != -1 implies is_seed(seeds, (x, y)) || exists|q: (int, int)| #[trigger]
            climbs_to(levels, labels, (x, y), q) by {
            reveal(parented);
            if !is_seed(seeds, (x, y)) {
                let q = g.parents[(x, y)];
                assert(is_parent(levels, g, (x, y), q));
                assert forall|q2: (int, int)|
                    #[trigger] adjacent((x, y), q2) && labels.in_bounds(q2.0, q2.1) && labels.at(
                        q2.0,
                        q2.1,
                    ) != -1 implies levels.at(q2.0, q2.1) <= levels.at(q.0, q.1) by {
                    assert(g.done.contains(q2));
                    assert(settled(g, q2));
                }
                assert(climbs_to(levels, labels, (x, y), q));
            }
        }
        assert forall|p: (int, int), q: (int, int)|
            labels.in_bounds(p.0, p.1) && labels.in_bounds(q.0, q.1) && #[trigger] adjacent(p, q)
                && labels.at(p.0, p.1) == -1 && labels.at(q.0, q.1) != -1 implies levels.at(
            q.0,
            q.1,
        ) < levels.at(p.0, p.1) by {
            assert(g.done.contains(q));
            assert(adjacent(q, p));
            assert(blocked(levels, g, q, p));
        }
        assert forall|c: int| 0 <= c < clusters@.len() implies summarizes(
            levels,
            region(labels, c),
            #[trigger] clusters@[c],
        ) by {
            assert(region(labels, c) =~= done_in(g.done, labels, c));
        }
        assert forall|c: int| 0 <= c < clusters@.len() implies (
        #[trigger] clusters@[c]).max_density == levels.at(cell(seeds[c]).0, cell(seeds[c]).1)
            && clusters@[c].max_density_location == seeds[c] by {
            assert(labels.at(cell(seeds[c]).0, cell(seeds[c]).1) == c);
            assert(g.done.contains(cell(seeds[c])));
        }
        assert forall|c: int| 0 <= c < clusters@.len() implies (
        #[trigger] clusters@[c]).num_pixels >= 1 by {
            assert(region(labels, c).contains(cell(seeds[c])));
            assert(summarizes(levels, region(labels, c), clusters@[c]));
            if region(labels, c).len() == 0 {
                assert(region(labels, c) =~= Set::<(int, int)>::empty());
            }
        }
    }
    (cluster_map, clusters)
}

/// The cells of `path` lie on the grid, each beside the one before it and
/// no higher.
pub open spec fn is_fall(levels: Grid<u32>, path: Seq<(int, int)>) -> bool {
    &&& path.len() >= 1
    &&& forall|i: int| 0 <= i < path.len() ==> levels.in_bounds((#[trigger] path[i]).0, path[i].1)
    &&& forall|i: int|
        0 <= i < path.len() - 1 ==> adjacent(#[trigger] path[i], path[i + 1]) && levels.at(
            path[i + 1].0,
            path[i + 1].1,
        ) <= levels.at(path[i].0, path[i].1)
}

/// A cell without a cluster is higher than every cell with a cluster
/// beside it.
spec fn rises_are_left(levels: Grid<u32>, labels: Grid<i32>) -> bool {
    forall|p: (int, int), q: (int, int)|
        labels.in_bounds(p.0, p.1) && labels.in_bounds(q.0, q.1) && #[trigger] adjacent(p, q)
            && labels.at(p.0, p.1) == -1 && labels.at(q.0, q.1) != -1 ==> levels.at(q.0, q.1)
            < levels.at(p.0, p.1)
}

proof fn lemma_fall_is_taken(levels: Grid<u32>, labels: Grid<i32>, path: Seq<(int, int)>)
    requires
        rises_are_left(levels, labels),
        labels.width == levels.width,
        labels.height == levels.height,
        is_fall(levels, path),
        labels.at(path.first().0, path.first().1) != -1,
    ensures
        labels.at(path.last().0, path.last().1) != -1,
    decreases path.len(),
{
    if path.len() > 1 {
        let front = path.drop_last();
        assert forall|i: int| 0 <= i < front.len() implies levels.in_bounds(
            (#[trigger] front[i]).0,
            front[i].1,
        ) by {
            assert(front[i] == path[i]);
        }
        assert forall|i: int| 0 <= i < front.len() - 1 implies adjacent(
            #[trigger] front[i],
            front[i + 1],
        ) && levels.at(front[i + 1].0, front[i + 1].1) <= levels.at(front[i].0, front[i].1) by {
            assert(front[i] == path[i] && front[i + 1] == path[i + 1]);
            assert(adjacent(path[i], path[i + 1]));
        }
        lemma_fall_is_taken(levels, labels, front);
        let k = path.len() - 2;
        assert(front.last() == path[k]);
        assert(adjacent(path[k], path[k + 1]));
        assert(adjacent(path[k + 1], path[k]));
        assert(levels.in_bounds(path[k + 1].0, path[k + 1].1));
        assert(levels.in_bounds(path[k].0, path[k].1));
    }
}

/// Every cell that can be reached from a local maximum without ever rising
/// has a cluster: the cells left without one are those that no such way
/// leads to.
pub proof fn lemma_grown_takes_every_fall(
    levels: Grid<u32>,
    labels: Grid<i32>,
    summaries: Seq<ClusterSummary>,
    path: Seq<(int, int)>,
)
    requires
        grown_from_maxima(levels, labels, summaries),
        is_fall(levels, path),
        is_seed(local_maxima(levels, levels.cells.len()), path.first()),
    ensures
        labels.at(path.last().0, path.last().1) != -1,
{
    let seeds = local_maxima(levels, levels.cells.len());
    let k = choose|k: int| 0 <= k < seeds.len() && cell(#[trigger] seeds[k]) == path.first();
    assert(labels.at(cell(seeds[k]).0, cell(seeds[k]).1) == k);
    assert(rises_are_left(levels, labels));
    lemma_fall_is_taken(levels, labels, path);
}

} // verus!
