//! One side of the border between two clusters, and the list of borders
//! that a cluster keeps.

use vstd::prelude::*;

verus! {

/// The cells of a cluster that touch another cluster, each with its level,
/// and the highest of those levels.
#[derive(Clone, Debug)]
pub struct EdgeSummary {
    pub max_density: u32,
    pub pixels: Vec<(i32, i32, u32)>,
}

/// The mathematical content of an [`EdgeSummary`].
pub struct Border {
    pub max_density: u32,
    pub pixels: Seq<(i32, i32, u32)>,
}

impl View for EdgeSummary {
    type V = Border;

    open spec fn view(&self) -> Border {
        Border { max_density: self.max_density, pixels: self.pixels@ }
    }
}

/// The border without a cell.
pub open spec fn empty_border() -> Border {
    Border { max_density: 0, pixels: Seq::empty() }
}

/// The border `b` with one more cell.
pub open spec fn with_pixel(b: Border, location: (i32, i32), density: u32) -> Border {
    Border {
        max_density: if density > b.max_density {
            density
        } else {
            b.max_density
        },
        pixels: b.pixels.push((location.0, location.1, density)),
    }
}

/// The border `b` followed by the border `other`.
pub open spec fn joined(b: Border, other: Border) -> Border {
    Border {
        max_density: if other.max_density > b.max_density {
            other.max_density
        } else {
            b.max_density
        },
        pixels: b.pixels + other.pixels,
    }
}

/// `b`, or the empty border where there is none.
pub open spec fn or_empty(b: Option<Border>) -> Border {
    match b {
        Some(b) => b,
        None => empty_border(),
    }
}

impl Default for EdgeSummary {
    fn default() -> (r: EdgeSummary)
        ensures
            r@ == empty_border(),
    {
        EdgeSummary { max_density: 0, pixels: Vec::new() }
    }
}

impl EdgeSummary {
    /// Takes one more cell into the border.
    pub fn update_with_pixel(&mut self, location: (i32, i32), density: u32)
        ensures
            final(self)@ == with_pixel(old(self)@, location, density),
    {
        if density > self.max_density {
            self.max_density = density;
        }
        self.pixels.push((location.0, location.1, density));
    }

    /// Appends the cells of `other` to this border.
    pub fn update(&mut self, other: EdgeSummary)
        ensures
            final(self)@ == joined(old(self)@, other@),
    {
        let mut other = other;
        if other.max_density > self.max_density {
            self.max_density = other.max_density;
        }
        self.pixels.append(&mut other.pixels);
    }

}

/// The border of a cluster with the cluster `to`.
pub struct Edge {
    pub to: i32,
    pub summary: EdgeSummary,
}

/// No two borders of the list are with the same cluster.
pub open spec fn distinct(list: Seq<Edge>) -> bool {
    forall|i: int, j: int| 0 <= i < j < list.len() ==> list[i].to != list[j].to
}

/// The border with the cluster `k` that the list holds, if any.
pub open spec fn lookup(list: Seq<Edge>, k: int) -> Option<Border>
    decreases list.len(),
{
    if list.len() == 0 {
        None
    } else if list.last().to == k {
        Some(list.last().summary@)
    } else {
        lookup(list.drop_last(), k)
    }
}

/// A border of the list is the one that the list holds for its cluster.
pub proof fn lemma_lookup_index(list: Seq<Edge>, i: int)
    requires
        distinct(list),
        0 <= i < list.len(),
    ensures
        lookup(list, list[i].to as int) == Some(list[i].summary@),
    decreases list.len(),
{
    if i < list.len() - 1 {
        let front = list.drop_last();
        assert(front[i] == list[i]);
        lemma_lookup_index(front, i);
    }
}

/// The list holds no border with a cluster exactly when no border of it is
/// with that cluster.
pub proof fn lemma_lookup_none(list: Seq<Edge>, k: int)
    ensures
        lookup(list, k) is None <==> (forall|i: int| 0 <= i < list.len() ==> list[i].to != k),
    decreases list.len(),
{
    if list.len() > 0 {
        let front = list.drop_last();
        lemma_lookup_none(front, k);
        if lookup(list, k) is None {
            assert forall|i: int| 0 <= i < list.len() implies list[i].to != k by {
                if i < front.len() {
                    assert(front[i] == list[i]);
                }
            }
        } else if list.last().to != k {
            let i = choose|i: int| 0 <= i < front.len() && front[i].to == k;
            assert(list[i].to == k);
        }
    }
}

/// The place of the border that the list holds with the cluster `k`.
pub proof fn lemma_lookup_some(list: Seq<Edge>, k: int) -> (i: int)
    requires
        lookup(list, k) is Some,
    ensures
        0 <= i < list.len(),
        list[i].to == k,
        lookup(list, k) == Some(list[i].summary@),
    decreases list.len(),
{
    if list.last().to == k {
        list.len() - 1
    } else {
        lemma_lookup_some(list.drop_last(), k)
    }
}

/// A border put at the end of the list is the one that the list then
/// holds for its cluster; the others stand.
pub proof fn lemma_lookup_push(list: Seq<Edge>, e: Edge, k: int)
    ensures
        lookup(list.push(e), k) == if k == e.to {
            Some(e.summary@)
        } else {
            lookup(list, k)
        },
{
    assert(list.push(e).drop_last() =~= list);
}

/// With a border taken out, the list holds none with that cluster; the
/// others stand.
pub proof fn lemma_lookup_remove(list: Seq<Edge>, i: int, k: int)
    requires
        distinct(list),
        0 <= i < list.len(),
    ensures
        distinct(list.remove(i)),
        lookup(list.remove(i), k) == if k == list[i].to {
            None
        } else {
            lookup(list, k)
        },
    decreases list.len(),
{
    let rest = list.remove(i);
    if i == list.len() - 1 {
        assert(rest =~= list.drop_last());
        if k == list[i].to {
            lemma_lookup_none(rest, k);
        }
    } else {
        let front = list.drop_last();
        assert(front[i] == list[i]);
        assert(rest.drop_last() =~= front.remove(i));
        assert(rest.last() == list.last());
        lemma_lookup_remove(front, i, k);
    }
}

/// With a border changed in its place, the list holds the changed border
/// for its cluster; the others stand.
pub proof fn lemma_lookup_update(list: Seq<Edge>, i: int, e: Edge, k: int)
    requires
        distinct(list),
        0 <= i < list.len(),
        e.to == list[i].to,
    ensures
        distinct(list.update(i, e)),
        lookup(list.update(i, e), k) == if k == e.to {
            Some(e.summary@)
        } else {
            lookup(list, k)
        },
    decreases list.len(),
{
    let next = list.update(i, e);
    if i == list.len() - 1 {
        assert(next.drop_last() =~= list.drop_last());
    } else {
        let front = list.drop_last();
        assert(front[i] == list[i]);
        assert(next.drop_last() =~= front.update(i, e));
        assert(next.last() == list.last());
        lemma_lookup_update(front, i, e, k);
    }
}

/// The place of the border with the cluster `to` in the list.
pub fn find_edge(list: &Vec<Edge>, to: i32) -> (r: Option<usize>)
    requires
        distinct(list@),
    ensures
        match r {
            Some(i) => i < list@.len() && list@[i as int].to == to && lookup(list@, to as int)
                == Some(list@[i as int].summary@),
            None => lookup(list@, to as int) is None,
        },
{
    let mut i: usize = 0;
    while i < list.len()
        invariant
            i <= list@.len(),
            distinct(list@),
            forall|j: int| 0 <= j < i ==> list@[j].to != to,
        decreases list@.len() - i,
    {
        if list[i].to == to {
            proof {
                lemma_lookup_index(list@, i as int);
            }
            return Some(i);
        }
        i += 1;
    }
    proof {
        lemma_lookup_none(list@, to as int);
    }
    None
}

/// Appends `other` to the border with the cluster `to`, which is started
/// empty where the list has none.
pub fn absorb_edge(list: &mut Vec<Edge>, to: i32, other: EdgeSummary)
    requires
        distinct(old(list)@),
    ensures
        distinct(final(list)@),
        forall|k: int|
            lookup(final(list)@, k) == if k == to {
                Some(joined(or_empty(lookup(old(list)@, k)), other@))
            } else {
                lookup(old(list)@, k)
            },
{
    match find_edge(list, to) {
        Some(i) => {
            list[i].summary.update(other);
            proof {
                assert(final(list)@ =~= old(list)@.update(i as int, final(list)@[i as int]));
                assert forall|k: int|
                    lookup(final(list)@, k) == if k == to {
                        Some(joined(or_empty(lookup(old(list)@, k)), other@))
                    } else {
                        lookup(old(list)@, k)
                    } by {
                    lemma_lookup_update(old(list)@, i as int, final(list)@[i as int], k);
                }
                lemma_lookup_update(old(list)@, i as int, final(list)@[i as int], 0);
            }
        },
        None => {
            let mut summary = EdgeSummary::default();
            summary.update(other);
            let e = Edge { to, summary };
            proof {
                lemma_lookup_none(list@, to as int);
                assert forall|k: int|
                    lookup(list@.push(e), k) == if k == to {
                        Some(joined(or_empty(lookup(list@, k)), other@))
                    } else {
                        lookup(list@, k)
                    } by {
                    lemma_lookup_push(list@, e, k);
                }
            }
            list.push(e);
        },
    }
}

/// Takes one more cell into the border with the cluster `to`, which is
/// started empty where the list has none.
pub fn absorb_pixel(list: &mut Vec<Edge>, to: i32, location: (i32, i32), density: u32)
    requires
        distinct(old(list)@),
    ensures
        distinct(final(list)@),
        forall|k: int|
            lookup(final(list)@, k) == if k == to {
                Some(with_pixel(or_empty(lookup(old(list)@, k)), location, density))
            } else {
                lookup(old(list)@, k)
            },
{
    match find_edge(list, to) {
        Some(i) => {
            list[i].summary.update_with_pixel(location, density);
            proof {
                assert(final(list)@ =~= old(list)@.update(i as int, final(list)@[i as int]));
                assert forall|k: int|
                    lookup(final(list)@, k) == if k == to {
                        Some(with_pixel(or_empty(lookup(old(list)@, k)), location, density))
                    } else {
                        lookup(old(list)@, k)
                    } by {
                    lemma_lookup_update(old(list)@, i as int, final(list)@[i as int], k);
                }
                lemma_lookup_update(old(list)@, i as int, final(list)@[i as int], 0);
            }
        },
        None => {
            let mut summary = EdgeSummary::default();
            summary.update_with_pixel(location, density);
            let e = Edge { to, summary };
            proof {
                lemma_lookup_none(list@, to as int);
                assert forall|k: int|
                    lookup(list@.push(e), k) == if k == to {
                        Some(with_pixel(or_empty(lookup(list@, k)), location, density))
                    } else {
                        lookup(list@, k)
                    } by {
                    lemma_lookup_push(list@, e, k);
                }
            }
            list.push(e);
        },
    }
}

/// Takes the border with the cluster `to` out of the list.
pub fn take_edge(list: &mut Vec<Edge>, to: i32) -> (r: Option<EdgeSummary>)
    requires
        distinct(old(list)@),
    ensures
        distinct(final(list)@),
        match r {
            Some(e) => lookup(old(list)@, to as int) == Some(e@),
            None => lookup(old(list)@, to as int) is None,
        },
        forall|k: int|
            lookup(final(list)@, k) == if k == to {
                None
            } else {
                lookup(old(list)@, k)
            },
{
    match find_edge(list, to) {
        Some(i) => {
            proof {
                assert forall|k: int|
                    lookup(list@.remove(i as int), k) == if k == to {
                        None
                    } else {
                        lookup(list@, k)
                    } by {
                    lemma_lookup_remove(list@, i as int, k);
                }
                lemma_lookup_remove(list@, i as int, 0);
            }
            let e = list.remove(i);
            Some(e.summary)
        },
        None => None,
    }
}

} // verus!
