//! Partitions of `0..n`, described by the map from each element to the
//! representative of its class, and the forests of parent links that the
//! disjoint sets keep to compute that map.

use vstd::prelude::*;

verus! {

/// `m` sends every element of `0..m.len()` to an element of the same range
/// that represents itself.
pub open spec fn is_partition(m: Seq<int>) -> bool {
    forall|i: int| 0 <= i < m.len() ==> 0 <= #[trigger] m[i] < m.len() && m[m[i]] == m[i]
}

/// The partition of `0..n` into singletons.
pub open spec fn singletons(n: nat) -> Seq<int> {
    Seq::new(n, |i: int| i)
}

/// The partition `m` after the class of `a` has been joined to the class of
/// `b`: the representative of `b` now stands for both.
pub open spec fn merge(m: Seq<int>, a: int, b: int) -> Seq<int> {
    Seq::new(m.len(), |j: int| if m[j] == m[a] { m[b] } else { m[j] })
}

/// The elements that represent their own class.
pub open spec fn representatives(m: Seq<int>) -> Set<int> {
    Set::new(|i: int| 0 <= i < m.len() && m[i] == i)
}

/// How many of the elements below `k` represent their own class.
pub open spec fn representatives_below(m: Seq<int>, k: nat) -> nat
    decreases k,
{
    if k == 0 {
        0
    } else {
        representatives_below(m, (k - 1) as nat) + if m[k - 1] == k - 1 {
            1nat
        } else {
            0nat
        }
    }
}

/// Counting the representatives one by one gives the size of their set.
pub proof fn lemma_representatives_below(m: Seq<int>, k: nat)
    requires
        k <= m.len(),
    ensures
        representatives(m.take(k as int)).finite(),
        representatives(m.take(k as int)).len() == representatives_below(m, k),
        representatives_below(m, k) <= k,
    decreases k,
{
    if k == 0 {
        assert(representatives(m.take(0)) =~= Set::<int>::empty());
    } else {
        lemma_representatives_below(m, (k - 1) as nat);
        let before = representatives(m.take(k - 1));
        let after = representatives(m.take(k as int));
        if m[k - 1] == k - 1 {
            assert(after =~= before.insert(k - 1));
        } else {
            assert(after =~= before);
        }
    }
}

/// Every number below the count of representatives is the number of one
/// of them.
pub proof fn lemma_representatives_below_onto(m: Seq<int>, k: nat, c: int) -> (r: int)
    requires
        0 <= c < representatives_below(m, k),
    ensures
        0 <= r < k,
        m[r] == r,
        representatives_below(m, r as nat) == c,
    decreases k,
{
    if c < representatives_below(m, (k - 1) as nat) {
        lemma_representatives_below_onto(m, (k - 1) as nat, c)
    } else {
        k - 1
    }
}

/// The count of representatives never falls as more elements are counted.
pub proof fn lemma_representatives_below_grows(m: Seq<int>, j: nat, k: nat)
    requires
        j <= k,
    ensures
        representatives_below(m, j) <= representatives_below(m, k),
        j < k && m[j as int] == j ==> representatives_below(m, j) < representatives_below(m, k),
    decreases k,
{
    if j < k {
        lemma_representatives_below_grows(m, j, (k - 1) as nat);
    }
}

/// The partition of `0..n` reached from the singletons by joining the pairs
/// of `ops` one after another.
pub open spec fn apply_unions(n: nat, ops: Seq<(int, int)>) -> Seq<int>
    decreases ops.len(),
{
    if ops.len() == 0 {
        singletons(n)
    } else {
        merge(apply_unions(n, ops.drop_last()), ops.last().0, ops.last().1)
    }
}

/// Every pair of `ops` names two elements of `0..n`.
pub open spec fn ops_in_range(n: nat, ops: Seq<(int, int)>) -> bool {
    forall|t: int| 0 <= t < ops.len() ==> 0 <= (#[trigger] ops[t]).0 < n && 0 <= ops[t].1 < n
}

/// `a` and `b` were joined directly: `ops` holds the pair in one of its two
/// orders.
pub open spec fn joined(ops: Seq<(int, int)>, a: int, b: int) -> bool {
    exists|t: int| 0 <= t < ops.len() && (#[trigger] ops[t] == (a, b) || ops[t] == (b, a))
}

/// `path` leads from its first element to its last through elements of
/// `0..n`, each step staying put or following a pair of `ops`.
pub open spec fn is_chain(n: nat, ops: Seq<(int, int)>, path: Seq<int>) -> bool {
    &&& path.len() >= 1
    &&& forall|k: int| 0 <= k < path.len() ==> 0 <= #[trigger] path[k] < n
    &&& forall|k: int|
        0 <= k < path.len() - 1 ==> #[trigger] path[k] == path[k + 1] || joined(
            ops,
            path[k],
            path[k + 1],
        )
}

/// `i` and `j` were joined by a chain of unions.
pub open spec fn linked(n: nat, ops: Seq<(int, int)>, i: int, j: int) -> bool {
    exists|path: Seq<int>| #[trigger] is_chain(n, ops, path) && path.first() == i && path.last() == j
}

/// Joining two classes of a partition gives a partition.
pub proof fn lemma_merge_is_partition(m: Seq<int>, a: int, b: int)
    requires
        is_partition(m),
        0 <= a < m.len(),
        0 <= b < m.len(),
    ensures
        is_partition(merge(m, a, b)),
{
    let r = merge(m, a, b);
    assert forall|i: int| 0 <= i < r.len() implies 0 <= #[trigger] r[i] < r.len() && r[r[i]]
        == r[i] by {
        assert(0 <= m[i] < m.len() && m[m[i]] == m[i]);
        assert(0 <= m[b] < m.len() && m[m[b]] == m[b]);
        assert(0 <= m[a] < m.len() && m[m[a]] == m[a]);
    }
}

/// Whatever is joined, what results is a partition of `0..n`.
pub proof fn lemma_apply_unions_is_partition(n: nat, ops: Seq<(int, int)>)
    requires
        ops_in_range(n, ops),
    ensures
        is_partition(apply_unions(n, ops)),
        apply_unions(n, ops).len() == n,
    decreases ops.len(),
{
    if ops.len() > 0 {
        lemma_apply_unions_is_partition(n, ops.drop_last());
        lemma_merge_is_partition(apply_unions(n, ops.drop_last()), ops.last().0, ops.last().1);
    }
}

proof fn lemma_chain_grows(n: nat, ops: Seq<(int, int)>, path: Seq<int>)
    requires
        ops.len() > 0,
        is_chain(n, ops.drop_last(), path),
    ensures
        is_chain(n, ops, path),
{
    let short = ops.drop_last();
    assert forall|k: int| 0 <= k < path.len() - 1 implies #[trigger] path[k] == path[k + 1]
        || joined(ops, path[k], path[k + 1]) by {
        if path[k] != path[k + 1] {
            let t = choose|t: int|
                0 <= t < short.len() && (#[trigger] short[t] == (path[k], path[k + 1]) || short[t]
                    == (path[k + 1], path[k]));
            assert(ops[t] == short[t]);
        }
    }
}

proof fn lemma_chain_concat(n: nat, ops: Seq<(int, int)>, p: Seq<int>, q: Seq<int>)
    requires
        is_chain(n, ops, p),
        is_chain(n, ops, q),
        p.last() == q.first() || joined(ops, p.last(), q.first()),
    ensures
        is_chain(n, ops, p + q),
        (p + q).first() == p.first(),
        (p + q).last() == q.last(),
{
    let r = p + q;
    assert forall|k: int| 0 <= k < r.len() - 1 implies #[trigger] r[k] == r[k + 1] || joined(
        ops,
        r[k],
        r[k + 1],
    ) by {
        if k < p.len() - 1 {
            assert(r[k] == p[k] && r[k + 1] == p[k + 1]);
        } else if k == p.len() - 1 {
            assert(r[k] == p.last() && r[k + 1] == q.first());
        } else {
            assert(r[k] == q[k - p.len()] && r[k + 1] == q[k - p.len() + 1]);
        }
    }
    assert forall|k: int| 0 <= k < r.len() implies 0 <= #[trigger] r[k] < n by {
        if k < p.len() {
            assert(r[k] == p[k]);
        } else {
            assert(r[k] == q[k - p.len()]);
        }
    }
}

/// Joining two classes never separates two elements that shared a
/// representative.
proof fn lemma_merge_keeps_together(m: Seq<int>, a: int, b: int, i: int, j: int)
    requires
        0 <= i < m.len(),
        0 <= j < m.len(),
        m[i] == m[j],
    ensures
        merge(m, a, b)[i] == merge(m, a, b)[j],
{
}

proof fn lemma_joined_share_representative(n: nat, ops: Seq<(int, int)>, a: int, b: int)
    requires
        ops_in_range(n, ops),
        joined(ops, a, b),
    ensures
        0 <= a < n,
        0 <= b < n,
        apply_unions(n, ops)[a] == apply_unions(n, ops)[b],
    decreases ops.len(),
{
    let t = choose|t: int| 0 <= t < ops.len() && (#[trigger] ops[t] == (a, b) || ops[t] == (b, a));
    let short = ops.drop_last();
    let m = apply_unions(n, short);
    lemma_apply_unions_is_partition(n, short);
    assert(ops_in_range(n, short));
    if t == ops.len() - 1 {
        assert(m[a] == m[ops.last().0] || m[a] == m[ops.last().1]);
        assert(0 <= m[ops.last().1] < n && m[m[ops.last().1]] == m[ops.last().1]);
    } else {
        assert(short[t] == ops[t]);
        assert(joined(short, a, b));
        lemma_joined_share_representative(n, short, a, b);
        lemma_merge_keeps_together(m, ops.last().0, ops.last().1, a, b);
    }
}

proof fn lemma_chain_shares_representative(n: nat, ops: Seq<(int, int)>, path: Seq<int>)
    requires
        ops_in_range(n, ops),
        is_chain(n, ops, path),
    ensures
        apply_unions(n, ops)[path.first()] == apply_unions(n, ops)[path.last()],
    decreases path.len(),
{
    if path.len() > 1 {
        let front = path.drop_last();
        assert forall|k: int| 0 <= k < front.len() - 1 implies #[trigger] front[k] == front[k + 1]
            || joined(ops, front[k], front[k + 1]) by {
            assert(front[k] == path[k] && front[k + 1] == path[k + 1]);
        }
        assert forall|k: int| 0 <= k < front.len() implies 0 <= #[trigger] front[k] < n by {
            assert(front[k] == path[k]);
        }
        lemma_chain_shares_representative(n, ops, front);
        let k = path.len() - 2;
        assert(front.last() == path[k]);
        assert(path[k] == path[k + 1] || joined(ops, path[k], path[k + 1]));
        if path[k] != path[k + 1] {
            lemma_joined_share_representative(n, ops, path[k], path[k + 1]);
        }
    }
}

proof fn lemma_shared_representative_is_linked(n: nat, ops: Seq<(int, int)>, i: int, j: int)
    requires
        ops_in_range(n, ops),
        0 <= i < n,
        0 <= j < n,
        apply_unions(n, ops)[i] == apply_unions(n, ops)[j],
    ensures
        linked(n, ops, i, j),
    decreases ops.len(),
{
    if ops.len() == 0 {
        let path = seq![i];
        assert(is_chain(n, ops, path) && path.first() == i && path.last() == j);
    } else {
        let short = ops.drop_last();
        let (a, b) = ops.last();
        let m = apply_unions(n, short);
        lemma_apply_unions_is_partition(n, short);
        assert(ops_in_range(n, short));
        assert(ops[ops.len() - 1] == (a, b));
        assert(joined(ops, a, b));
        assert(joined(ops, b, a));
        if m[i] == m[j] {
            lemma_shared_representative_is_linked(n, short, i, j);
            let path = choose|path: Seq<int>| #[trigger]
                is_chain(n, short, path) && path.first() == i && path.last() == j;
            lemma_chain_grows(n, ops, path);
        } else {
            // One of the two lies in the class of `a`, the other in that of `b`.
            let (u, v) = if m[i] == m[a] {
                (a, b)
            } else {
                (b, a)
            };
            assert(m[i] == m[u] && m[j] == m[v]);
            lemma_shared_representative_is_linked(n, short, i, u);
            lemma_shared_representative_is_linked(n, short, v, j);
            let p = choose|path: Seq<int>| #[trigger]
                is_chain(n, short, path) && path.first() == i && path.last() == u;
            let q = choose|path: Seq<int>| #[trigger]
                is_chain(n, short, path) && path.first() == v && path.last() == j;
            lemma_chain_grows(n, ops, p);
            lemma_chain_grows(n, ops, q);
            lemma_chain_concat(n, ops, p, q);
            assert(is_chain(n, ops, p + q));
        }
    }
}

/// After any sequence of unions, two elements share their representative
/// exactly when a chain of those unions leads from one to the other.
pub proof fn lemma_unions_link_exactly(n: nat, ops: Seq<(int, int)>, i: int, j: int)
    requires
        ops_in_range(n, ops),
        0 <= i < n,
        0 <= j < n,
    ensures
        apply_unions(n, ops)[i] == apply_unions(n, ops)[j] <==> linked(n, ops, i, j),
{
    if apply_unions(n, ops)[i] == apply_unions(n, ops)[j] {
        lemma_shared_representative_is_linked(n, ops, i, j);
    }
    if linked(n, ops, i, j) {
        let path = choose|path: Seq<int>| #[trigger]
            is_chain(n, ops, path) && path.first() == i && path.last() == j;
        lemma_chain_shares_representative(n, ops, path);
    }
}

} // verus!
