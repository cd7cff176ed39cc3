//! Reachability in a directed graph whose nodes are integers.
//!
//! A node is reachable from a set of roots when a walk leads to it from a
//! root: a non-empty sequence of nodes that starts at a root and in which
//! each node has an edge to the next one.

use vstd::prelude::*;

verus! {

/// The `k`-th step of `path`: an edge from `path[k]` to `path[k + 1]`.
pub open spec fn walk_step(adj: spec_fn(int, int) -> bool, path: Seq<int>, k: int) -> bool {
    adj(path[k], path[k + 1])
}

/// `path` is non-empty and each of its nodes has an edge to the next one.
pub open spec fn is_walk(adj: spec_fn(int, int) -> bool, path: Seq<int>) -> bool {
    &&& path.len() > 0
    &&& forall|k: int| 0 <= k < path.len() - 1 ==> #[trigger] walk_step(adj, path, k)
}

/// `path` is a walk that starts at a root and ends at `v`.
pub open spec fn is_walk_to(
    adj: spec_fn(int, int) -> bool,
    roots: spec_fn(int) -> bool,
    path: Seq<int>,
    v: int,
) -> bool {
    &&& is_walk(adj, path)
    &&& roots(path[0])
    &&& path.last() == v
}

/// Some walk leads from a root to `v`.
pub open spec fn reachable(adj: spec_fn(int, int) -> bool, roots: spec_fn(int) -> bool, v: int) -> bool {
    exists|path: Seq<int>| #[trigger] is_walk_to(adj, roots, path, v)
}

/// Every root is reachable.
pub proof fn lemma_root_reachable(adj: spec_fn(int, int) -> bool, roots: spec_fn(int) -> bool, v: int)
    requires
        roots(v),
    ensures
        reachable(adj, roots, v),
{
    let path = seq![v];
    assert(is_walk_to(adj, roots, path, v));
}

/// The target of an edge from a reachable node is reachable.
pub proof fn lemma_step_reachable(
    adj: spec_fn(int, int) -> bool,
    roots: spec_fn(int) -> bool,
    u: int,
    v: int,
)
    requires
        reachable(adj, roots, u),
        adj(u, v),
    ensures
        reachable(adj, roots, v),
{
    let path = choose|path: Seq<int>| #[trigger] is_walk_to(adj, roots, path, u);
    let longer = path.push(v);
    assert forall|k: int| 0 <= k < longer.len() - 1 implies #[trigger] walk_step(adj, longer, k) by {
        if k < path.len() - 1 {
            assert(walk_step(adj, path, k));
        }
    }
    assert(is_walk_to(adj, roots, longer, v));
}

/// The last node of a walk from a root lies in every set that holds the
/// roots and is closed under the edges.
proof fn lemma_walk_stays_in_closed_set(
    adj: spec_fn(int, int) -> bool,
    roots: spec_fn(int) -> bool,
    set: spec_fn(int) -> bool,
    path: Seq<int>,
)
    requires
        is_walk(adj, path),
        roots(path[0]),
        forall|r: int| #[trigger] roots(r) ==> set(r),
        forall|u: int, w: int| #[trigger] set(u) && #[trigger] adj(u, w) ==> set(w),
    ensures
        set(path.last()),
    decreases path.len(),
{
    if path.len() > 1 {
        let shorter = path.drop_last();
        assert forall|k: int| 0 <= k < shorter.len() - 1 implies #[trigger] walk_step(adj, shorter, k) by {
            assert(walk_step(adj, path, k));
        }
        lemma_walk_stays_in_closed_set(adj, roots, set, shorter);
        assert(walk_step(adj, path, path.len() - 2));
    }
}

/// Every reachable node lies in every set that holds the roots and is
/// closed under the edges.
pub proof fn lemma_reachable_in_closed_set(
    adj: spec_fn(int, int) -> bool,
    roots: spec_fn(int) -> bool,
    set: spec_fn(int) -> bool,
    v: int,
)
    requires
        reachable(adj, roots, v),
        forall|r: int| #[trigger] roots(r) ==> set(r),
        forall|u: int, w: int| #[trigger] set(u) && #[trigger] adj(u, w) ==> set(w),
    ensures
        set(v),
{
    let path = choose|path: Seq<int>| #[trigger] is_walk_to(adj, roots, path, v);
    lemma_walk_stays_in_closed_set(adj, roots, set, path);
}

/// A reachable node is a root, or the target of an edge from a reachable node.
pub proof fn lemma_reachable_has_reason(
    adj: spec_fn(int, int) -> bool,
    roots: spec_fn(int) -> bool,
    v: int,
)
    requires
        reachable(adj, roots, v),
    ensures
        roots(v) || exists|u: int| #[trigger] reachable(adj, roots, u) && adj(u, v),
{
    let path = choose|path: Seq<int>| #[trigger] is_walk_to(adj, roots, path, v);
    if path.len() > 1 {
        let shorter = path.drop_last();
        let u = shorter.last();
        assert forall|k: int| 0 <= k < shorter.len() - 1 implies #[trigger] walk_step(adj, shorter, k) by {
            assert(walk_step(adj, path, k));
        }
        assert(is_walk_to(adj, roots, shorter, u));
        assert(walk_step(adj, path, path.len() - 2));
        assert(reachable(adj, roots, u) && adj(u, v));
    }
}

/// More edges and more roots never make a node unreachable.
pub proof fn lemma_reachable_monotone(
    adj1: spec_fn(int, int) -> bool,
    roots1: spec_fn(int) -> bool,
    adj2: spec_fn(int, int) -> bool,
    roots2: spec_fn(int) -> bool,
    v: int,
)
    requires
        forall|u: int, w: int| #[trigger] adj1(u, w) ==> adj2(u, w),
        forall|r: int| #[trigger] roots1(r) ==> roots2(r),
        reachable(adj1, roots1, v),
    ensures
        reachable(adj2, roots2, v),
{
    let set = |x: int| reachable(adj2, roots2, x);
    assert forall|r: int| #[trigger] roots1(r) implies set(r) by {
        lemma_root_reachable(adj2, roots2, r);
    }
    assert forall|u: int, w: int| #[trigger] set(u) && #[trigger] adj1(u, w) implies set(w) by {
        lemma_step_reachable(adj2, roots2, u, w);
    }
    lemma_reachable_in_closed_set(adj1, roots1, set, v);
}

/// Two graphs with the same edges and the same roots reach the same nodes.
pub proof fn lemma_reachable_same_graph(
    adj1: spec_fn(int, int) -> bool,
    roots1: spec_fn(int) -> bool,
    adj2: spec_fn(int, int) -> bool,
    roots2: spec_fn(int) -> bool,
    v: int,
)
    requires
        forall|u: int, w: int| #[trigger] adj1(u, w) == adj2(u, w),
        forall|r: int| #[trigger] roots1(r) == roots2(r),
    ensures
        reachable(adj1, roots1, v) == reachable(adj2, roots2, v),
{
    assert(adj1 =~= adj2);
    assert(roots1 =~= roots2);
}

/// The number of nodes not yet marked in `marks`; the searches decrease it.
pub open spec fn count_unmarked(marks: Seq<bool>) -> nat
    decreases marks.len(),
{
    if marks.len() == 0 {
        0
    } else {
        count_unmarked(marks.drop_last()) + if marks.last() { 0nat } else { 1nat }
    }
}

/// Marking an unmarked node lowers the count of unmarked nodes by one.
pub proof fn lemma_mark_one(marks: Seq<bool>, i: int)
    requires
        0 <= i < marks.len(),
        !marks[i],
    ensures
        count_unmarked(marks.update(i, true)) + 1 == count_unmarked(marks),
    decreases marks.len(),
{
    let updated = marks.update(i, true);
    if i < marks.len() - 1 {
        lemma_mark_one(marks.drop_last(), i);
        assert(updated.drop_last() =~= marks.drop_last().update(i, true));
    } else {
        assert(updated.drop_last() =~= marks.drop_last());
    }
}

} // verus!
