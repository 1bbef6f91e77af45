//! The depth-first search for cycles, as a function of the graph.
//!
//! The search takes the vertices in ascending order as roots, and from a
//! vertex it goes on to each of its neighbours in ascending order. A
//! neighbour that the search has not seen yet is searched from in turn. A
//! neighbour that it has seen and that lies on the path from the root to the
//! vertex at hand, at least two steps up, closes a cycle: the path from the
//! vertex at hand back up to that neighbour.

use crate::biedgedgraph::{ascending, BiedgedGraph};
use crate::edge_sums::EdgeColor;
use vstd::prelude::*;

verus! {

/// The vertices that are joined to `v` by a black edge and are not `v`.
pub open spec fn is_neighbour(g: BiedgedGraph, v: u64) -> spec_fn(u64) -> bool {
    |x: u64| x != v && g.count(v, x, EdgeColor::Black) > 0
}

/// The other vertices that a black edge joins to `v`, in ascending order.
pub open spec fn neighbours(g: BiedgedGraph, v: u64) -> Seq<u64> {
    g.node_seq().filter(is_neighbour(g, v))
}

/// How many of the vertices the search has not seen.
pub open spec fn unseen(nodes: Seq<u64>, seen: Set<u64>) -> nat
    decreases nodes.len(),
{
    if nodes.len() == 0 {
        0
    } else {
        unseen(nodes.drop_last(), seen) + (if seen.contains(nodes.last()) {
            0nat
        } else {
            1nat
        })
    }
}

/// Seeing more vertices leaves fewer unseen.
pub proof fn lemma_unseen_fewer(nodes: Seq<u64>, less: Set<u64>, more: Set<u64>)
    requires
        less.subset_of(more),
    ensures
        unseen(nodes, more) <= unseen(nodes, less),
        forall|u: u64|
            nodes.contains(u) && more.contains(u) && !less.contains(u) ==> unseen(nodes, more)
                < unseen(nodes, less),
    decreases nodes.len(),
{
    if nodes.len() > 0 {
        lemma_unseen_fewer(nodes.drop_last(), less, more);
        assert forall|u: u64|
            nodes.contains(u) && more.contains(u) && !less.contains(u) implies unseen(nodes, more)
            < unseen(nodes, less) by {
            let i = choose|i: int| 0 <= i < nodes.len() && nodes[i] == u;
            if i < nodes.len() - 1 {
                assert(nodes.drop_last()[i] == u);
                assert(nodes.drop_last().contains(u));
            }
        }
    }
}

/// The cycle that an edge from the end of the path to `u` closes: the path
/// from its end back up to `u`, where `u` lies on the path at least two
/// steps up, and none else.
pub open spec fn closing(path: Seq<u64>, u: u64) -> Seq<Seq<u64>> {
    if path.contains(u) && path.index_of(u) + 2 < path.len() {
        seq![
            Seq::new(
                (path.len() - path.index_of(u)) as nat,
                |i: int| path[path.len() - 1 - i],
            ),
        ]
    } else {
        Seq::empty()
    }
}

/// The search from the end of the path on, from its `k`-th neighbour: what
/// the search has seen afterwards, and the cycles that it has found.
pub open spec fn scan(g: BiedgedGraph, path: Seq<u64>, k: nat, seen: Set<u64>) -> (
    Set<u64>,
    Seq<Seq<u64>>,
)
    decreases unseen(g.node_seq(), seen), neighbours(g, path.last()).len() - k,
{
    let around = neighbours(g, path.last());
    if path.len() == 0 || k >= around.len() {
        (seen, Seq::empty())
    } else {
        let u = around[k as int];
        if !seen.contains(u) && g.has_node(u) {
            proof {
                lemma_unseen_fewer(g.node_seq(), seen, seen.insert(u));
            }
            let down = scan(g, path.push(u), 0, seen.insert(u));
            let after = down.0.union(seen.insert(u));
            proof {
                lemma_unseen_fewer(g.node_seq(), seen, after);
            }
            let on = scan(g, path, k + 1, after);
            (on.0, down.1 + on.1)
        } else {
            let on = scan(g, path, k + 1, seen);
            (on.0, closing(path, u) + on.1)
        }
    }
}

/// The search forgets nothing that it has seen.
pub proof fn lemma_scan_grows(g: BiedgedGraph, path: Seq<u64>, k: nat, seen: Set<u64>)
    ensures
        seen.subset_of(scan(g, path, k, seen).0),
    decreases unseen(g.node_seq(), seen), neighbours(g, path.last()).len() - k,
{
    let around = neighbours(g, path.last());
    if path.len() == 0 || k >= around.len() {
    } else {
        let u = around[k as int];
        if !seen.contains(u) && g.has_node(u) {
            lemma_unseen_fewer(g.node_seq(), seen, seen.insert(u));
            let down = scan(g, path.push(u), 0, seen.insert(u));
            let after = down.0.union(seen.insert(u));
            lemma_unseen_fewer(g.node_seq(), seen, after);
            lemma_scan_grows(g, path, k + 1, after);
        } else {
            lemma_scan_grows(g, path, k + 1, seen);
        }
    }
}

/// What is left of the search: from the end of the path on, from the
/// neighbour that the end of the path has come to, and then the same for
/// each vertex up the path.
pub open spec fn finish(g: BiedgedGraph, path: Seq<u64>, cursors: Seq<nat>, seen: Set<u64>) -> (
    Set<u64>,
    Seq<Seq<u64>>,
)
    decreases path.len(),
{
    if path.len() == 0 || cursors.len() != path.len() {
        (seen, Seq::empty())
    } else {
        let top = scan(g, path, cursors.last(), seen);
        let below = finish(g, path.drop_last(), cursors.drop_last(), top.0);
        (below.0, top.1 + below.1)
    }
}

/// The cycles that the search finds from the `r`-th vertex on as roots.
pub open spec fn from_roots(g: BiedgedGraph, r: nat, seen: Set<u64>) -> Seq<Seq<u64>>
    decreases g.node_seq().len() - r,
{
    if r >= g.node_seq().len() {
        Seq::empty()
    } else {
        let root = g.node_seq()[r as int];
        if seen.contains(root) {
            from_roots(g, r + 1, seen)
        } else {
            let tree = scan(g, seq![root], 0, seen.insert(root));
            tree.1 + from_roots(g, r + 1, tree.0)
        }
    }
}

/// The cycles of three and more edges that the depth-first search finds, in
/// the order in which it finds them.
pub open spec fn search_cycles(g: BiedgedGraph) -> Seq<Seq<u64>> {
    from_roots(g, 0, Set::empty())
}

/// The search is done with the vertex at the end of the path when it has
/// looked at all its neighbours.
pub proof fn lemma_finish_leaves(g: BiedgedGraph, path: Seq<u64>, cursors: Seq<nat>, seen: Set<u64>)
    requires
        path.len() > 0,
        cursors.len() == path.len(),
        cursors.last() >= neighbours(g, path.last()).len(),
    ensures
        finish(g, path, cursors, seen) == finish(g, path.drop_last(), cursors.drop_last(), seen),
{
}

/// The search goes on to a neighbour that it has not seen.
pub proof fn lemma_finish_enters(g: BiedgedGraph, path: Seq<u64>, cursors: Seq<nat>, seen: Set<u64>)
    requires
        path.len() > 0,
        cursors.len() == path.len(),
        cursors.last() < neighbours(g, path.last()).len(),
        !seen.contains(neighbours(g, path.last())[cursors.last() as int]),
        g.has_node(neighbours(g, path.last())[cursors.last() as int]),
    ensures
        finish(g, path, cursors, seen) == finish(
            g,
            path.push(neighbours(g, path.last())[cursors.last() as int]),
            cursors.update(cursors.len() - 1, cursors.last() + 1).push(0),
            seen.insert(neighbours(g, path.last())[cursors.last() as int]),
        ),
{
    let k = cursors.last();
    let u = neighbours(g, path.last())[k as int];
    let down = scan(g, path.push(u), 0, seen.insert(u));
    let after = down.0.union(seen.insert(u));
    lemma_scan_grows(g, path.push(u), 0, seen.insert(u));
    assert(after =~= down.0);
    let on = scan(g, path, k + 1, after);
    let top = scan(g, path, k, seen);
    assert(top == (on.0, down.1 + on.1));
    let below = finish(g, path.drop_last(), cursors.drop_last(), on.0);
    assert(finish(g, path, cursors, seen) == (below.0, (down.1 + on.1) + below.1));
    let path2 = path.push(u);
    let moved = cursors.update(cursors.len() - 1, k + 1);
    let cursors2 = moved.push(0);
    assert(path2.drop_last() =~= path);
    assert(cursors2.drop_last() =~= moved);
    assert(moved.drop_last() =~= cursors.drop_last());
    assert(moved.last() == k + 1);
    assert(cursors2.last() == 0);
    assert(finish(g, path, moved, down.0) == (below.0, on.1 + below.1));
    assert(finish(g, path2, cursors2, seen.insert(u)) == (below.0, down.1 + (on.1 + below.1)));
    assert((down.1 + on.1) + below.1 =~= down.1 + (on.1 + below.1));
}

/// The search looks at a neighbour that it has seen, and finds the cycle
/// that it closes.
pub proof fn lemma_finish_skips(g: BiedgedGraph, path: Seq<u64>, cursors: Seq<nat>, seen: Set<u64>)
    requires
        path.len() > 0,
        cursors.len() == path.len(),
        cursors.last() < neighbours(g, path.last()).len(),
        seen.contains(neighbours(g, path.last())[cursors.last() as int]),
    ensures
        finish(g, path, cursors, seen).0 == finish(
            g,
            path,
            cursors.update(cursors.len() - 1, cursors.last() + 1),
            seen,
        ).0,
        finish(g, path, cursors, seen).1 == closing(
            path,
            neighbours(g, path.last())[cursors.last() as int],
        ) + finish(g, path, cursors.update(cursors.len() - 1, cursors.last() + 1), seen).1,
{
    let k = cursors.last();
    let u = neighbours(g, path.last())[k as int];
    let on = scan(g, path, k + 1, seen);
    let moved = cursors.update(cursors.len() - 1, k + 1);
    assert(moved.drop_last() =~= cursors.drop_last());
    assert(moved.last() == k + 1);
    let below = finish(g, path.drop_last(), cursors.drop_last(), on.0);
    assert(finish(g, path, moved, seen) == (below.0, on.1 + below.1));
    assert(finish(g, path, cursors, seen) == (below.0, (closing(path, u) + on.1) + below.1));
    assert((closing(path, u) + on.1) + below.1 =~= closing(path, u) + (on.1 + below.1));
}

/// The search from a root that it has not seen.
pub proof fn lemma_roots_enter(g: BiedgedGraph, r: nat, seen: Set<u64>)
    requires
        r < g.node_seq().len(),
        !seen.contains(g.node_seq()[r as int]),
    ensures
        from_roots(g, r, seen) == finish(
            g,
            seq![g.node_seq()[r as int]],
            seq![0nat],
            seen.insert(g.node_seq()[r as int]),
        ).1 + from_roots(
            g,
            r + 1,
            finish(g, seq![g.node_seq()[r as int]], seq![0nat], seen.insert(g.node_seq()[r as int])).0,
        ),
{
    let root = g.node_seq()[r as int];
    let path = seq![root];
    let cursors = seq![0nat];
    let tree = scan(g, path, 0, seen.insert(root));
    assert(path.drop_last() =~= Seq::<u64>::empty());
    assert(cursors.drop_last() =~= Seq::<nat>::empty());
    assert(cursors.last() == 0);
    assert(finish(g, path.drop_last(), cursors.drop_last(), tree.0) == (
        tree.0,
        Seq::<Seq<u64>>::empty(),
    ));
    assert(finish(g, path, cursors, seen.insert(root)) == (
        tree.0,
        tree.1 + Seq::<Seq<u64>>::empty(),
    ));
    assert(tree.1 + Seq::<Seq<u64>>::empty() =~= tree.1);
}

/// Filtering an ascending sequence leaves an ascending sequence with those
/// of its members that pass.
pub proof fn lemma_filter_ascending(s: Seq<u64>, pred: spec_fn(u64) -> bool)
    requires
        ascending(s),
    ensures
        ascending(s.filter(pred)),
        forall|x: u64| s.filter(pred).contains(x) <==> (s.contains(x) && pred(x)),
    decreases s.len(),
{
    assert forall|x: u64| s.filter(pred).contains(x) <==> (s.contains(x) && pred(x)) by {
        if s.filter(pred).contains(x) {
            s.lemma_filter_contains_rev(pred, x);
            let i = choose|i: int| 0 <= i < s.filter(pred).len() && s.filter(pred)[i] == x;
            s.lemma_filter_pred(pred, i);
        }
        if s.contains(x) && pred(x) {
            let j = choose|j: int| 0 <= j < s.len() && s[j] == x;
            s.lemma_filter_contains(pred, j);
        }
    }
    if s.len() > 0 {
        let front = s.drop_last();
        assert forall|i: int, j: int| 0 <= i < j < front.len() implies front[i] < front[j] by {
            assert(front[i] == s[i] && front[j] == s[j]);
        }
        lemma_filter_ascending(front, pred);
        let kept = front.filter(pred);
        assert(s =~= front.push(s.last()));
        front.lemma_filter_push(s.last(), pred);
        if pred(s.last()) {
            assert(s.filter(pred) == kept.push(s.last()));
            assert forall|i: int, j: int| 0 <= i < j < s.filter(pred).len() implies s.filter(
                pred,
            )[i] < s.filter(pred)[j] by {
                if j == kept.len() {
                    assert(kept.contains(kept[i]));
                    front.lemma_filter_contains_rev(pred, kept[i]);
                    let t = choose|t: int| 0 <= t < front.len() && front[t] == kept[i];
                    assert(s[t] < s[s.len() - 1]);
                } else {
                    assert(kept[i] < kept[j]);
                }
            }
        } else {
            assert(s.filter(pred) == kept);
        }
    } else {
        assert(s.filter(pred).len() <= s.len()) by {
            s.lemma_filter_len(pred);
        }
    }
}

/// Two ascending sequences with the same members are the same.
pub proof fn lemma_ascending_same(a: Seq<u64>, b: Seq<u64>)
    requires
        ascending(a),
        ascending(b),
        forall|x: u64| a.contains(x) <==> b.contains(x),
    ensures
        a == b,
    decreases a.len(),
{
    if a.len() == 0 {
        if b.len() > 0 {
            assert(b.contains(b[0]));
        }
        assert(a =~= b);
    } else {
        assert(a.contains(a.last()));
        assert(b.contains(a.last()));
        assert(b.len() > 0);
        assert(b.contains(b.last()));
        assert(a.contains(b.last()));
        let i = choose|i: int| 0 <= i < b.len() && b[i] == a.last();
        let j = choose|j: int| 0 <= j < a.len() && a[j] == b.last();
        assert(a.last() == b.last()) by {
            if i < b.len() - 1 {
                assert(b[i] < b[b.len() - 1]);
            }
            if j < a.len() - 1 {
                assert(a[j] < a[a.len() - 1]);
            }
        }
        let af = a.drop_last();
        let bf = b.drop_last();
        assert forall|x: u64| af.contains(x) <==> bf.contains(x) by {
            if af.contains(x) {
                let t = choose|t: int| 0 <= t < af.len() && af[t] == x;
                assert(a[t] == x && a[t] < a[a.len() - 1]);
                assert(a.contains(x));
                let s = choose|s: int| 0 <= s < b.len() && b[s] == x;
                assert(s < b.len() - 1);
                assert(bf[s] == x);
            }
            if bf.contains(x) {
                let t = choose|t: int| 0 <= t < bf.len() && bf[t] == x;
                assert(b[t] == x && b[t] < b[b.len() - 1]);
                assert(b.contains(x));
                let s = choose|s: int| 0 <= s < a.len() && a[s] == x;
                assert(s < a.len() - 1);
                assert(af[s] == x);
            }
        }
        assert forall|i: int, j: int| 0 <= i < j < af.len() implies af[i] < af[j] by {
            assert(af[i] == a[i] && af[j] == a[j]);
        }
        assert forall|i: int, j: int| 0 <= i < j < bf.len() implies bf[i] < bf[j] by {
            assert(bf[i] == b[i] && bf[j] == b[j]);
        }
        lemma_ascending_same(af, bf);
        assert(a =~= af.push(a.last()));
        assert(b =~= bf.push(b.last()));
    }
}

} // verus!
